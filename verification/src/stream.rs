//! The streaming response decoder: each received chunk is one JSON object
//! carrying a slice of assistant output. The slice is sanitized, classified
//! as thinking or answer by the think-tag state machine, rendered at once,
//! and accumulated into the final answer only outside thinking blocks.
use vstd::prelude::*;

use crate::text::{contains_seq, contains_str};

verus! {

/// An error of the streaming decoder.
#[derive(Debug, Clone, Copy, PartialEq, Eq, Structural)]
pub enum StreamError {
    /// A chunk was not a well-formed JSON object.
    ParseError,
}

/// The text with every double-quote character removed: the content arrives
/// as its JSON rendering, so the wrapping quotes are stripped naively.
pub open spec fn strip_quotes(s: Seq<char>) -> Seq<char>
    decreases s.len(),
{
    if s.len() == 0 {
        Seq::empty()
    } else if s[0] == '"' {
        strip_quotes(s.skip(1))
    } else {
        seq![s[0]] + strip_quotes(s.skip(1))
    }
}

/// How many escaped newlines — backslash then `n` — the text holds,
/// counted left to right without overlap.
pub open spec fn count_esc_newlines(s: Seq<char>) -> nat
    decreases s.len(),
{
    if s.len() < 2 {
        0
    } else if s[0] == '\\' && s[1] == 'n' {
        1 + count_esc_newlines(s.skip(2))
    } else {
        count_esc_newlines(s.skip(1))
    }
}

/// The text with each escaped newline pair dropped, left to right.
pub open spec fn remove_esc_newlines(s: Seq<char>) -> Seq<char>
    decreases s.len(),
{
    if s.len() == 0 {
        Seq::empty()
    } else if s.len() >= 2 && s[0] == '\\' && s[1] == 'n' {
        remove_esc_newlines(s.skip(2))
    } else {
        seq![s[0]] + remove_esc_newlines(s.skip(1))
    }
}

/// The text with every remaining backslash removed. This also deletes
/// backslashes of genuine content; the format accepts that loss.
pub open spec fn strip_backslashes(s: Seq<char>) -> Seq<char>
    decreases s.len(),
{
    if s.len() == 0 {
        Seq::empty()
    } else if s[0] == '\\' {
        strip_backslashes(s.skip(1))
    } else {
        seq![s[0]] + strip_backslashes(s.skip(1))
    }
}

/// How many real newlines a raw content slice yields.
pub open spec fn newline_count(raw: Seq<char>) -> nat {
    count_esc_newlines(strip_quotes(raw))
}

/// The displayable text of a raw content slice: quotes stripped, and — only
/// when escaped newlines are present — the escape pairs and all remaining
/// backslashes removed.
pub open spec fn display_text(raw: Seq<char>) -> Seq<char> {
    let sq = strip_quotes(raw);
    if count_esc_newlines(sq) > 0 {
        strip_backslashes(remove_esc_newlines(sq))
    } else {
        sq
    }
}

/// A run of `n` newline characters.
pub open spec fn nl_seq(n: nat) -> Seq<char> {
    Seq::new(n, |i: int| '\n')
}

/// The thinking flag while the slice's own text is handled: an opening
/// think tag switches it on before the text is accumulated.
pub open spec fn thinking_mid(th: bool, t: Seq<char>) -> bool {
    if contains_seq(t, "<think>"@) {
        true
    } else {
        th
    }
}

/// The thinking flag after the whole slice: a closing think tag switches it
/// off after the text, before the trailing newlines.
pub open spec fn thinking_after(th: bool, t: Seq<char>) -> bool {
    if contains_seq(t, "</think>"@) {
        false
    } else {
        thinking_mid(th, t)
    }
}

/// What one raw slice adds to the accumulated answer, starting from
/// thinking flag `th`: its text when not thinking while it is handled, and
/// its newlines when not thinking after it.
pub open spec fn answer_delta(th: bool, raw: Seq<char>) -> Seq<char> {
    let t = display_text(raw);
    (if !thinking_mid(th, t) {
        t
    } else {
        Seq::empty()
    }) + (if !thinking_after(th, t) {
        nl_seq(newline_count(raw))
    } else {
        Seq::empty()
    })
}

/// Strips every double-quote character.
fn strip_quotes_str(s: &str) -> (r: String)
    ensures
        r@ == strip_quotes(s@),
{
    let len = s.unicode_len();
    let mut r = String::new();
    let mut i: usize = 0;
    proof {
        assert(s@.skip(0) =~= s@);
        assert(r@ + strip_quotes(s@) =~= strip_quotes(s@));
    }
    while i < len
        invariant
            len == s@.len(),
            i <= len,
            r@ + strip_quotes(s@.skip(i as int)) =~= strip_quotes(s@),
        decreases len - i,
    {
        let ghost t = s@.skip(i as int);
        proof {
            assert(t[0] == s@[i as int]);
            assert(t.skip(1) =~= s@.skip(i + 1));
        }
        if s.get_char(i) != '"' {
            let piece = s.substring_char(i, i + 1);
            r.append(piece);
            proof {
                assert(piece@ =~= seq![t[0]]);
            }
        }
        i += 1;
    }
    proof {
        assert(strip_quotes(s@.skip(len as int)) =~= Seq::<char>::empty());
        assert(r@ =~= strip_quotes(s@));
    }
    r
}

/// Counts the escaped newlines of the text.
fn count_esc_newlines_str(s: &str) -> (n: usize)
    ensures
        n == count_esc_newlines(s@),
{
    let len = s.unicode_len();
    let mut n: usize = 0;
    let mut i: usize = 0;
    proof {
        assert(s@.skip(0) =~= s@);
    }
    while i < len
        invariant
            len == s@.len(),
            i <= len,
            n <= i,
            n + count_esc_newlines(s@.skip(i as int)) == count_esc_newlines(s@),
        decreases len - i,
    {
        let ghost t = s@.skip(i as int);
        proof {
            assert(t[0] == s@[i as int]);
            if t.len() >= 2 {
                assert(t[1] == s@[i + 1]);
            }
            assert(t.skip(1) =~= s@.skip(i + 1));
        }
        if len - i > 1 && s.get_char(i) == '\\' && s.get_char(i + 1) == 'n' {
            proof {
                assert(t.skip(2) =~= s@.skip(i + 2));
            }
            n += 1;
            i += 2;
        } else {
            i += 1;
        }
    }
    n
}

/// Drops the escaped newline pairs of the text.
fn remove_esc_newlines_str(s: &str) -> (r: String)
    ensures
        r@ == remove_esc_newlines(s@),
{
    let len = s.unicode_len();
    let mut r = String::new();
    let mut i: usize = 0;
    proof {
        assert(s@.skip(0) =~= s@);
        assert(r@ + remove_esc_newlines(s@) =~= remove_esc_newlines(s@));
    }
    while i < len
        invariant
            len == s@.len(),
            i <= len,
            r@ + remove_esc_newlines(s@.skip(i as int)) =~= remove_esc_newlines(s@),
        decreases len - i,
    {
        let ghost t = s@.skip(i as int);
        proof {
            assert(t[0] == s@[i as int]);
            if t.len() >= 2 {
                assert(t[1] == s@[i + 1]);
            }
            assert(t.skip(1) =~= s@.skip(i + 1));
        }
        if len - i > 1 && s.get_char(i) == '\\' && s.get_char(i + 1) == 'n' {
            proof {
                assert(t.skip(2) =~= s@.skip(i + 2));
            }
            i += 2;
        } else {
            let piece = s.substring_char(i, i + 1);
            r.append(piece);
            proof {
                assert(piece@ =~= seq![t[0]]);
            }
            i += 1;
        }
    }
    proof {
        assert(remove_esc_newlines(s@.skip(len as int)) =~= Seq::<char>::empty());
        assert(r@ =~= remove_esc_newlines(s@));
    }
    r
}

/// Strips every backslash of the text.
fn strip_backslashes_str(s: &str) -> (r: String)
    ensures
        r@ == strip_backslashes(s@),
{
    let len = s.unicode_len();
    let mut r = String::new();
    let mut i: usize = 0;
    proof {
        assert(s@.skip(0) =~= s@);
        assert(r@ + strip_backslashes(s@) =~= strip_backslashes(s@));
    }
    while i < len
        invariant
            len == s@.len(),
            i <= len,
            r@ + strip_backslashes(s@.skip(i as int)) =~= strip_backslashes(s@),
        decreases len - i,
    {
        let ghost t = s@.skip(i as int);
        proof {
            assert(t[0] == s@[i as int]);
            assert(t.skip(1) =~= s@.skip(i + 1));
        }
        if s.get_char(i) != '\\' {
            let piece = s.substring_char(i, i + 1);
            r.append(piece);
            proof {
                assert(piece@ =~= seq![t[0]]);
            }
        }
        i += 1;
    }
    proof {
        assert(strip_backslashes(s@.skip(len as int)) =~= Seq::<char>::empty());
        assert(r@ =~= strip_backslashes(s@));
    }
    r
}

/// The decoder's state across chunks: whether output is inside a thinking
/// block, and the answer accumulated so far.
pub struct DecodeState {
    pub thinking: bool,
    pub answer: String,
}

impl DecodeState {
    /// A fresh decoder: answering, with nothing accumulated.
    pub fn new() -> (s: DecodeState)
        ensures
            !s.thinking,
            s.answer@.len() == 0,
    {
        DecodeState { thinking: false, answer: String::new() }
    }
}

/// What one chunk renders: its text, how many newlines follow it, and the
/// think-tag edges that switch terminal styling.
pub struct FragmentOutput {
    pub text: String,
    pub newlines: usize,
    pub think_start: bool,
    pub think_end: bool,
}

/// Appends `n` newlines.
fn append_newlines(out: &mut String, n: usize)
    ensures
        final(out)@ == old(out)@ + nl_seq(n as nat),
{
    let mut k: usize = 0;
    proof {
        reveal_strlit("\n");
        assert("\n"@ =~= seq!['\n']);
        assert(old(out)@ + nl_seq(0) =~= old(out)@);
    }
    while k < n
        invariant
            k <= n,
            "\n"@ == seq!['\n'],
            out@ =~= old(out)@ + nl_seq(k as nat),
        decreases n - k,
    {
        out.append("\n");
        proof {
            assert(old(out)@ + nl_seq(k as nat) + "\n"@ =~= old(out)@ + nl_seq((k + 1) as nat));
        }
        k += 1;
    }
}

/// Handles one raw content slice: sanitizes it, switches the thinking flag
/// at think tags, and accumulates text and newlines into the answer only
/// while not thinking.
pub fn process_fragment(state: &mut DecodeState, raw: &str) -> (out: FragmentOutput)
    ensures
        final(state).thinking == thinking_after(old(state).thinking, display_text(raw@)),
        final(state).answer@ == old(state).answer@ + answer_delta(old(state).thinking, raw@),
        out.text@ == display_text(raw@),
        out.newlines == newline_count(raw@),
        out.think_start == contains_seq(display_text(raw@), "<think>"@),
        out.think_end == contains_seq(display_text(raw@), "</think>"@),
{
    let stripped = strip_quotes_str(raw);
    let n = count_esc_newlines_str(stripped.as_str());
    let text = if n > 0 {
        let removed = remove_esc_newlines_str(stripped.as_str());
        strip_backslashes_str(removed.as_str())
    } else {
        stripped
    };
    let think_start = contains_str(text.as_str(), "<think>");
    let think_end = contains_str(text.as_str(), "</think>");
    if think_start {
        state.thinking = true;
    }
    let ghost mid = state.thinking;
    if !state.thinking {
        state.answer.append(text.as_str());
    }
    if think_end {
        state.thinking = false;
    }
    if !state.thinking {
        append_newlines(&mut state.answer, n);
    }
    proof {
        let t = display_text(raw@);
        assert(text@ == t);
        assert(mid == thinking_mid(old(state).thinking, t));
        assert(state.thinking == thinking_after(old(state).thinking, t));
        if !mid && !state.thinking {
            assert(state.answer@ =~= old(state).answer@ + answer_delta(old(state).thinking, raw@));
        } else if !mid && state.thinking {
            assert(old(state).answer@ + t =~= old(state).answer@ + answer_delta(
                old(state).thinking,
                raw@,
            ));
        } else if mid && !state.thinking {
            assert(state.answer@ =~= old(state).answer@ + answer_delta(old(state).thinking, raw@));
        } else {
            assert(old(state).answer@ + Seq::<char>::empty() =~= old(state).answer@);
            assert(old(state).answer@ =~= old(state).answer@ + answer_delta(
                old(state).thinking,
                raw@,
            ));
        }
    }
    FragmentOutput { text, newlines: n, think_start, think_end }
}

/// What extracting `message.content` from one chunk yields, as a function
/// of the chunk text alone: `Err` when the chunk is not one well-formed
/// JSON document, `Ok(None)` when the document has no `message.content`
/// field, and otherwise the compact JSON rendering of that field's value.
pub uninterp spec fn chunk_content(chunk: Seq<char>) -> Result<Option<Seq<char>>, ()>;

/// Relies on serde_json::from_str to parse one chunk as a JSON document, on
/// serde_json::Value::get to look up the "message" object and its "content"
/// field, and on the Display rendering of serde_json::Value to turn the
/// field back into compact JSON text. Each is a pure function of the chunk
/// text, so together they realize `chunk_content`.
#[verifier::external_body]
fn extract_chunk_content(chunk: &str) -> (r: Result<Option<String>, StreamError>)
    ensures
        match r {
            Ok(Some(c)) => chunk_content(chunk@) == Ok::<Option<Seq<char>>, ()>(Some(c@)),
            Ok(None) => chunk_content(chunk@) == Ok::<Option<Seq<char>>, ()>(None),
            Err(e) => chunk_content(chunk@) is Err && e == StreamError::ParseError,
        },
{
    match serde_json::from_str::<serde_json::Value>(chunk) {
        Err(_) => Err(StreamError::ParseError),
        Ok(v) => match v.get("message") {
            None => Ok(None),
            Some(msg) => match msg.get("content") {
                None => Ok(None),
                Some(content) => Ok(Some(content.to_string())),
            },
        },
    }
}

/// Handles one received chunk. A chunk that is not well-formed JSON fails
/// the whole transfer; one without a `message.content` field is skipped,
/// leaving the state alone; any other is processed as a fragment, and what
/// to render is returned.
pub fn process_chunk(state: &mut DecodeState, chunk: &str) -> (r: Result<
    Option<FragmentOutput>,
    StreamError,
>)
    ensures
        match r {
            Ok(Some(out)) => {
                &&& chunk_content(chunk@) matches Ok(Some(raw)) && out.text@ == display_text(raw)
                    && out.newlines == newline_count(raw) && out.think_start == contains_seq(
                    display_text(raw),
                    "<think>"@,
                ) && out.think_end == contains_seq(display_text(raw), "</think>"@)
                    && final(state).thinking == thinking_after(
                    old(state).thinking,
                    display_text(raw),
                ) && final(state).answer@ == old(state).answer@ + answer_delta(
                    old(state).thinking,
                    raw,
                )
            },
            Ok(None) => chunk_content(chunk@) == Ok::<Option<Seq<char>>, ()>(None) && *final(state)
                == *old(state),
            Err(e) => e == StreamError::ParseError && chunk_content(chunk@) is Err && *final(state)
                == *old(state),
        },
{
    match extract_chunk_content(chunk) {
        Err(e) => Err(e),
        Ok(None) => Ok(None),
        Ok(Some(raw)) => {
            let out = process_fragment(state, raw.as_str());
            Ok(Some(out))
        },
    }
}

} // verus!
