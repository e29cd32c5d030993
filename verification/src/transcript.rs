//! The transcript codec: a conversation is persisted as role-tagged line
//! blocks, with a normalize-then-escape pass over apostrophes at save time,
//! and read back by a small line-oriented state machine.
use vstd::prelude::*;

use crate::convo::{msg_data, msgs_data, Conversation, Message, Role};
use crate::text::{lemma_lines_head, lines_of, str_eq, strs};

verus! {

/// One left-to-right pass replacing each escaped apostrophe — backslash,
/// backslash, apostrophe — by a bare apostrophe.
pub open spec fn norm_quotes(s: Seq<char>) -> Seq<char>
    decreases s.len(),
{
    if s.len() >= 3 && s[0] == '\\' && s[1] == '\\' && s[2] == '\'' {
        seq!['\''] + norm_quotes(s.skip(3))
    } else if s.len() == 0 {
        Seq::empty()
    } else {
        seq![s[0]] + norm_quotes(s.skip(1))
    }
}

/// One left-to-right pass replacing each bare apostrophe by backslash,
/// backslash, apostrophe.
pub open spec fn esc_quotes(s: Seq<char>) -> Seq<char>
    decreases s.len(),
{
    if s.len() == 0 {
        Seq::empty()
    } else if s[0] == '\'' {
        seq!['\\', '\\', '\''] + esc_quotes(s.skip(1))
    } else {
        seq![s[0]] + esc_quotes(s.skip(1))
    }
}

/// The save-time transform: normalize away existing escapes, then escape.
pub open spec fn save_transform(s: Seq<char>) -> Seq<char> {
    esc_quotes(norm_quotes(s))
}

/// Replaces each escaped apostrophe by a bare one.
pub fn normalize_quotes(s: &str) -> (r: String)
    ensures
        r@ == norm_quotes(s@),
{
    let len = s.unicode_len();
    let mut r = String::new();
    let mut i: usize = 0;
    proof {
        reveal_strlit("'");
        assert(s@.skip(0) =~= s@);
        assert(r@ + norm_quotes(s@) =~= norm_quotes(s@));
    }
    while i < len
        invariant
            len == s@.len(),
            i <= len,
            "'"@ == seq!['\''],
            r@ + norm_quotes(s@.skip(i as int)) =~= norm_quotes(s@),
        decreases len - i,
    {
        let ghost t = s@.skip(i as int);
        if len - i > 2 && s.get_char(i) == '\\' && s.get_char(i + 1) == '\\' && s.get_char(i + 2)
            == '\'' {
            proof {
                assert(t.len() >= 3 && t[0] == '\\' && t[1] == '\\' && t[2] == '\'');
                assert(t.skip(3) =~= s@.skip(i + 3));
                assert(norm_quotes(t) == seq!['\''] + norm_quotes(s@.skip(i + 3)));
            }
            r.append("'");
            i += 3;
        } else {
            proof {
                assert(t.len() > 0);
                assert(t[0] == s@[i as int]);
                assert(!(t.len() >= 3 && t[0] == '\\' && t[1] == '\\' && t[2] == '\''));
                assert(t.skip(1) =~= s@.skip(i + 1));
                assert(norm_quotes(t) == seq![t[0]] + norm_quotes(s@.skip(i + 1)));
            }
            let piece = s.substring_char(i, i + 1);
            r.append(piece);
            proof {
                assert(piece@ =~= seq![t[0]]);
            }
            i += 1;
        }
    }
    proof {
        assert(norm_quotes(s@.skip(len as int)) =~= Seq::<char>::empty());
        assert(r@ =~= norm_quotes(s@));
    }
    r
}

/// Replaces each bare apostrophe by an escaped one.
pub fn escape_quotes(s: &str) -> (r: String)
    ensures
        r@ == esc_quotes(s@),
{
    let len = s.unicode_len();
    let mut r = String::new();
    let mut i: usize = 0;
    proof {
        reveal_strlit("\\\\'");
        assert(s@.skip(0) =~= s@);
        assert(r@ + esc_quotes(s@) =~= esc_quotes(s@));
    }
    while i < len
        invariant
            len == s@.len(),
            i <= len,
            "\\\\'"@ == seq!['\\', '\\', '\''],
            r@ + esc_quotes(s@.skip(i as int)) =~= esc_quotes(s@),
        decreases len - i,
    {
        let ghost t = s@.skip(i as int);
        proof {
            assert(t.len() > 0);
            assert(t[0] == s@[i as int]);
            assert(t.skip(1) =~= s@.skip(i + 1));
        }
        if s.get_char(i) == '\'' {
            proof {
                assert(esc_quotes(t) == seq!['\\', '\\', '\''] + esc_quotes(s@.skip(i + 1)));
            }
            r.append("\\\\'");
        } else {
            proof {
                assert(esc_quotes(t) == seq![t[0]] + esc_quotes(s@.skip(i + 1)));
            }
            let piece = s.substring_char(i, i + 1);
            r.append(piece);
            proof {
                assert(piece@ =~= seq![t[0]]);
            }
        }
        i += 1;
    }
    proof {
        assert(esc_quotes(s@.skip(len as int)) =~= Seq::<char>::empty());
        assert(r@ =~= esc_quotes(s@));
    }
    r
}

/// The escape pass never puts an apostrophe first.
proof fn lemma_esc_first(s: Seq<char>)
    ensures
        esc_quotes(s).len() >= s.len(),
        esc_quotes(s).len() > 0 ==> esc_quotes(s)[0] != '\'',
    decreases s.len(),
{
    if s.len() > 0 {
        lemma_esc_first(s.skip(1));
    }
}

/// Normalizing undoes escaping exactly.
proof fn lemma_norm_esc_id(s: Seq<char>)
    ensures
        norm_quotes(esc_quotes(s)) == s,
    decreases s.len(),
{
    if s.len() == 0 {
    } else if s[0] == '\'' {
        let e = esc_quotes(s);
        assert(e == seq!['\\', '\\', '\''] + esc_quotes(s.skip(1)));
        assert(e.len() >= 3 && e[0] == '\\' && e[1] == '\\' && e[2] == '\'');
        assert(e.skip(3) =~= esc_quotes(s.skip(1)));
        lemma_norm_esc_id(s.skip(1));
        assert(norm_quotes(e) == seq!['\''] + s.skip(1));
        assert(norm_quotes(e) =~= s);
    } else {
        let e = esc_quotes(s);
        let rest = esc_quotes(s.skip(1));
        assert(e == seq![s[0]] + rest);
        lemma_esc_first(s.skip(1));
        if e.len() >= 3 && e[0] == '\\' && e[1] == '\\' && e[2] == '\'' {
            // A match here would need an apostrophe opening the escaped
            // remainder, which the escape pass never produces.
            assert(e[1] == rest[0] && e[2] == rest[1]);
            if s.len() >= 2 {
                if s[1] == '\'' {
                    assert(rest == seq!['\\', '\\', '\''] + esc_quotes(s.skip(1).skip(1)));
                    assert(rest[1] == '\\');
                    assert(false);
                } else {
                    assert(rest == seq![s[1]] + esc_quotes(s.skip(1).skip(1)));
                    if s[1] == '\\' {
                        lemma_esc_first(s.skip(1).skip(1));
                        assert(rest[1] == esc_quotes(s.skip(1).skip(1))[0]);
                        assert(false);
                    } else {
                        assert(rest[0] == s[1]);
                        assert(false);
                    }
                }
            } else {
                assert(rest.len() == 0);
                assert(false);
            }
        }
        assert(e.len() > 0);
        assert(norm_quotes(e) == seq![e[0]] + norm_quotes(e.skip(1)));
        assert(e.skip(1) =~= rest);
        lemma_norm_esc_id(s.skip(1));
        assert(norm_quotes(e) =~= s);
    }
}

/// Saving twice writes the same bytes as saving once: the save-time
/// transform is idempotent, so escapes do not pile up across save cycles.
pub proof fn lemma_save_transform_idempotent(s: Seq<char>)
    ensures
        save_transform(save_transform(s)) == save_transform(s),
{
    lemma_norm_esc_id(norm_quotes(s));
}

/// The line that opens a role's block.
pub open spec fn open_tag(r: Role) -> Seq<char> {
    match r {
        Role::User => "<user>"@,
        Role::Assistant => "<assistant>"@,
    }
}

/// The line that closes a role's block.
pub open spec fn close_tag(r: Role) -> Seq<char> {
    match r {
        Role::User => "</user>"@,
        Role::Assistant => "</assistant>"@,
    }
}

/// The persisted block of one message: open tag, content, close tag, each
/// on its own line.
pub open spec fn msg_block(m: (Role, Seq<char>)) -> Seq<char> {
    open_tag(m.0) + "\n"@ + m.1 + "\n"@ + close_tag(m.0) + "\n"@
}

/// The persisted text of a message list: the blocks in order, each passed
/// through the save-time transform.
pub open spec fn transcript_text(ms: Seq<(Role, Seq<char>)>) -> Seq<char>
    decreases ms.len(),
{
    if ms.len() == 0 {
        Seq::empty()
    } else {
        transcript_text(ms.drop_last()) + save_transform(msg_block(ms.last()))
    }
}

/// The opening tag line of a role.
fn open_tag_str(r: Role) -> (t: &'static str)
    ensures
        t@ == open_tag(r),
{
    match r {
        Role::User => "<user>",
        Role::Assistant => "<assistant>",
    }
}

/// The closing tag line of a role.
fn close_tag_str(r: Role) -> (t: &'static str)
    ensures
        t@ == close_tag(r),
{
    match r {
        Role::User => "</user>",
        Role::Assistant => "</assistant>",
    }
}

/// Renders the raw block of one message, before the save-time transform.
fn message_block(m: &Message) -> (r: String)
    ensures
        r@ == msg_block(msg_data(*m)),
{
    let mut r = String::new();
    r.append(open_tag_str(m.role));
    r.append("\n");
    r.append(m.content.as_str());
    r.append("\n");
    r.append(close_tag_str(m.role));
    r.append("\n");
    r
}

/// Renders a conversation as its persisted transcript text, applying the
/// save-time apostrophe transform to each message block.
pub fn encode_conversation(c: &Conversation) -> (r: String)
    ensures
        r@ == transcript_text(msgs_data(c.messages@)),
{
    let ghost ms = msgs_data(c.messages@);
    let mut r = String::new();
    let mut i: usize = 0;
    proof {
        assert(r@ =~= transcript_text(ms.take(0)));
    }
    while i < c.messages.len()
        invariant
            i <= c.messages@.len(),
            ms == msgs_data(c.messages@),
            ms.len() == c.messages@.len(),
            r@ =~= transcript_text(ms.take(i as int)),
        decreases c.messages@.len() - i,
    {
        let block = message_block(&c.messages[i]);
        let normed = normalize_quotes(block.as_str());
        let escaped = escape_quotes(normed.as_str());
        r.append(escaped.as_str());
        proof {
            assert(ms.take(i + 1).drop_last() =~= ms.take(i as int));
            assert(ms.take(i + 1).last() == ms[i as int]);
            assert(msg_data(c.messages@[i as int]) == ms[i as int]);
        }
        i += 1;
    }
    proof {
        assert(ms.take(ms.len() as int) =~= ms);
    }
    r
}

/// Folds a content line into the message list: a line merges into the last
/// message when the roles agree, else it starts a new message.
pub open spec fn fold_line(acc: Seq<(Role, Seq<char>)>, r: Role, line: Seq<char>) -> Seq<
    (Role, Seq<char>),
> {
    if acc.len() == 0 || acc.last().0 != r {
        acc.push((r, line))
    } else {
        acc.drop_last().push((r, acc.last().1 + line))
    }
}

/// The parser state after one line: tag lines switch it, others keep it.
pub open spec fn step_state(st: Option<Role>, line: Seq<char>) -> Option<Role> {
    if line == "<user>"@ {
        Some(Role::User)
    } else if line == "</user>"@ {
        None
    } else if line == "<assistant>"@ {
        Some(Role::Assistant)
    } else if line == "</assistant>"@ {
        None
    } else {
        st
    }
}

/// The message list after one line: content lines inside a tagged block are
/// folded in; tag lines and stray content outside any block change nothing.
pub open spec fn step_acc(st: Option<Role>, acc: Seq<(Role, Seq<char>)>, line: Seq<char>) -> Seq<
    (Role, Seq<char>),
> {
    if line == "<user>"@ || line == "</user>"@ || line == "<assistant>"@ || line
        == "</assistant>"@ {
        acc
    } else {
        match st {
            Some(r) => fold_line(acc, r, line),
            None => acc,
        }
    }
}

/// Runs the line state machine over the remaining lines.
pub open spec fn parse_lines(
    lines: Seq<Seq<char>>,
    st: Option<Role>,
    acc: Seq<(Role, Seq<char>)>,
) -> Seq<(Role, Seq<char>)>
    decreases lines.len(),
{
    if lines.len() == 0 {
        acc
    } else {
        parse_lines(lines.skip(1), step_state(st, lines[0]), step_acc(st, acc, lines[0]))
    }
}

/// The messages a transcript's lines describe.
pub open spec fn transcript_msgs(lines: Seq<Seq<char>>) -> Seq<(Role, Seq<char>)> {
    parse_lines(lines, None, Seq::empty())
}

/// Parses transcript lines into the conversation of a model: a state
/// machine over the role tag lines, folding content lines into messages.
pub fn parse_conversation(model: &str, lines: &Vec<String>) -> (c: Conversation)
    ensures
        c.model@ == model@,
        msgs_data(c.messages@) == transcript_msgs(strs(lines@)),
{
    let mut msgs: Vec<Message> = Vec::new();
    let mut state: Option<Role> = None;
    let mut i: usize = 0;
    proof {
        assert(strs(lines@).skip(0) =~= strs(lines@));
        assert(msgs_data(msgs@) =~= Seq::<(Role, Seq<char>)>::empty());
    }
    while i < lines.len()
        invariant
            i <= lines@.len(),
            transcript_msgs(strs(lines@)) == parse_lines(
                strs(lines@).skip(i as int),
                state,
                msgs_data(msgs@),
            ),
        decreases lines@.len() - i,
    {
        let ghost rem = strs(lines@).skip(i as int);
        let ghost acc0 = msgs_data(msgs@);
        proof {
            assert(rem[0] == strs(lines@)[i as int]);
            assert(rem.skip(1) =~= strs(lines@).skip(i + 1));
        }
        let line = &lines[i];
        if str_eq(line.as_str(), "<user>") {
            state = Some(Role::User);
        } else if str_eq(line.as_str(), "</user>") {
            state = None;
        } else if str_eq(line.as_str(), "<assistant>") {
            state = Some(Role::Assistant);
        } else if str_eq(line.as_str(), "</assistant>") {
            state = None;
        } else {
            match state {
                Some(role) => {
                    let n = msgs.len();
                    let mut merge = false;
                    if n > 0 {
                        if msgs[n - 1].role == role {
                            merge = true;
                        }
                    }
                    if merge {
                        let mut last = msgs.pop().unwrap();
                        last.content.append(line.as_str());
                        proof {
                            assert(msgs_data(msgs@.push(last)) =~= msgs_data(msgs@).push(
                                msg_data(last),
                            ));
                            assert(msgs_data(msgs@) =~= acc0.drop_last());
                            assert(msg_data(last) == (role, acc0.last().1 + line@));
                        }
                        msgs.push(last);
                        proof {
                            assert(msgs_data(msgs@) =~= fold_line(acc0, role, line@));
                        }
                    } else {
                        let m = Message { role, content: line.clone() };
                        proof {
                            assert(msgs_data(msgs@.push(m)) =~= msgs_data(msgs@).push(msg_data(m)));
                            assert(msgs_data(msgs@.push(m)) =~= fold_line(acc0, role, line@));
                        }
                        msgs.push(m);
                    }
                },
                None => {},
            }
        }
        i += 1;
    }
    proof {
        assert(strs(lines@).skip(lines@.len() as int).len() == 0);
    }
    Conversation { model: model.to_owned(), messages: msgs }
}

/// Content that survives a save/reload cycle unchanged: a single line
/// without apostrophes that is not itself a tag line. Apostrophes are
/// escaped at save time but never unescaped at load; newlines are folded
/// away by the line-oriented format; a tag line would be taken for a block
/// boundary.
pub open spec fn plain_single_line(content: Seq<char>) -> bool {
    &&& forall|i: int| 0 <= i < content.len() ==> content[i] != '\n' && content[i] != '\''
    &&& content != "<user>"@
    &&& content != "</user>"@
    &&& content != "<assistant>"@
    &&& content != "</assistant>"@
}

/// Whether adjacent messages always change role.
pub open spec fn roles_alternate(ms: Seq<(Role, Seq<char>)>) -> bool {
    forall|i: int| 0 <= i < ms.len() - 1 ==> (#[trigger] ms[i]).0 != ms[i + 1].0
}

/// The transcript text taken from the front: the first block, then the
/// rest.
proof fn lemma_transcript_text_first(ms: Seq<(Role, Seq<char>)>)
    requires
        ms.len() > 0,
    ensures
        transcript_text(ms) == save_transform(msg_block(ms[0])) + transcript_text(ms.skip(1)),
    decreases ms.len(),
{
    if ms.len() == 1 {
        assert(ms.drop_last().len() == 0);
        assert(transcript_text(ms.drop_last()) == Seq::<char>::empty());
        assert(ms.skip(1).len() == 0);
        assert(ms.last() == ms[0]);
        assert(transcript_text(ms) =~= save_transform(msg_block(ms[0])) + transcript_text(
            ms.skip(1),
        ));
    } else {
        lemma_transcript_text_first(ms.drop_last());
        assert(ms.drop_last()[0] == ms[0]);
        assert(ms.skip(1).drop_last() =~= ms.drop_last().skip(1));
        assert(ms.skip(1).last() == ms.last());
        assert(transcript_text(ms.skip(1)) == transcript_text(ms.skip(1).drop_last())
            + save_transform(msg_block(ms.skip(1).last())));
        assert(transcript_text(ms) =~= save_transform(msg_block(ms[0])) + transcript_text(
            ms.skip(1),
        ));
    }
}

/// A character sequence free of newlines and apostrophes.
spec fn clean_seq(s: Seq<char>) -> bool {
    forall|i: int| 0 <= i < s.len() ==> s[i] != '\n' && s[i] != '\''
}

/// The tag lines hold neither newlines nor apostrophes, and their lengths
/// are pairwise distinct.
proof fn lemma_tag_clean()
    ensures
        clean_seq("<user>"@),
        clean_seq("</user>"@),
        clean_seq("<assistant>"@),
        clean_seq("</assistant>"@),
        "<user>"@.len() == 6,
        "</user>"@.len() == 7,
        "<assistant>"@.len() == 11,
        "</assistant>"@.len() == 12,
{
    reveal_strlit("<user>");
    reveal_strlit("</user>");
    reveal_strlit("<assistant>");
    reveal_strlit("</assistant>");
    assert("<user>"@ =~= seq!['<', 'u', 's', 'e', 'r', '>']);
    assert("</user>"@ =~= seq!['<', '/', 'u', 's', 'e', 'r', '>']);
    assert("<assistant>"@ =~= seq!['<', 'a', 's', 's', 'i', 's', 't', 'a', 'n', 't', '>']);
    assert("</assistant>"@ =~= seq!['<', '/', 'a', 's', 's', 'i', 's', 't', 'a', 'n', 't', '>']);
    assert(clean_seq("<user>"@));
    assert(clean_seq("</user>"@));
    assert(clean_seq("<assistant>"@));
    assert(clean_seq("</assistant>"@));
}

/// The lines of one message block followed by more text: the open tag, the
/// content, the close tag, and then the lines of the rest.
proof fn lemma_lines_block(m: (Role, Seq<char>), rest: Seq<char>)
    requires
        clean_seq(m.1),
    ensures
        lines_of(msg_block(m) + rest) == seq![open_tag(m.0), m.1, close_tag(m.0)] + lines_of(rest),
{
    lemma_tag_clean();
    reveal_strlit("\n");
    assert("\n"@ =~= seq!['\n']);
    let ot = open_tag(m.0);
    let ct = close_tag(m.0);
    let t1 = msg_block(m) + rest;
    let t2 = m.1 + "\n"@ + ct + "\n"@ + rest;
    let t3 = ct + "\n"@ + rest;
    assert(clean_seq(ot) && clean_seq(ct));
    assert forall|j: int| 0 <= j < ot.len() implies t1[j] != '\n' by {
        assert(t1[j] == ot[j]);
    }
    assert(t1[ot.len() as int] == '\n');
    assert(t1.take(ot.len() as int) =~= ot);
    assert(t1.skip(ot.len() as int + 1) =~= t2);
    lemma_lines_head(t1, ot.len() as int);

    assert forall|j: int| 0 <= j < m.1.len() implies t2[j] != '\n' by {
        assert(t2[j] == m.1[j]);
    }
    assert(t2[m.1.len() as int] == '\n');
    assert(t2.take(m.1.len() as int) =~= m.1);
    assert(t2.skip(m.1.len() as int + 1) =~= t3);
    lemma_lines_head(t2, m.1.len() as int);

    assert forall|j: int| 0 <= j < ct.len() implies t3[j] != '\n' by {
        assert(t3[j] == ct[j]);
    }
    assert(t3[ct.len() as int] == '\n');
    assert(t3.take(ct.len() as int) =~= ct);
    assert(t3.skip(ct.len() as int + 1) =~= rest);
    lemma_lines_head(t3, ct.len() as int);

    assert(lines_of(t1) =~= seq![ot, m.1, ct] + lines_of(rest));
}

/// Parsing the encoded text of a message list appends exactly those
/// messages to whatever the parser has already accumulated, provided the
/// contents are storable, the roles alternate, and the first new message
/// does not share its role with the last accumulated one.
proof fn lemma_parse_encoded(ms: Seq<(Role, Seq<char>)>, acc: Seq<(Role, Seq<char>)>)
    requires
        forall|i: int| 0 <= i < ms.len() ==> plain_single_line((#[trigger] ms[i]).1),
        roles_alternate(ms),
        acc.len() > 0 && ms.len() > 0 ==> acc.last().0 != ms[0].0,
    ensures
        parse_lines(lines_of(transcript_text(ms)), None, acc) == acc + ms,
    decreases ms.len(),
{
    lemma_tag_clean();
    if ms.len() == 0 {
        assert(lines_of(transcript_text(ms)).len() == 0);
        assert(acc + ms =~= acc);
    } else {
        let m = ms[0];
        lemma_transcript_text_first(ms);
        reveal_strlit("\n");
        assert("\n"@ =~= seq!['\n']);
        let block = msg_block(m);
        assert forall|i: int| 0 <= i < block.len() implies block[i] != '\'' by {
            let ot = open_tag(m.0);
            let ct = close_tag(m.0);
            if i < ot.len() {
                assert(block[i] == ot[i]);
            } else if i < ot.len() + 1 {
                assert(block[i] == '\n');
            } else if i < ot.len() + 1 + m.1.len() {
                assert(block[i] == m.1[i - ot.len() - 1]);
            } else if i < ot.len() + 1 + m.1.len() + 1 {
                assert(block[i] == '\n');
            } else if i < ot.len() + 1 + m.1.len() + 1 + ct.len() {
                assert(block[i] == ct[i - ot.len() - 1 - m.1.len() - 1]);
            } else {
                assert(block[i] == '\n');
            }
        }
        lemma_transform_plain(block);
        let rest = transcript_text(ms.skip(1));
        assert(transcript_text(ms) == block + rest);
        lemma_lines_block(m, rest);
        let ls = lines_of(block + rest);
        let ot = open_tag(m.0);
        let ct = close_tag(m.0);
        assert(ls == seq![ot, m.1, ct] + lines_of(rest));
        assert(ls[0] == ot);
        assert(ls.skip(1) =~= seq![m.1, ct] + lines_of(rest));
        assert(ls.skip(1)[0] == m.1);
        assert(ls.skip(1).skip(1) =~= seq![ct] + lines_of(rest));
        assert(ls.skip(1).skip(1)[0] == ct);
        assert(ls.skip(1).skip(1).skip(1) =~= lines_of(rest));

        // Step 1: the open tag selects the role and keeps the accumulator.
        assert(ot != "</user>"@ && ot != "</assistant>"@);
        assert(step_state(None, ot) == Some(m.0));
        assert(step_acc(None, acc, ot) == acc);
        // Step 2: the content line folds in as a fresh message.
        assert(m.1 != "<user>"@ && m.1 != "</user>"@ && m.1 != "<assistant>"@ && m.1
            != "</assistant>"@);
        assert(step_state(Some(m.0), m.1) == Some(m.0));
        assert(step_acc(Some(m.0), acc, m.1) == fold_line(acc, m.0, m.1));
        assert(fold_line(acc, m.0, m.1) == acc.push((m.0, m.1)));
        assert((m.0, m.1) == m);
        // Step 3: the close tag leaves the block.
        assert(ct != "<user>"@ && ct != "<assistant>"@);
        assert(step_state(Some(m.0), ct) is None);
        assert(step_acc(Some(m.0), acc.push(m), ct) == acc.push(m));

        let l1 = ls.skip(1);
        let l2 = l1.skip(1);
        let l3 = l2.skip(1);
        assert(ls.len() == 3 + lines_of(rest).len());
        assert(l1[0] == m.1 && l2[0] == ct);
        assert(parse_lines(ls, None, acc) == parse_lines(l1, Some(m.0), acc));
        assert(parse_lines(l1, Some(m.0), acc) == parse_lines(l2, Some(m.0), acc.push(m)));
        assert(parse_lines(l2, Some(m.0), acc.push(m)) == parse_lines(l3, None, acc.push(m)));
        assert(parse_lines(ls, None, acc) == parse_lines(lines_of(rest), None, acc.push(m)));
        assert forall|i: int| 0 <= i < ms.skip(1).len() implies plain_single_line(
            (#[trigger] ms.skip(1)[i]).1,
        ) by {
            assert(ms.skip(1)[i] == ms[i + 1]);
        }
        assert forall|i: int| 0 <= i < ms.skip(1).len() - 1 implies (#[trigger] ms.skip(1)[i]).0
            != ms.skip(1)[i + 1].0 by {
            assert(ms.skip(1)[i] == ms[i + 1]);
            assert(ms.skip(1)[i + 1] == ms[i + 2]);
            assert(ms[i + 1].0 != ms[i + 2].0);
        }
        if ms.len() > 1 {
            assert(ms.skip(1)[0] == ms[1]);
            assert(acc.push(m).last().0 == m.0);
            assert(m.0 != ms[1].0);
        }
        lemma_parse_encoded(ms.skip(1), acc.push(m));
        assert(acc.push(m) + ms.skip(1) =~= acc + ms);
    }
}

/// Round trip: decoding the encoded transcript of a conversation yields the
/// conversation back, whenever each message is a storable single line and
/// adjacent messages alternate roles. Without the alternation adjacent
/// same-role blocks would merge at load; an apostrophe, such as in
/// `it's`, comes back escaped, since loading never unescapes.
pub proof fn lemma_transcript_round_trip(ms: Seq<(Role, Seq<char>)>)
    requires
        forall|i: int| 0 <= i < ms.len() ==> plain_single_line((#[trigger] ms[i]).1),
        roles_alternate(ms),
    ensures
        transcript_msgs(lines_of(transcript_text(ms))) == ms,
{
    lemma_parse_encoded(ms, Seq::empty());
    assert(Seq::<(Role, Seq<char>)>::empty() + ms =~= ms);
}

/// On text without apostrophes both passes change nothing.
proof fn lemma_transform_plain(s: Seq<char>)
    requires
        forall|i: int| 0 <= i < s.len() ==> s[i] != '\'',
    ensures
        norm_quotes(s) == s,
        esc_quotes(s) == s,
        save_transform(s) == s,
    decreases s.len(),
{
    if s.len() > 0 {
        assert forall|i: int| 0 <= i < s.skip(1).len() implies s.skip(1)[i] != '\'' by {
            assert(s[i + 1] != '\'');
        }
        lemma_transform_plain(s.skip(1));
        if s.len() >= 3 && s[0] == '\\' && s[1] == '\\' && s[2] == '\'' {
            assert(false);
        }
        assert(norm_quotes(s) =~= s);
        assert(esc_quotes(s) =~= s);
    }
}

} // verus!
