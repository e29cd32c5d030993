//! Character-level text primitives shared by the store, the transcript codec
//! and the streaming decoder: string equality, line splitting and
//! whitespace tokenization, each tied to a spec-level model of the text.
use vstd::prelude::*;

verus! {

/// The sequence of views of a vector of strings.
pub open spec fn strs(v: Seq<String>) -> Seq<Seq<char>> {
    v.map_values(|s: String| s@)
}

/// Decides string equality at the level of character views.
pub fn str_eq(a: &str, b: &str) -> (r: bool)
    ensures
        r == (a@ == b@),
{
    let alen = a.unicode_len();
    let blen = b.unicode_len();
    if alen != blen {
        return false;
    }
    let mut i: usize = 0;
    while i < alen
        invariant
            alen == a@.len(),
            alen == b@.len(),
            i <= alen,
            forall|j: int| 0 <= j < i ==> a@[j] == b@[j],
        decreases alen - i,
    {
        if a.get_char(i) != b.get_char(i) {
            return false;
        }
        i += 1;
    }
    proof {
        assert(a@ =~= b@);
    }
    true
}

/// The lines of a text, split at each newline character; a trailing newline
/// does not open a final empty line, matching how line iteration treats it.
pub open spec fn lines_of(s: Seq<char>) -> Seq<Seq<char>>
    decreases s.len(),
{
    if s.len() == 0 {
        Seq::empty()
    } else if s[0] == '\n' {
        seq![Seq::<char>::empty()] + lines_of(s.skip(1))
    } else {
        let rest = lines_of(s.skip(1));
        if rest.len() == 0 {
            seq![s]
        } else {
            seq![seq![s[0]] + rest[0]] + rest.skip(1)
        }
    }
}

/// A text whose first newline stands at `k` splits into its first line and
/// the lines of what follows that newline.
pub proof fn lemma_lines_head(t: Seq<char>, k: int)
    requires
        0 <= k < t.len(),
        t[k] == '\n',
        forall|j: int| 0 <= j < k ==> t[j] != '\n',
    ensures
        lines_of(t) == seq![t.take(k)] + lines_of(t.skip(k + 1)),
    decreases k,
{
    if k == 0 {
        assert(t.take(0) =~= Seq::<char>::empty());
    } else {
        assert forall|j: int| 0 <= j < k - 1 implies t.skip(1)[j] != '\n' by {
            assert(t[j + 1] != '\n');
        }
        lemma_lines_head(t.skip(1), k - 1);
        let rest = lines_of(t.skip(1));
        assert(rest[0] == t.skip(1).take(k - 1));
        assert(rest.len() > 0);
        assert(seq![t[0]] + t.skip(1).take(k - 1) =~= t.take(k));
        assert(rest.skip(1) == lines_of(t.skip(1).skip(k)));
        assert(t.skip(1).skip(k) =~= t.skip(k + 1));
        assert(lines_of(t) =~= seq![t.take(k)] + lines_of(t.skip(k + 1)));
    }
}

/// A nonempty text without newlines is a single line.
pub proof fn lemma_lines_whole(t: Seq<char>)
    requires
        t.len() > 0,
        forall|j: int| 0 <= j < t.len() ==> t[j] != '\n',
    ensures
        lines_of(t) == seq![t],
    decreases t.len(),
{
    if t.len() == 1 {
        assert(t.skip(1).len() == 0);
        assert(lines_of(t.skip(1)) =~= Seq::<Seq<char>>::empty());
        assert(lines_of(t) =~= seq![t]);
    } else {
        assert forall|j: int| 0 <= j < t.skip(1).len() implies t.skip(1)[j] != '\n' by {
            assert(t[j + 1] != '\n');
        }
        lemma_lines_whole(t.skip(1));
        assert(seq![t[0]] + t.skip(1) =~= t);
        assert(lines_of(t) =~= seq![t]);
    }
}

/// Splits a text into its lines.
pub fn split_lines(s: &str) -> (r: Vec<String>)
    ensures
        strs(r@) == lines_of(s@),
{
    let len = s.unicode_len();
    let mut r: Vec<String> = Vec::new();
    let mut start: usize = 0;
    let mut i: usize = 0;
    proof {
        assert(s@.skip(0) =~= s@);
        assert(strs(r@) =~= Seq::<Seq<char>>::empty());
    }
    while i < len
        invariant
            len == s@.len(),
            start <= i <= len,
            forall|j: int| start <= j < i ==> s@[j] != '\n',
            lines_of(s@) =~= strs(r@) + lines_of(s@.skip(start as int)),
        decreases len - i,
    {
        if s.get_char(i) == '\n' {
            let line = s.substring_char(start, i).to_owned();
            proof {
                let t = s@.skip(start as int);
                assert forall|j: int| 0 <= j < i - start implies t[j] != '\n' by {
                    assert(s@[start + j] != '\n');
                }
                assert(t[i - start] == '\n');
                lemma_lines_head(t, i - start);
                assert(t.take(i - start) =~= s@.subrange(start as int, i as int));
                assert(t.skip(i - start + 1) =~= s@.skip(i + 1));
                assert(strs(r@.push(line)) =~= strs(r@).push(line@));
            }
            r.push(line);
            start = i + 1;
        }
        i += 1;
    }
    if start < len {
        let line = s.substring_char(start, len).to_owned();
        proof {
            let t = s@.skip(start as int);
            assert forall|j: int| 0 <= j < t.len() implies t[j] != '\n' by {
                assert(s@[start + j] != '\n');
            }
            lemma_lines_whole(t);
            assert(t =~= s@.subrange(start as int, len as int));
            assert(strs(r@.push(line)) =~= strs(r@).push(line@));
        }
        r.push(line);
    } else {
        proof {
            assert(lines_of(s@.skip(start as int)) =~= Seq::<Seq<char>>::empty());
        }
    }
    proof {
        assert(strs(r@) =~= lines_of(s@));
    }
    r
}

/// The whitespace that separates tokens of a config line.
pub open spec fn is_space(c: char) -> bool {
    c == ' ' || c == '\t' || c == '\r' || c == '\n'
}

/// The whitespace-separated tokens of a text; separators of any length are
/// collapsed and yield no empty tokens.
pub open spec fn tokens_of(s: Seq<char>) -> Seq<Seq<char>>
    decreases s.len(),
{
    if s.len() == 0 {
        Seq::empty()
    } else if is_space(s[0]) {
        tokens_of(s.skip(1))
    } else {
        let rest = tokens_of(s.skip(1));
        if s.len() >= 2 && !is_space(s[1]) {
            seq![seq![s[0]] + rest[0]] + rest.skip(1)
        } else {
            seq![seq![s[0]]] + rest
        }
    }
}

/// A text that opens with a maximal word of length `k` tokenizes into that
/// word followed by the tokens of the remainder.
pub proof fn lemma_tokens_word(t: Seq<char>, k: int)
    requires
        0 < k <= t.len(),
        forall|j: int| 0 <= j < k ==> !is_space(t[j]),
        k < t.len() ==> is_space(t[k]),
    ensures
        tokens_of(t) == seq![t.take(k)] + tokens_of(t.skip(k)),
    decreases k,
{
    if k == 1 {
        assert(t.take(1) =~= seq![t[0]]);
        if t.len() >= 2 && !is_space(t[1]) {
            assert(is_space(t[k]));
            assert(false);
        }
        assert(tokens_of(t) =~= seq![t.take(1)] + tokens_of(t.skip(1)));
    } else {
        assert forall|j: int| 0 <= j < k - 1 implies !is_space(t.skip(1)[j]) by {
            assert(!is_space(t[j + 1]));
        }
        assert(k - 1 < t.skip(1).len() ==> is_space(t.skip(1)[k - 1]));
        lemma_tokens_word(t.skip(1), k - 1);
        let rest = tokens_of(t.skip(1));
        assert(rest[0] == t.skip(1).take(k - 1));
        assert(!is_space(t[1]));
        assert(seq![t[0]] + t.skip(1).take(k - 1) =~= t.take(k));
        assert(rest.skip(1) == tokens_of(t.skip(1).skip(k - 1)));
        assert(t.skip(1).skip(k - 1) =~= t.skip(k));
        assert(tokens_of(t) =~= seq![t.take(k)] + tokens_of(t.skip(k)));
    }
}

/// Splits a text into its whitespace-separated tokens.
pub fn split_tokens(s: &str) -> (r: Vec<String>)
    ensures
        strs(r@) == tokens_of(s@),
{
    let len = s.unicode_len();
    let mut r: Vec<String> = Vec::new();
    let mut i: usize = 0;
    proof {
        assert(s@.skip(0) =~= s@);
        assert(strs(r@) =~= Seq::<Seq<char>>::empty());
    }
    while i < len
        invariant
            len == s@.len(),
            i <= len,
            tokens_of(s@) =~= strs(r@) + tokens_of(s@.skip(i as int)),
        decreases len - i,
    {
        if is_space_char(s.get_char(i)) {
            proof {
                assert(s@.skip(i as int).skip(1) =~= s@.skip(i + 1));
            }
            i += 1;
        } else {
            let start = i;
            let j = scan_word(s, start, len);
            let word = s.substring_char(start, j).to_owned();
            proof {
                let t = s@.skip(start as int);
                assert forall|m: int| 0 <= m < j - start implies !is_space(t[m]) by {
                    assert(!is_space(s@[start + m]));
                }
                assert(j < len ==> is_space(t[j - start]));
                lemma_tokens_word(t, j - start);
                assert(t.take(j - start) =~= s@.subrange(start as int, j as int));
                assert(t.skip(j - start) =~= s@.skip(j as int));
                assert(strs(r@.push(word)) =~= strs(r@).push(word@));
            }
            r.push(word);
            i = j;
        }
    }
    proof {
        assert(tokens_of(s@.skip(i as int)) =~= Seq::<Seq<char>>::empty());
        assert(strs(r@) =~= tokens_of(s@));
    }
    r
}

/// Finds the end of the word that starts at `start`: the first position at
/// or after it that holds whitespace, or the end of the text.
fn scan_word(s: &str, start: usize, len: usize) -> (j: usize)
    requires
        len == s@.len(),
        start < len,
        !is_space(s@[start as int]),
    ensures
        start < j <= len,
        forall|m: int| start <= m < j ==> !is_space(s@[m]),
        j < len ==> is_space(s@[j as int]),
{
    let mut j = start + 1;
    while j < len
        invariant
            len == s@.len(),
            start < j <= len,
            forall|m: int| start <= m < j ==> !is_space(s@[m]),
        decreases len - j,
    {
        if is_space_char(s.get_char(j)) {
            return j;
        }
        j += 1;
    }
    j
}

/// Decides whether a character separates tokens.
pub fn is_space_char(c: char) -> (r: bool)
    ensures
        r == is_space(c),
{
    c == ' ' || c == '\t' || c == '\r' || c == '\n'
}

/// Clones the tail of a string vector, from index `from` on.
pub fn clone_strings_from(v: &Vec<String>, from: usize) -> (r: Vec<String>)
    requires
        from <= v@.len(),
    ensures
        strs(r@) == strs(v@).skip(from as int),
{
    let mut r: Vec<String> = Vec::new();
    let mut i: usize = from;
    proof {
        assert(strs(r@) =~= strs(v@).subrange(from as int, from as int));
    }
    while i < v.len()
        invariant
            from <= i <= v@.len(),
            strs(r@) =~= strs(v@).subrange(from as int, i as int),
        decreases v@.len() - i,
    {
        let s = v[i].clone();
        proof {
            assert(strs(r@.push(s)) =~= strs(r@).push(s@));
            assert(strs(v@).subrange(from as int, i + 1) =~= strs(v@).subrange(
                from as int,
                i as int,
            ).push(v@[i as int]@));
        }
        r.push(s);
        i += 1;
    }
    proof {
        assert(strs(v@).subrange(from as int, v@.len() as int) =~= strs(v@).skip(from as int));
    }
    r
}

/// The parts joined with single spaces between them.
pub open spec fn join_spaces(parts: Seq<Seq<char>>) -> Seq<char>
    decreases parts.len(),
{
    if parts.len() == 0 {
        Seq::empty()
    } else if parts.len() == 1 {
        parts[0]
    } else {
        parts[0] + seq![' '] + join_spaces(parts.skip(1))
    }
}

/// Joining one more part appends a space and the part.
pub proof fn lemma_join_push(a: Seq<Seq<char>>, x: Seq<char>)
    requires
        a.len() >= 1,
    ensures
        join_spaces(a.push(x)) == join_spaces(a) + seq![' '] + x,
    decreases a.len(),
{
    if a.len() == 1 {
        assert(a.push(x).skip(1) =~= seq![x]);
        assert(join_spaces(seq![x]) == x);
        assert(join_spaces(a) == a[0]);
        assert(join_spaces(a.push(x)) == a.push(x)[0] + seq![' '] + join_spaces(a.push(x).skip(1)));
        assert(join_spaces(a.push(x)) =~= join_spaces(a) + seq![' '] + x);
    } else {
        lemma_join_push(a.skip(1), x);
        assert(a.push(x).skip(1) =~= a.skip(1).push(x));
        assert(join_spaces(a.push(x)) == a.push(x)[0] + seq![' '] + join_spaces(a.push(x).skip(1)));
        assert(join_spaces(a.push(x)) == a[0] + seq![' '] + (join_spaces(a.skip(1)) + seq![' ']
            + x));
        assert(join_spaces(a.push(x)) =~= join_spaces(a) + seq![' '] + x);
    }
}

/// Joins strings with single spaces, starting at index `from`.
pub fn join_with_spaces(parts: &Vec<String>, from: usize) -> (r: String)
    requires
        from <= parts@.len(),
    ensures
        r@ == join_spaces(strs(parts@).skip(from as int)),
{
    let mut r = String::new();
    let mut i: usize = from;
    proof {
        reveal_strlit(" ");
    }
    while i < parts.len()
        invariant
            from <= i <= parts@.len(),
            " "@ == seq![' '],
            i == from ==> r@ == Seq::<char>::empty(),
            i > from ==> r@ == join_spaces(strs(parts@).subrange(from as int, i as int)),
        decreases parts@.len() - i,
    {
        if i > from {
            r.append(" ");
        }
        r.append(parts[i].as_str());
        proof {
            let pre = strs(parts@).subrange(from as int, i as int);
            let cur = strs(parts@).subrange(from as int, i + 1);
            assert(cur =~= pre.push(parts@[i as int]@));
            if i > from {
                lemma_join_push(pre, parts@[i as int]@);
            } else {
                assert(join_spaces(cur) == cur[0]);
            }
        }
        i += 1;
    }
    proof {
        if from < parts@.len() {
            assert(strs(parts@).subrange(from as int, parts@.len() as int) =~= strs(
                parts@,
            ).skip(from as int));
        } else {
            assert(strs(parts@).skip(from as int) =~= Seq::<Seq<char>>::empty());
        }
    }
    r
}

/// Whether `p` occurs as a contiguous run inside `s`.
pub open spec fn contains_seq(s: Seq<char>, p: Seq<char>) -> bool {
    exists|i: int| 0 <= i && i + p.len() <= s.len() && #[trigger] s.subrange(i, i + p.len()) == p
}

/// Decides whether the pattern occurs inside the text.
pub fn contains_str(s: &str, p: &str) -> (r: bool)
    ensures
        r == contains_seq(s@, p@),
{
    let slen = s.unicode_len();
    let plen = p.unicode_len();
    if plen > slen {
        return false;
    }
    if plen == 0 {
        proof {
            assert(s@.subrange(0, 0 + p@.len() as int) =~= p@);
        }
        return true;
    }
    let mut i: usize = 0;
    while i <= slen - plen
        invariant
            slen == s@.len(),
            plen == p@.len(),
            0 < plen <= slen,
            i <= slen - plen + 1,
            forall|m: int| 0 <= m < i ==> #[trigger] s@.subrange(m, m + p@.len()) != p@,
        decreases slen - i,
    {
        let mut j: usize = 0;
        let mut hit = true;
        while j < plen
            invariant
                slen == s@.len(),
                plen == p@.len(),
                i + plen <= slen,
                j <= plen,
                hit ==> forall|m: int| 0 <= m < j ==> s@[i + m] == p@[m],
                !hit ==> s@.subrange(i as int, i + p@.len()) != p@,
            decreases plen - j,
        {
            if s.get_char(i + j) != p.get_char(j) {
                proof {
                    assert(s@.subrange(i as int, i + p@.len())[j as int] != p@[j as int]);
                }
                hit = false;
                j = plen;
            } else {
                j += 1;
            }
        }
        if hit {
            proof {
                assert(s@.subrange(i as int, i + p@.len()) =~= p@);
            }
            return true;
        }
        i += 1;
    }
    proof {
        assert forall|m: int| 0 <= m && m + p@.len() <= s@.len() implies #[trigger] s@.subrange(
            m,
            m + p@.len(),
        ) != p@ by {
            assert(m < i);
        }
    }
    false
}

} // verus!
