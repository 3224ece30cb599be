//! Character-level text handling: whitespace, tokens, trimming, substring
//! search, line splitting and joining, and decimal rendering of numbers.
//!
//! Strings are modelled by their view, a `Seq<char>`.
use vstd::prelude::*;

verus! {

// ---------------------------------------------------------------------------
// Specifications
// ---------------------------------------------------------------------------

/// The Unicode `White_Space` characters, which is what `char::is_whitespace`
/// (and therefore `str::trim` and `str::split_whitespace`) recognises.
pub open spec fn is_ws(c: char) -> bool {
    ||| ('\u{9}' <= c && c <= '\u{D}')
    ||| c == ' '
    ||| c == '\u{85}'
    ||| c == '\u{A0}'
    ||| c == '\u{1680}'
    ||| ('\u{2000}' <= c && c <= '\u{200A}')
    ||| c == '\u{2028}'
    ||| c == '\u{2029}'
    ||| c == '\u{202F}'
    ||| c == '\u{205F}'
    ||| c == '\u{3000}'
}

/// First index at or after `i` that ends the word starting at `i`
/// (a whitespace character, or the end of `s`).
pub open spec fn word_end(s: Seq<char>, i: int) -> int
    decreases s.len() - i,
{
    if i < 0 || i >= s.len() || is_ws(s[i]) {
        i
    } else {
        word_end(s, i + 1)
    }
}

pub proof fn lemma_word_end_bounds(s: Seq<char>, i: int)
    requires
        0 <= i <= s.len(),
    ensures
        i <= word_end(s, i) <= s.len(),
        word_end(s, i) == s.len() || is_ws(s[word_end(s, i)]),
        forall|k: int| i <= k < word_end(s, i) ==> !is_ws(#[trigger] s[k]),
    decreases s.len() - i,
{
    if i < s.len() && !is_ws(s[i]) {
        lemma_word_end_bounds(s, i + 1);
    }
}

/// The whitespace-separated words of `s` from index `i` on, in order.
pub open spec fn tokens_from(s: Seq<char>, i: int) -> Seq<Seq<char>>
    decreases s.len() - i,
{
    if i < 0 || i >= s.len() {
        seq![]
    } else if is_ws(s[i]) {
        tokens_from(s, i + 1)
    } else {
        let j = word_end(s, i + 1);
        proof {
            lemma_word_end_bounds(s, i + 1);
        }
        if j <= i {
            seq![]
        } else {
            seq![s.subrange(i, j)] + tokens_from(s, j)
        }
    }
}

/// The whitespace-separated words of `s` (what `str::split_whitespace` yields).
pub open spec fn tokens(s: Seq<char>) -> Seq<Seq<char>> {
    tokens_from(s, 0)
}

/// Index of the first non-whitespace character at or after `i` (or `s.len()`).
pub open spec fn skip_ws(s: Seq<char>, i: int) -> int
    decreases s.len() - i,
{
    if 0 <= i < s.len() && is_ws(s[i]) {
        skip_ws(s, i + 1)
    } else {
        i
    }
}

/// Index just past the last non-whitespace character before `j` (or 0).
pub open spec fn skip_ws_back(s: Seq<char>, j: int) -> int
    decreases j,
{
    if 0 < j <= s.len() && is_ws(s[j - 1]) {
        skip_ws_back(s, j - 1)
    } else {
        j
    }
}

/// `s` without leading and trailing whitespace (what `str::trim` yields).
pub open spec fn trimmed(s: Seq<char>) -> Seq<char> {
    let a = skip_ws(s, 0);
    let b = skip_ws_back(s, s.len() as int);
    if a < b {
        s.subrange(a, b)
    } else {
        seq![]
    }
}

/// `needle` occurs in `hay` (what `str::contains` with a string pattern decides).
pub open spec fn occurs(hay: Seq<char>, needle: Seq<char>) -> bool {
    exists|i: int| 0 <= i && i + needle.len() <= hay.len() && #[trigger] hay.subrange(i, i + needle.len()) == needle
}

/// The pieces of `s` between `'\n'` characters: always one more piece than
/// there are newlines.
pub open spec fn split_nl(s: Seq<char>) -> Seq<Seq<char>>
    decreases s.len(),
{
    if s.len() == 0 {
        seq![seq![]]
    } else {
        let p = split_nl(s.drop_last());
        if s.last() == '\n' {
            p.push(seq![])
        } else {
            p.update(p.len() - 1, p.last().push(s.last()))
        }
    }
}

/// A line without the `'\r'` of a `"\r\n"` ending.
pub open spec fn strip_cr(l: Seq<char>) -> Seq<char> {
    if l.len() > 0 && l.last() == '\r' {
        l.drop_last()
    } else {
        l
    }
}

/// The lines of `s` as `str::lines` yields them: every piece that a `'\n'`
/// ends, without a trailing `'\r'`, and then the text after the last `'\n'`
/// when it is not empty.
pub open spec fn lines_of(s: Seq<char>) -> Seq<Seq<char>> {
    let p = split_nl(s);
    p.take(p.len() - 1).map_values(|l: Seq<char>| strip_cr(l)) + if p.last().len() > 0 {
        seq![p.last()]
    } else {
        seq![]
    }
}

/// The lines joined with `'\n'` between them (what `[&str]::join("\n")` yields).
pub open spec fn join_nl(ls: Seq<Seq<char>>) -> Seq<char>
    decreases ls.len(),
{
    if ls.len() == 0 {
        seq![]
    } else if ls.len() == 1 {
        ls[0]
    } else {
        join_nl(ls.drop_last()) + seq!['\n'] + ls.last()
    }
}

/// `s` ends with a `'\n'`.
pub open spec fn ends_nl(s: Seq<char>) -> bool {
    s.len() > 0 && s.last() == '\n'
}

/// The decimal digit for `d < 10`.
pub open spec fn digit(d: nat) -> char {
    if d == 0 {
        '0'
    } else if d == 1 {
        '1'
    } else if d == 2 {
        '2'
    } else if d == 3 {
        '3'
    } else if d == 4 {
        '4'
    } else if d == 5 {
        '5'
    } else if d == 6 {
        '6'
    } else if d == 7 {
        '7'
    } else if d == 8 {
        '8'
    } else {
        '9'
    }
}

/// The decimal representation of `n`, without leading zeros (what `{}`
/// formats an unsigned integer to).
pub open spec fn dec(n: nat) -> Seq<char>
    decreases n,
{
    if n < 10 {
        seq![digit(n)]
    } else {
        dec(n / 10).push(digit(n % 10))
    }
}

/// The views of a sequence of character vectors.
pub open spec fn views(v: Seq<Vec<char>>) -> Seq<Seq<char>> {
    v.map_values(|x: Vec<char>| x@)
}

// ---------------------------------------------------------------------------
// Lemmas
// ---------------------------------------------------------------------------

proof fn lemma_tokens_from_ws(s: Seq<char>, i: int)
    requires
        0 <= i < s.len(),
        is_ws(s[i]),
    ensures
        tokens_from(s, i) == tokens_from(s, i + 1),
{
}

proof fn lemma_tokens_from_word(s: Seq<char>, i: int)
    requires
        0 <= i < s.len(),
        !is_ws(s[i]),
    ensures
        word_end(s, i) > i,
        tokens_from(s, i) == seq![s.subrange(i, word_end(s, i))] + tokens_from(s, word_end(s, i)),
{
    lemma_word_end_bounds(s, i + 1);
}

proof fn lemma_tokens_from_end(s: Seq<char>, i: int)
    requires
        i >= s.len(),
    ensures
        tokens_from(s, i) == Seq::<Seq<char>>::empty(),
{
}

/// The deep view of a vector of strings after a push.
pub proof fn lemma_strings_push(a: Vec<String>, b: Vec<String>, x: String)
    requires
        b@ == a@.push(x),
    ensures
        b.deep_view() == a.deep_view().push(x@),
{
    assert(b.deep_view() =~= a.deep_view().push(x@));
}

pub proof fn lemma_split_nl_len(s: Seq<char>)
    ensures
        split_nl(s).len() >= 1,
    decreases s.len(),
{
    if s.len() > 0 {
        lemma_split_nl_len(s.drop_last());
    }
}

/// `s` holds no newline.
pub open spec fn no_nl(s: Seq<char>) -> bool {
    forall|i: int| 0 <= i < s.len() ==> s[i] != '\n'
}

/// No piece between newlines holds a newline, and there is at least one.
pub proof fn lemma_split_nl_pieces(s: Seq<char>)
    ensures
        split_nl(s).len() >= 1,
        forall|k: int| 0 <= k < split_nl(s).len() ==> no_nl(#[trigger] split_nl(s)[k]),
    decreases s.len(),
{
    if s.len() > 0 {
        lemma_split_nl_pieces(s.drop_last());
        let p = split_nl(s.drop_last());
        if s.last() != '\n' {
            assert forall|k: int| 0 <= k < split_nl(s).len() implies no_nl(#[trigger] split_nl(s)[k]) by {
                if k == p.len() - 1 {
                    assert(split_nl(s)[k] == p.last().push(s.last()));
                    assert(no_nl(p[k]));
                }
            }
        }
    }
}

/// Appending text to the last line of a joined sequence appends it to the join.
pub proof fn lemma_join_nl_extend_last(p: Seq<Seq<char>>, x: Seq<char>)
    requires
        p.len() >= 1,
    ensures
        join_nl(p.update(p.len() - 1, p.last() + x)) == join_nl(p) + x,
{
    let q = p.update(p.len() - 1, p.last() + x);
    if p.len() == 1 {
        assert(q[0] == p[0] + x);
    } else {
        assert(q.drop_last() =~= p.drop_last());
        assert(join_nl(q) == join_nl(p.drop_last()) + seq!['\n'] + (p.last() + x));
        assert(join_nl(p.drop_last()) + seq!['\n'] + (p.last() + x) =~= join_nl(p.drop_last())
            + seq!['\n'] + p.last() + x);
    }
}

/// Joining the pieces between newlines gives back the text.
pub proof fn lemma_join_split_nl(s: Seq<char>)
    ensures
        join_nl(split_nl(s)) == s,
    decreases s.len(),
{
    if s.len() == 0 {
        assert(join_nl(split_nl(s)) =~= s);
    } else {
        let t = s.drop_last();
        lemma_join_split_nl(t);
        lemma_split_nl_pieces(t);
        let p = split_nl(t);
        if s.last() == '\n' {
            let q = p.push(seq![]);
            assert(q.drop_last() =~= p);
            assert(join_nl(q) == join_nl(p) + seq!['\n'] + Seq::<char>::empty());
            assert(t + seq!['\n'] + Seq::<char>::empty() =~= s);
        } else {
            lemma_join_nl_extend_last(p, seq![s.last()]);
            assert(p.last() + seq![s.last()] =~= p.last().push(s.last()));
            assert(t + seq![s.last()] =~= s);
        }
    }
}

/// Appending text without newlines to `y` extends its last piece.
pub proof fn lemma_split_nl_append(y: Seq<char>, x: Seq<char>)
    requires
        no_nl(x),
    ensures
        split_nl(y + x) == split_nl(y).update(split_nl(y).len() - 1, split_nl(y).last() + x),
    decreases x.len(),
{
    lemma_split_nl_len(y);
    if x.len() == 0 {
        assert(y + x =~= y);
        assert(split_nl(y).last() + x =~= split_nl(y).last());
        assert(split_nl(y).update(split_nl(y).len() - 1, split_nl(y).last() + x) =~= split_nl(y));
    } else {
        let x1 = x.drop_last();
        assert(no_nl(x1));
        lemma_split_nl_append(y, x1);
        assert((y + x).drop_last() =~= y + x1);
        assert((y + x).last() == x.last());
        assert(x.last() == x[x.len() - 1]);
        let p = split_nl(y);
        let q = p.update(p.len() - 1, p.last() + x1);
        assert(split_nl(y + x) == q.update(q.len() - 1, q.last().push(x.last())));
        assert(q.last().push(x.last()) =~= p.last() + x);
        assert(q.update(q.len() - 1, q.last().push(x.last())) =~= p.update(
            p.len() - 1,
            p.last() + x,
        ));
    }
}

/// Splitting joined lines without newlines gives them back.
pub proof fn lemma_split_join_nl(ls: Seq<Seq<char>>)
    requires
        ls.len() >= 1,
        forall|k: int| 0 <= k < ls.len() ==> no_nl(#[trigger] ls[k]),
    ensures
        split_nl(join_nl(ls)) == ls,
    decreases ls.len(),
{
    if ls.len() == 1 {
        assert(no_nl(ls[0]));
        lemma_split_nl_append(seq![], ls[0]);
        assert(Seq::<char>::empty() + ls[0] =~= ls[0]);
        assert(split_nl(Seq::<char>::empty()) == seq![Seq::<char>::empty()]);
        assert(split_nl(Seq::<char>::empty()).update(0, Seq::<char>::empty() + ls[0]) =~= ls);
    } else {
        let front = ls.drop_last();
        assert forall|k: int| 0 <= k < front.len() implies no_nl(#[trigger] front[k]) by {
            assert(front[k] == ls[k]);
        }
        lemma_split_join_nl(front);
        let y = join_nl(front) + seq!['\n'];
        assert(y.drop_last() =~= join_nl(front));
        assert(split_nl(y) == front.push(seq![]));
        assert(no_nl(ls.last()));
        lemma_split_nl_append(y, ls.last());
        assert(front.push(seq![]).update(front.len() as int, Seq::<char>::empty() + ls.last())
            =~= ls);
    }
}

/// Joining two nonempty sequences of lines joins the joins with a newline.
pub proof fn lemma_join_nl_concat(a: Seq<Seq<char>>, b: Seq<Seq<char>>)
    requires
        a.len() >= 1,
        b.len() >= 1,
    ensures
        join_nl(a + b) == join_nl(a) + seq!['\n'] + join_nl(b),
    decreases b.len(),
{
    if b.len() == 1 {
        assert((a + b).drop_last() =~= a);
        assert((a + b).last() == b[0]);
    } else {
        let b1 = b.drop_last();
        lemma_join_nl_concat(a, b1);
        assert((a + b).drop_last() =~= a + b1);
        assert((a + b).last() == b.last());
        assert(join_nl(a) + seq!['\n'] + join_nl(b1) + seq!['\n'] + b.last() =~= join_nl(a)
            + seq!['\n'] + (join_nl(b1) + seq!['\n'] + b.last()));
    }
}

/// `l` ends with a carriage return.
pub open spec fn ends_cr(l: Seq<char>) -> bool {
    l.len() > 0 && l.last() == '\r'
}

/// The lines without a trailing carriage return each.
pub open spec fn strip_all(ls: Seq<Seq<char>>) -> Seq<Seq<char>> {
    ls.map_values(|l: Seq<char>| strip_cr(l))
}

/// No line of `s` (as `lines_of` gives them) still ends with a carriage
/// return: every text whose lines end in `"\n"` or `"\r\n"` qualifies.
pub open spec fn clean_lines(s: Seq<char>) -> bool {
    forall|k: int| 0 <= k < lines_of(s).len() ==> !ends_cr(#[trigger] lines_of(s)[k])
}

/// No carriage return in `s` comes right before a newline.
pub open spec fn no_crlf(s: Seq<char>) -> bool {
    forall|k: int| 0 <= k < split_nl(s).len() - 1 ==> !ends_cr(#[trigger] split_nl(s)[k])
}

/// No carriage return in `s` comes right before a newline or at its end.
pub open spec fn pieces_clean(s: Seq<char>) -> bool {
    forall|k: int| 0 <= k < split_nl(s).len() ==> !ends_cr(#[trigger] split_nl(s)[k])
}

/// Stripping lines that do not end with a carriage return keeps them.
pub proof fn lemma_strip_all_clean(ls: Seq<Seq<char>>)
    requires
        forall|k: int| 0 <= k < ls.len() ==> !ends_cr(#[trigger] ls[k]),
    ensures
        strip_all(ls) == ls,
{
    assert forall|k: int| 0 <= k < ls.len() implies #[trigger] strip_all(ls)[k] == ls[k] by {
        assert(!ends_cr(ls[k]));
    }
    assert(strip_all(ls) =~= ls);
}

/// The lines of a text hold no newline; the last one is not empty when the
/// text does not end with a newline.
pub proof fn lemma_lines_of_shape(s: Seq<char>)
    ensures
        forall|k: int| 0 <= k < lines_of(s).len() ==> no_nl(#[trigger] lines_of(s)[k]),
        !ends_nl(s) && s.len() > 0 ==> lines_of(s).len() >= 1 && lines_of(s).last().len() > 0
            && lines_of(s).last() == split_nl(s).last(),
{
    lemma_split_nl_pieces(s);
    let p = split_nl(s);
    assert forall|k: int| 0 <= k < lines_of(s).len() implies no_nl(#[trigger] lines_of(s)[k]) by {
        if k < p.len() - 1 {
            assert(lines_of(s)[k] == strip_cr(p[k]));
            assert(no_nl(p[k]));
        } else {
            assert(lines_of(s)[k] == p.last());
            assert(no_nl(p[p.len() - 1]));
        }
    }
    if !ends_nl(s) && s.len() > 0 {
        let t = s.drop_last();
        lemma_split_nl_pieces(t);
        assert(p.last() == split_nl(t).last().push(s.last()));
    }
}

/// The lines of `join_nl(ls)`, with or without a final newline: those of
/// `ls` without a trailing carriage return, except the last one when there
/// is no final newline (lines without newlines, a last one that is not
/// empty when there is no final newline).
pub proof fn lemma_lines_of_joined(ls: Seq<Seq<char>>, final_nl: bool)
    requires
        ls.len() >= 1,
        forall|k: int| 0 <= k < ls.len() ==> no_nl(#[trigger] ls[k]),
        !final_nl ==> ls.last().len() > 0,
    ensures
        lines_of(join_nl(ls) + if final_nl {
            seq!['\n']
        } else {
            seq![]
        }) == if final_nl {
            strip_all(ls)
        } else {
            strip_all(ls.drop_last()).push(ls.last())
        },
{
    lemma_split_join_nl(ls);
    let j = join_nl(ls);
    if final_nl {
        let s = j + seq!['\n'];
        assert(s.drop_last() =~= j);
        assert(s.last() == '\n');
        let p = split_nl(s);
        assert(p == ls.push(seq![]));
        assert(p.take(p.len() - 1) =~= ls);
        assert(lines_of(s) =~= strip_all(ls));
    } else {
        let s = j + Seq::<char>::empty();
        assert(s =~= j);
        let p = split_nl(s);
        assert(p.take(p.len() - 1) =~= ls.drop_last());
        assert(lines_of(s) =~= strip_all(ls.drop_last()).push(ls.last()));
    }
}

/// The lines of a text without a carriage return right before a newline,
/// joined, give the text back with its final newline taken off.
pub proof fn lemma_join_lines_of_no_crlf(s: Seq<char>)
    requires
        no_crlf(s),
    ensures
        join_nl(lines_of(s)) + (if ends_nl(s) {
            seq!['\n']
        } else {
            seq![]
        }) == s,
{
    lemma_split_nl_pieces(s);
    let p = split_nl(s);
    let front = p.take(p.len() - 1);
    assert forall|k: int| 0 <= k < front.len() implies !ends_cr(#[trigger] front[k]) by {
        assert(front[k] == p[k]);
    }
    lemma_strip_all_clean(front);
    assert(front.map_values(|l: Seq<char>| strip_cr(l)) == strip_all(front));
    if s.len() == 0 {
        assert(lines_of(s) =~= Seq::<Seq<char>>::empty());
        assert(join_nl(lines_of(s)) + Seq::<char>::empty() =~= s);
    } else if ends_nl(s) {
        let t = s.drop_last();
        assert(p == split_nl(t).push(seq![]));
        assert(front =~= split_nl(t));
        assert(lines_of(s) =~= split_nl(t));
        lemma_join_split_nl(t);
        assert(t + seq!['\n'] =~= s);
    } else {
        lemma_lines_of_shape(s);
        assert(lines_of(s) == front + seq![p.last()]);
        assert(front + seq![p.last()] =~= p);
        lemma_join_split_nl(s);
        assert(s + Seq::<char>::empty() =~= s);
    }
}

// ---------------------------------------------------------------------------
// Executable operations
// ---------------------------------------------------------------------------

/// Appends one character to a string. Trusted: it calls `String::push`,
/// which std documents as appending the given `char` to the end of the
/// string; the contract states that the string's characters gain `c` at
/// their end and are otherwise unchanged.
#[verifier::external_body]
fn push_char(s: &mut String, c: char)
    ensures
        final(s)@ == old(s)@.push(c),
{
    s.push(c)
}

/// Appends `t` to `s`.
pub fn push_str(s: &mut String, t: &str)
    ensures
        final(s)@ == old(s)@ + t@,
{
    s.append(t);
}

/// Appends the given characters to `s`.
pub fn push_chars(s: &mut String, v: &[char])
    ensures
        final(s)@ == old(s)@ + v@,
{
    let ghost s0 = s@;
    let mut i: usize = 0;
    while i < v.len()
        invariant
            i <= v.len(),
            s@ == s0 + v@.take(i as int),
        decreases v.len() - i,
    {
        push_char(s, v[i]);
        assert(s0 + v@.take(i as int).push(v@[i as int]) =~= s0 + v@.take(i + 1));
        i += 1;
    }
    assert(v@.take(v.len() as int) =~= v@);
}

/// The characters of a string, in order.
pub fn chars_of(s: &str) -> (v: Vec<char>)
    ensures
        v@ == s@,
{
    let mut v: Vec<char> = Vec::new();
    for c in it: s.chars()
        invariant
            v@ == it.seq().take(it.index()),
            it.seq() == s@,
    {
        v.push(c);
    }
    v
}

/// The string made of the given characters.
pub fn string_of(v: &[char]) -> (s: String)
    ensures
        s@ == v@,
{
    let mut s = String::new();
    push_chars(&mut s, v);
    s
}

/// The string made of the characters `v[a..b]`.
pub fn string_of_range(v: &[char], a: usize, b: usize) -> (s: String)
    requires
        a <= b <= v.len(),
    ensures
        s@ == v@.subrange(a as int, b as int),
{
    let mut s = String::new();
    let mut i: usize = a;
    while i < b
        invariant
            a <= i <= b <= v.len(),
            s@ == v@.subrange(a as int, i as int),
        decreases b - i,
    {
        push_char(&mut s, v[i]);
        assert(v@.subrange(a as int, i as int).push(v@[i as int]) =~= v@.subrange(
            a as int,
            i + 1,
        ));
        i += 1;
    }
    s
}

/// Whether `c` is whitespace (`char::is_whitespace`).
pub fn is_whitespace(c: char) -> (r: bool)
    ensures
        r == is_ws(c),
{
    ('\u{9}' <= c && c <= '\u{D}') || c == ' ' || c == '\u{85}' || c == '\u{A0}' || c
        == '\u{1680}' || ('\u{2000}' <= c && c <= '\u{200A}') || c == '\u{2028}' || c
        == '\u{2029}' || c == '\u{202F}' || c == '\u{205F}' || c == '\u{3000}'
}

/// The whitespace-separated words of `s`, each as its characters.
pub fn split_whitespace(s: &str) -> (r: Vec<Vec<char>>)
    ensures
        views(r@) == tokens(s@),
{
    let cs = chars_of(s);
    let n = cs.len();
    let mut out: Vec<Vec<char>> = Vec::new();
    let mut i: usize = 0;
    while i < n
        invariant
            n == cs@.len(),
            cs@ == s@,
            i <= n,
            tokens(s@) == views(out@) + tokens_from(s@, i as int),
        decreases n - i,
    {
        if is_whitespace(cs[i]) {
            proof {
                lemma_tokens_from_ws(s@, i as int);
            }
            i += 1;
        } else {
            let start = i;
            let mut word: Vec<char> = Vec::new();
            proof {
                lemma_tokens_from_word(s@, start as int);
            }
            while i < n && !is_whitespace(cs[i])
                invariant
                    n == cs@.len(),
                    cs@ == s@,
                    start <= i <= n,
                    word_end(s@, start as int) == word_end(s@, i as int),
                    word@ == s@.subrange(start as int, i as int),
                decreases n - i,
            {
                word.push(cs[i]);
                assert(s@.subrange(start as int, i as int).push(s@[i as int]) =~= s@.subrange(
                    start as int,
                    i + 1,
                ));
                i += 1;
            }
            proof {
                assert(word_end(s@, i as int) == i);
                let ghost old_out = views(out@);
                assert(tokens(s@) == old_out + (seq![word@] + tokens_from(s@, i as int)));
            }
            let ghost before = views(out@);
            out.push(word);
            proof {
                assert(views(out@) =~= before.push(s@.subrange(start as int, i as int)));
                assert(before + (seq![s@.subrange(start as int, i as int)] + tokens_from(
                    s@,
                    i as int,
                )) =~= before.push(s@.subrange(start as int, i as int)) + tokens_from(
                    s@,
                    i as int,
                ));
            }
        }
    }
    proof {
        lemma_tokens_from_end(s@, i as int);
        assert(views(out@) + Seq::<Seq<char>>::empty() =~= views(out@));
    }
    out
}

/// `s` without leading and trailing whitespace.
pub fn trim(s: &str) -> (r: String)
    ensures
        r@ == trimmed(s@),
{
    let cs = chars_of(s);
    let n = cs.len();
    let mut a: usize = 0;
    while a < n && is_whitespace(cs[a])
        invariant
            n == cs@.len(),
            cs@ == s@,
            a <= n,
            skip_ws(s@, 0) == skip_ws(s@, a as int),
        decreases n - a,
    {
        a += 1;
    }
    let mut b: usize = n;
    while b > 0 && is_whitespace(cs[b - 1])
        invariant
            n == cs@.len(),
            cs@ == s@,
            b <= n,
            skip_ws_back(s@, n as int) == skip_ws_back(s@, b as int),
        decreases b,
    {
        b -= 1;
    }
    if a < b {
        string_of_range(&cs, a, b)
    } else {
        String::new()
    }
}

/// Whether `needle` occurs at index `i` of `hay`.
fn occurs_at(hay: &[char], needle: &[char], i: usize) -> (r: bool)
    requires
        i + needle.len() <= hay.len(),
    ensures
        r == (hay@.subrange(i as int, i + needle.len()) == needle@),
{
    let mut k: usize = 0;
    while k < needle.len()
        invariant
            i + needle.len() <= hay.len(),
            k <= needle.len(),
            forall|m: int| 0 <= m < k ==> hay@[i + m] == needle@[m],
        decreases needle.len() - k,
    {
        if hay[i + k] != needle[k] {
            assert(hay@.subrange(i as int, i + needle.len())[k as int] != needle@[k as int]);
            return false;
        }
        k += 1;
    }
    assert(hay@.subrange(i as int, i + needle.len()) =~= needle@);
    true
}

/// Whether `needle` occurs in `hay`.
pub fn contains_chars(hay: &[char], needle: &[char]) -> (r: bool)
    ensures
        r == occurs(hay@, needle@),
{
    if needle.len() > hay.len() {
        return false;
    }
    let last = hay.len() - needle.len();
    let mut i: usize = 0;
    while i < last
        invariant
            last + needle.len() == hay.len(),
            i <= last,
            forall|k: int|
                0 <= k < i ==> #[trigger] hay@.subrange(k, k + needle.len()) != needle@,
        decreases last - i,
    {
        if occurs_at(hay, needle, i) {
            return true;
        }
        i += 1;
    }
    occurs_at(hay, needle, last)
}

/// Splits `s` into its lines, as `str::lines` does.
pub fn lines(s: &str) -> (r: Vec<Vec<char>>)
    ensures
        views(r@) == lines_of(s@),
{
    let cs = chars_of(s);
    let n = cs.len();
    let mut out: Vec<Vec<char>> = Vec::new();
    let mut cur: Vec<char> = Vec::new();
    let ghost mut pieces: Seq<Seq<char>> = seq![];
    let mut i: usize = 0;
    assert(s@.take(0) =~= Seq::<char>::empty());
    while i < n
        invariant
            n == cs@.len(),
            cs@ == s@,
            i <= n,
            split_nl(s@.take(i as int)) == pieces.push(cur@),
            views(out@) == pieces.map_values(|l: Seq<char>| strip_cr(l)),
        decreases n - i,
    {
        let ghost t = s@.take(i + 1);
        assert(t.drop_last() =~= s@.take(i as int));
        assert(t.last() == cs@[i as int]);
        let ghost c0 = cur@;
        if cs[i] == '\n' {
            let mut line = cur;
            cur = Vec::new();
            if line.len() > 0 && line[line.len() - 1] == '\r' {
                line.pop();
            }
            assert(line@ == strip_cr(c0));
            let ghost before = views(out@);
            out.push(line);
            proof {
                assert(views(out@) =~= before.push(strip_cr(c0)));
                assert(pieces.push(c0).map_values(|l: Seq<char>| strip_cr(l)) =~= before.push(
                    strip_cr(c0),
                ));
                pieces = pieces.push(c0);
                assert(split_nl(t) =~= pieces.push(cur@));
            }
        } else {
            cur.push(cs[i]);
            proof {
                assert(pieces.push(c0).update(pieces.len() as int, c0.push(cs@[i as int]))
                    =~= pieces.push(cur@));
            }
        }
        i += 1;
    }
    assert(s@.take(n as int) =~= s@);
    let ghost p = pieces.push(cur@);
    assert(p.take(p.len() - 1) =~= pieces);
    if cur.len() > 0 {
        let ghost before = views(out@);
        out.push(cur);
        assert(views(out@) =~= before + seq![p.last()]);
    } else {
        assert(views(out@) =~= views(out@) + Seq::<Seq<char>>::empty());
    }
    out
}

/// The lines joined with `'\n'` between them.
pub fn join_lines(ls: &Vec<Vec<char>>) -> (r: String)
    ensures
        r@ == join_nl(views(ls@)),
{
    let mut r = String::new();
    let mut i: usize = 0;
    while i < ls.len()
        invariant
            i <= ls.len(),
            r@ == join_nl(views(ls@).take(i as int)),
        decreases ls.len() - i,
    {
        let ghost t = views(ls@).take(i + 1);
        assert(t.drop_last() =~= views(ls@).take(i as int));
        if i > 0 {
            push_char(&mut r, '\n');
        } else {
            assert(t.len() == 1);
        }
        push_chars(&mut r, ls[i].as_slice());
        i += 1;
    }
    assert(views(ls@).take(ls.len() as int) =~= views(ls@));
    r
}

/// The lines `ls[a..b]` joined with `'\n'` between them.
pub fn join_range(ls: &Vec<Vec<char>>, a: usize, b: usize) -> (r: String)
    requires
        a <= b <= ls.len(),
    ensures
        r@ == join_nl(views(ls@).subrange(a as int, b as int)),
{
    let mut r = String::new();
    let mut i: usize = a;
    while i < b
        invariant
            a <= i <= b <= ls.len(),
            r@ == join_nl(views(ls@).subrange(a as int, i as int)),
        decreases b - i,
    {
        let ghost t = views(ls@).subrange(a as int, i + 1);
        assert(t.drop_last() =~= views(ls@).subrange(a as int, i as int));
        if i > a {
            push_char(&mut r, '\n');
        } else {
            assert(t.len() == 1);
        }
        push_chars(&mut r, ls[i].as_slice());
        i += 1;
    }
    r
}

/// Whether `s` is one of the strings of `v`.
pub fn contains_string(v: &Vec<String>, s: &String) -> (r: bool)
    ensures
        r == v.deep_view().contains(s@),
{
    let mut i: usize = 0;
    while i < v.len()
        invariant
            i <= v.len(),
            forall|k: int| 0 <= k < i ==> v@[k]@ != s@,
        decreases v.len() - i,
    {
        if v[i] == *s {
            assert(v.deep_view()[i as int] == s@);
            return true;
        }
        i += 1;
    }
    assert(!v.deep_view().contains(s@)) by {
        if v.deep_view().contains(s@) {
            let k = choose|k: int| 0 <= k < v.deep_view().len() && v.deep_view()[k] == s@;
            assert(v@[k]@ == s@);
        }
    }
    false
}

/// The views of a sequence of character slices.
pub open spec fn slice_views(v: Seq<&[char]>) -> Seq<Seq<char>> {
    v.map_values(|x: &[char]| x@)
}

/// The lines joined with `'\n'` between them.
pub fn join_slices(ls: &Vec<&[char]>) -> (r: String)
    ensures
        r@ == join_nl(slice_views(ls@)),
{
    let mut r = String::new();
    let mut i: usize = 0;
    while i < ls.len()
        invariant
            i <= ls.len(),
            r@ == join_nl(slice_views(ls@).take(i as int)),
        decreases ls.len() - i,
    {
        let ghost t = slice_views(ls@).take(i + 1);
        assert(t.drop_last() =~= slice_views(ls@).take(i as int));
        if i > 0 {
            push_char(&mut r, '\n');
        } else {
            assert(t.len() == 1);
        }
        push_chars(&mut r, ls[i]);
        i += 1;
    }
    assert(slice_views(ls@).take(ls.len() as int) =~= slice_views(ls@));
    r
}

/// The character of the decimal digit `d < 10`.
pub fn digit_char(d: usize) -> (c: char)
    requires
        d < 10,
    ensures
        c == digit(d as nat),
{
    if d == 0 {
        '0'
    } else if d == 1 {
        '1'
    } else if d == 2 {
        '2'
    } else if d == 3 {
        '3'
    } else if d == 4 {
        '4'
    } else if d == 5 {
        '5'
    } else if d == 6 {
        '6'
    } else if d == 7 {
        '7'
    } else if d == 8 {
        '8'
    } else {
        '9'
    }
}

/// Appends the decimal representation of `n` to `s`.
pub fn push_decimal(s: &mut String, n: usize)
    ensures
        final(s)@ == old(s)@ + dec(n as nat),
    decreases n,
{
    if n >= 10 {
        push_decimal(s, n / 10);
    }
    push_char(s, digit_char(n % 10));
    proof {
        if n >= 10 {
            assert(old(s)@ + dec((n / 10) as nat) + seq![digit((n % 10) as nat)] =~= old(s)@ + dec(
                n as nat,
            ));
        } else {
            assert(old(s)@ + seq![digit(n as nat)] =~= old(s)@ + dec(n as nat));
        }
    }
}

/// The decimal representation of `n`.
pub fn decimal(n: usize) -> (r: String)
    ensures
        r@ == dec(n as nat),
{
    let mut r = String::new();
    push_decimal(&mut r, n);
    assert(Seq::<char>::empty() + dec(n as nat) =~= dec(n as nat));
    r
}

} // verus!
