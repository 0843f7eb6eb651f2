//! Character and string helpers shared by the parsers: whitespace
//! classification, word splitting, collapsing and trimming.

use vstd::prelude::*;

verus! {

/// Unicode `White_Space`, the set that `char::is_whitespace` tests.
pub open spec fn is_ws(c: char) -> bool {
    ||| ('\u{9}' <= c && c <= '\u{d}')
    ||| c == ' '
    ||| c == '\u{85}'
    ||| c == '\u{a0}'
    ||| c == '\u{1680}'
    ||| ('\u{2000}' <= c && c <= '\u{200a}')
    ||| c == '\u{2028}'
    ||| c == '\u{2029}'
    ||| c == '\u{202f}'
    ||| c == '\u{205f}'
    ||| c == '\u{3000}'
}

/// Whether `c` is Unicode whitespace.
pub fn is_whitespace(c: char) -> (r: bool)
    ensures
        r == is_ws(c),
{
    ('\u{9}' <= c && c <= '\u{d}') || c == ' ' || c == '\u{85}' || c == '\u{a0}' || c
        == '\u{1680}' || ('\u{2000}' <= c && c <= '\u{200a}') || c == '\u{2028}' || c
        == '\u{2029}' || c == '\u{202f}' || c == '\u{205f}' || c == '\u{3000}'
}

} // verus!

verus! {

/// The characters of `s`, in order.
pub fn chars_of(s: &str) -> (r: Vec<char>)
    ensures
        r@ == s@,
{
    broadcast use vstd::string::group_string_axioms;
    let mut v: Vec<char> = Vec::new();
    for c in it: s.chars()
        invariant
            v@ == it.seq().take(it.index() as int),
    {
        v.push(c);
    }
    v
}

} // verus!

verus! {

/// A string holding exactly the characters of `v`.
///
/// Trusted: `String`'s `FromIterator<char>` (via `Iterator::collect`), which
/// std documents as pushing every character in iteration order.
#[verifier::external_body]
pub(crate) fn string_of(v: &[char]) -> (r: String)
    ensures
        r@ == v@,
{
    v.iter().collect()
}

/// An ASCII decimal digit.
pub open spec fn is_digit(c: char) -> bool {
    '0' <= c && c <= '9'
}

/// An ASCII letter.
pub open spec fn is_ascii_letter(c: char) -> bool {
    ('a' <= c && c <= 'z') || ('A' <= c && c <= 'Z')
}

/// ASCII lower-casing of one character (others unchanged).
pub open spec fn lower_ascii(c: char) -> char {
    if 'A' <= c && c <= 'Z' {
        ((c as u32) + 32) as char
    } else {
        c
    }
}

/// ASCII lower-casing of a whole sequence.
pub open spec fn lower_ascii_seq(s: Seq<char>) -> Seq<char> {
    s.map_values(|c: char| lower_ascii(c))
}

pub fn is_ascii_digit(c: char) -> (r: bool)
    ensures
        r == is_digit(c),
{
    '0' <= c && c <= '9'
}

pub fn is_ascii_alphabetic(c: char) -> (r: bool)
    ensures
        r == is_ascii_letter(c),
{
    ('a' <= c && c <= 'z') || ('A' <= c && c <= 'Z')
}

pub fn to_ascii_lower(c: char) -> (r: char)
    ensures
        r == lower_ascii(c),
{
    if 'A' <= c && c <= 'Z' {
        let u: u8 = c as u8;
        let l: u8 = u + 32;
        l as char
    } else {
        c
    }
}

} // verus!

verus! {

/// The whitespace-separated words of `s`, in order: what
/// `str::split_whitespace` yields (maximal runs of non-whitespace).
pub open spec fn words(s: Seq<char>) -> Seq<Seq<char>>
    decreases s.len(),
{
    if s.len() == 0 {
        seq![]
    } else {
        let w = words(s.drop_last());
        let c = s.last();
        if is_ws(c) {
            w
        } else if s.len() >= 2 && !is_ws(s[s.len() - 2]) {
            w.update(w.len() - 1, w.last().push(c))
        } else {
            w.push(seq![c])
        }
    }
}

/// Words joined by single spaces.
pub open spec fn join_space(ws: Seq<Seq<char>>) -> Seq<char>
    decreases ws.len(),
{
    if ws.len() == 0 {
        seq![]
    } else if ws.len() == 1 {
        ws[0]
    } else {
        join_space(ws.drop_last()) + seq![' '] + ws.last()
    }
}

/// `s` with every run of whitespace reduced to one space and no leading or
/// trailing whitespace.
pub open spec fn collapse(s: Seq<char>) -> Seq<char> {
    join_space(words(s))
}

/// `s` without leading whitespace.
pub open spec fn trim_start(s: Seq<char>) -> Seq<char>
    decreases s.len(),
{
    if s.len() > 0 && is_ws(s[0]) {
        trim_start(s.drop_first())
    } else {
        s
    }
}

/// `s` without trailing whitespace.
pub open spec fn trim_end(s: Seq<char>) -> Seq<char>
    decreases s.len(),
{
    if s.len() > 0 && is_ws(s.last()) {
        trim_end(s.drop_last())
    } else {
        s
    }
}

/// `s` without leading and trailing whitespace (`str::trim`).
pub open spec fn trim(s: Seq<char>) -> Seq<char> {
    trim_end(trim_start(s))
}

/// A string ending in a non-whitespace character has at least one word.
pub proof fn lemma_words_nonempty(s: Seq<char>)
    requires
        s.len() > 0,
        !is_ws(s.last()),
    ensures
        words(s).len() > 0,
    decreases s.len(),
{
    if s.len() >= 2 && !is_ws(s[s.len() - 2]) {
        lemma_words_nonempty(s.drop_last());
    }
}

/// Every word is non-empty and free of whitespace.
pub proof fn lemma_words_shape(s: Seq<char>)
    ensures
        forall|k: int| 0 <= k < words(s).len() ==> #[trigger] words(s)[k].len() > 0,
        forall|k: int, j: int|
            0 <= k < words(s).len() && 0 <= j < words(s)[k].len() ==> !is_ws(
                #[trigger] words(s)[k][j],
            ),
    decreases s.len(),
{
    if s.len() > 0 {
        lemma_words_shape(s.drop_last());
        if !is_ws(s.last()) && s.len() >= 2 && !is_ws(s[s.len() - 2]) {
            lemma_words_nonempty(s.drop_last());
        }
    }
}

proof fn lemma_join_extend_last(ws: Seq<Seq<char>>, c: char)
    requires
        ws.len() > 0,
    ensures
        join_space(ws.update(ws.len() - 1, ws.last().push(c))) == join_space(ws).push(c),
{
    let u = ws.update(ws.len() - 1, ws.last().push(c));
    if ws.len() > 1 {
        assert(u.drop_last() =~= ws.drop_last());
        assert(join_space(u) =~= join_space(ws).push(c));
    } else {
        assert(join_space(u) =~= join_space(ws).push(c));
    }
}

/// `text` with whitespace runs collapsed to single spaces and trimmed: the
/// words of `text` joined by one space.
pub fn collapse_whitespace(text: &[char]) -> (r: Vec<char>)
    ensures
        r@ == collapse(text@),
{
    let mut out: Vec<char> = Vec::new();
    let mut started = false;
    let mut prev_ws = true;
    for i in 0..text.len()
        invariant
            out@ == collapse(text@.take(i as int)),
            started == (words(text@.take(i as int)).len() > 0),
            prev_ws == (i == 0 || is_ws(text@[i - 1])),
    {
        let c = text[i];
        let ghost pre = text@.take(i as int);
        let ghost cur = text@.take(i + 1);
        assert(cur.drop_last() =~= pre);
        assert(cur.last() == c);
        if is_whitespace(c) {
            prev_ws = true;
        } else {
            if prev_ws {
                if started {
                    out.push(' ');
                }
                out.push(c);
                proof {
                    let w = words(pre);
                    if w.len() > 0 {
                        assert(w.push(seq![c]).drop_last() =~= w);
                    }
                    assert(out@ =~= join_space(w.push(seq![c])));
                }
            } else {
                proof {
                    lemma_words_nonempty(pre);
                    lemma_join_extend_last(words(pre), c);
                }
                out.push(c);
            }
            started = true;
            prev_ws = false;
        }
    }
    assert(text@.take(text.len() as int) =~= text@);
    out
}

/// `text` without leading and trailing whitespace.
pub fn trim_chars(text: &[char]) -> (r: Vec<char>)
    ensures
        r@ == trim(text@),
{
    let n = text.len();
    let mut a: usize = 0;
    assert(text@.skip(0) =~= text@);
    while a < n && is_whitespace(text[a])
        invariant
            a <= n,
            n == text@.len(),
            trim_start(text@) == trim_start(text@.skip(a as int)),
        decreases n - a,
    {
        assert(text@.skip(a + 1) =~= text@.skip(a as int).drop_first());
        a = a + 1;
    }
    let ghost t = text@.skip(a as int);
    assert(trim_start(t) == t);
    let mut b: usize = n;
    assert(text@.subrange(a as int, n as int) =~= t);
    while b > a && is_whitespace(text[b - 1])
        invariant
            a <= b <= n,
            n == text@.len(),
            t == text@.skip(a as int),
            trim_end(t) == trim_end(text@.subrange(a as int, b as int)),
        decreases b,
    {
        assert(text@.subrange(a as int, b - 1) =~= text@.subrange(a as int, b as int).drop_last());
        b = b - 1;
    }
    let mut out: Vec<char> = Vec::new();
    let mut k = a;
    while k < b
        invariant
            a <= k <= b <= n,
            n == text@.len(),
            out@ == text@.subrange(a as int, k as int),
        decreases b - k,
    {
        out.push(text[k]);
        assert(out@ =~= text@.subrange(a as int, k + 1));
        k = k + 1;
    }
    out
}

} // verus!

verus! {

/// Filtering a sequence extended by one element.
pub proof fn lemma_filter_push<A>(s: Seq<A>, x: A, p: spec_fn(A) -> bool)
    ensures
        s.push(x).filter(p) == if p(x) {
            s.filter(p).push(x)
        } else {
            s.filter(p)
        },
{
    reveal_with_fuel(Seq::filter, 2);
    assert(s.push(x).drop_last() =~= s);
}

} // verus!

verus! {

pub open spec fn seq_views(v: Seq<Vec<char>>) -> Seq<Seq<char>> {
    v.map_values(|x: Vec<char>| x@)
}

/// The whitespace-separated words of `text` (`str::split_whitespace`).
pub fn split_words(text: &[char]) -> (r: Vec<Vec<char>>)
    ensures
        seq_views(r@) == words(text@),
{
    let mut out: Vec<Vec<char>> = Vec::new();
    let mut cur: Vec<char> = Vec::new();
    let mut in_word = false;
    for i in 0..text.len()
        invariant
            in_word == (i > 0 && !is_ws(text@[i - 1])),
            !in_word ==> seq_views(out@) == words(text@.take(i as int)),
            in_word ==> seq_views(out@).push(cur@) == words(text@.take(i as int)),
    {
        let c = text[i];
        let ghost pre = text@.take(i as int);
        assert(text@.take(i + 1).drop_last() =~= pre);
        if is_whitespace(c) {
            if in_word {
                let w = cur;
                cur = Vec::new();
                let ghost o = out@;
                out.push(w);
                assert(seq_views(out@) =~= seq_views(o).push(w@));
            }
            in_word = false;
        } else {
            if in_word {
                proof {
                    let wv = seq_views(out@).push(cur@);
                    assert(wv.update(wv.len() - 1, wv.last().push(c)) =~= seq_views(out@).push(
                        cur@.push(c),
                    ));
                }
                cur.push(c);
            } else {
                cur = Vec::new();
                cur.push(c);
                assert(cur@ =~= seq![c]);
            }
            in_word = true;
        }
    }
    assert(text@.take(text.len() as int) =~= text@);
    if in_word {
        let ghost o = out@;
        out.push(cur);
        assert(seq_views(out@) =~= seq_views(o).push(cur@));
    }
    out
}

} // verus!

verus! {

proof fn lemma_trim_start_shape(s: Seq<char>)
    ensures
        trim_start(s).len() > 0 ==> !is_ws(trim_start(s)[0]),
        trim_start(s).len() <= s.len(),
        trim_start(s) == s.skip(s.len() - trim_start(s).len()),
    decreases s.len(),
{
    if s.len() > 0 && is_ws(s[0]) {
        lemma_trim_start_shape(s.drop_first());
        assert(s.drop_first().skip(s.drop_first().len() - trim_start(s).len()) =~= s.skip(
            s.len() - trim_start(s).len(),
        ));
    } else {
        assert(s.skip(0) =~= s);
    }
}

proof fn lemma_trim_end_keeps_start(s: Seq<char>)
    ensures
        trim_end(s).len() <= s.len(),
        trim_end(s) == s.take(trim_end(s).len() as int),
        trim_end(s).len() > 0 ==> !is_ws(trim_end(s).last()),
    decreases s.len(),
{
    if s.len() > 0 && is_ws(s.last()) {
        lemma_trim_end_keeps_start(s.drop_last());
        assert(s.drop_last().take(trim_end(s).len() as int) =~= s.take(trim_end(s).len() as int));
    } else {
        assert(s.take(s.len() as int) =~= s);
    }
}

/// Trimming twice is trimming once.
pub proof fn lemma_trim_idempotent(s: Seq<char>)
    ensures
        trim(trim(s)) == trim(s),
{
    let a = trim_start(s);
    lemma_trim_start_shape(s);
    lemma_trim_end_keeps_start(a);
    let t = trim_end(a);
    // t starts with a non-whitespace char (or is empty) and ends with one.
    if t.len() > 0 {
        assert(t[0] == a[0]);
        assert(trim_start(t) == t);
        assert(trim_end(t) == t);
    } else {
        assert(trim_start(t) == t);
        assert(trim_end(t) == t);
    }
}

} // verus!
