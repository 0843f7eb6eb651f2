//! Recognizing prices in free text: splitting a text into number tokens,
//! telling a confident price (with a separator) from a bare number, and
//! reading a token as a decimal amount.

use vstd::prelude::*;

use crate::text::{chars_of, is_ascii_digit, is_digit, lemma_filter_push, string_of};
use crate::unicode::{alphanumeric, is_alphanumeric};

verus! {

/// A separator that may sit between two digits of one number.
pub open spec fn is_inner_sep(c: char) -> bool {
    c == '.' || c == ',' || c == '\''
}

/// A space that may separate thousands groups.
pub open spec fn is_group_space(c: char) -> bool {
    c == ' ' || c == '\u{a0}'
}

/// A character that marks a token as a formatted (confident) price.
pub open spec fn is_separator(c: char) -> bool {
    is_group_space(c) || is_inner_sep(c)
}

/// The number of consecutive ASCII digits of `s` starting at `k`.
pub open spec fn digit_run(s: Seq<char>, k: int) -> nat
    decreases s.len() - k,
{
    if 0 <= k < s.len() && is_digit(s[k]) {
        1 + digit_run(s, k + 1)
    } else {
        0
    }
}

/// Whether the space at `j` is followed by exactly three digits.
pub open spec fn thousands_group_at(s: Seq<char>, j: int) -> bool {
    digit_run(s, j + 1) == 3
}

/// Where a number token that continues at `j` ends: digits, a separator
/// between two digits, or a space before a group of exactly three digits
/// extend it.
pub open spec fn token_end(s: Seq<char>, j: int) -> int
    decreases s.len() - j,
{
    if j < 0 || j >= s.len() {
        j
    } else if is_digit(s[j]) {
        token_end(s, j + 1)
    } else if is_inner_sep(s[j]) && j + 1 < s.len() && is_digit(s[j + 1]) {
        token_end(s, j + 2)
    } else if is_group_space(s[j]) && thousands_group_at(s, j) {
        token_end(s, j + 1)
    } else {
        j
    }
}

/// The number tokens of `s` from position `i` on, left to right: each starts
/// at a digit and runs to `token_end`.
pub open spec fn tokens_from(s: Seq<char>, i: int) -> Seq<Seq<char>>
    decreases s.len() - i, 0int,
{
    if i < 0 || i >= s.len() {
        seq![]
    } else if !is_digit(s[i]) {
        tokens_from(s, i + 1)
    } else {
        proof {
            lemma_token_end_bounds(s, i + 1);
        }
        let j = token_end(s, i + 1);
        seq![s.subrange(i, j)] + tokens_from(s, j)
    }
}

/// Every number token of `s`.
pub open spec fn tokens(s: Seq<char>) -> Seq<Seq<char>> {
    tokens_from(s, 0)
}

pub proof fn lemma_token_end_bounds(s: Seq<char>, j: int)
    requires
        0 <= j,
    ensures
        j <= token_end(s, j),
        j <= s.len() ==> token_end(s, j) <= s.len(),
    decreases s.len() - j,
{
    if j < s.len() {
        if is_digit(s[j]) {
            lemma_token_end_bounds(s, j + 1);
        } else if is_inner_sep(s[j]) && j + 1 < s.len() && is_digit(s[j + 1]) {
            lemma_token_end_bounds(s, j + 2);
        } else if is_group_space(s[j]) && thousands_group_at(s, j) {
            lemma_token_end_bounds(s, j + 1);
        }
    }
}

/// Whether every character of `s` is an ASCII digit.
pub open spec fn all_digits(s: Seq<char>) -> bool {
    forall|k: int| 0 <= k < s.len() ==> is_digit(#[trigger] s[k])
}

pub(crate) proof fn lemma_digit_run_exact(s: Seq<char>, k: int, e: int)
    requires
        0 <= k <= e <= s.len(),
        forall|m: int| k <= m < e ==> is_digit(#[trigger] s[m]),
        e == s.len() || !is_digit(s[e]),
    ensures
        digit_run(s, k) == e - k,
    decreases e - k,
{
    if k < e {
        lemma_digit_run_exact(s, k + 1, e);
    }
}

proof fn lemma_token_end_over_digits(s: Seq<char>, k: int, e: int)
    requires
        0 <= k <= e <= s.len(),
        forall|m: int| k <= m < e ==> is_digit(#[trigger] s[m]),
    ensures
        token_end(s, k) == token_end(s, e),
    decreases e - k,
{
    if k < e {
        lemma_token_end_over_digits(s, k + 1, e);
    }
}

/// A space or no-break space followed by exactly three digits continues a
/// number: digits, such a space, three digits, and optionally a `,` and
/// more digits, read as one token (`1 234`, `1 234,56`); a space before a
/// digit group of any other length ends the token (`1 23` is two tokens).
pub proof fn lemma_thousands_groups(d: Seq<char>, sp: char, g: Seq<char>, f: Seq<char>)
    requires
        d.len() > 0,
        all_digits(d),
        sp == ' ' || sp == '\u{a0}',
        g.len() > 0,
        all_digits(g),
        all_digits(f),
    ensures
        g.len() == 3 ==> tokens(d + seq![sp] + g) == seq![d + seq![sp] + g],
        g.len() == 3 && f.len() > 0 ==> tokens(d + seq![sp] + g + seq![','] + f) == seq![
            d + seq![sp] + g + seq![','] + f,
        ],
        g.len() != 3 ==> tokens(d + seq![sp] + g) == seq![d, g],
{
    let n = d.len() as int;
    let a = d + seq![sp] + g;
    assert forall|m: int| 0 <= m < n implies #[trigger] a[m] == d[m] by {}
    assert forall|m: int| n + 1 <= m < a.len() implies #[trigger] a[m] == g[m - n - 1] by {}
    assert forall|m: int| 0 <= m < n implies is_digit(#[trigger] a[m]) by {
        assert(a[m] == d[m]);
    }
    assert forall|m: int| n + 1 <= m < a.len() implies is_digit(#[trigger] a[m]) by {
        assert(a[m] == g[m - n - 1]);
    }
    lemma_digit_run_exact(a, n + 1, a.len() as int);
    lemma_token_end_over_digits(a, 1, n);
    lemma_token_end_over_digits(a, n + 1, a.len() as int);
    lemma_token_end_bounds(a, 1);
    if g.len() == 3 {
        assert(token_end(a, n) == token_end(a, n + 1));
        assert(tokens_from(a, a.len() as int) == Seq::<Seq<char>>::empty());
        assert(a.subrange(0, a.len() as int) =~= a);
        assert(tokens(a) =~= seq![a]);
        if f.len() > 0 {
            let b = a + seq![','] + f;
            let m0 = a.len() as int;
            assert forall|m: int| 0 <= m < m0 implies #[trigger] b[m] == a[m] by {}
            assert forall|m: int| m0 + 1 <= m < b.len() implies #[trigger] b[m] == f[m - m0 - 1] by {}
            assert forall|m: int| 0 <= m < n implies is_digit(#[trigger] b[m]) by {
                assert(b[m] == a[m]);
            }
            assert forall|m: int| n + 1 <= m < m0 implies is_digit(#[trigger] b[m]) by {
                assert(b[m] == a[m]);
            }
            assert forall|m: int| m0 + 1 <= m < b.len() implies is_digit(#[trigger] b[m]) by {
                assert(b[m] == f[m - m0 - 1]);
            }
            assert(b[n] == sp);
            assert(b[m0] == ',');
            assert(is_digit(b[m0 + 1]));
            lemma_digit_run_exact(b, n + 1, m0);
            lemma_token_end_over_digits(b, 1, n);
            lemma_token_end_over_digits(b, n + 1, m0);
            lemma_token_end_over_digits(b, m0 + 1, b.len() as int);
            assert(token_end(b, m0) == token_end(b, m0 + 2));
            lemma_token_end_over_digits(b, m0 + 2, b.len() as int);
            assert(token_end(b, 1) == b.len());
            assert(tokens_from(b, b.len() as int) == Seq::<Seq<char>>::empty());
            assert(b.subrange(0, b.len() as int) =~= b);
            assert(tokens(b) =~= seq![b]);
        }
    } else {
        assert(token_end(a, n) == n);
        assert(a.subrange(0, n) =~= d);
        assert(tokens_from(a, n) == tokens_from(a, n + 1));
        lemma_token_end_over_digits(a, n + 2, a.len() as int);
        assert(token_end(a, n + 2) == a.len());
        assert(a.subrange(n + 1, a.len() as int) =~= g);
        assert(tokens_from(a, a.len() as int) == Seq::<Seq<char>>::empty());
        assert(tokens_from(a, n + 1) =~= seq![g]);
        assert(tokens(a) =~= seq![d, g]);
    }
}

/// A `.`, `,` or `'` between two digits continues a number (`1.234`,
/// `12,50`, `1'234`); any other character that is neither a digit nor a
/// space or no-break space ends it (`12-50` is two tokens).
pub proof fn lemma_inner_separators(a: Seq<char>, c: char, b: Seq<char>)
    requires
        a.len() > 0,
        all_digits(a),
        b.len() > 0,
        all_digits(b),
    ensures
        c == '.' || c == ',' || c == '\'' ==> tokens(a + seq![c] + b) == seq![a + seq![c] + b],
        !(c == '.' || c == ',' || c == '\'' || c == ' ' || c == '\u{a0}' || is_digit(c)) ==> tokens(
            a + seq![c] + b,
        ) == seq![a, b],
{
    let n = a.len() as int;
    let s = a + seq![c] + b;
    assert forall|m: int| 0 <= m < n implies #[trigger] s[m] == a[m] by {}
    assert forall|m: int| n + 1 <= m < s.len() implies #[trigger] s[m] == b[m - n - 1] by {}
    assert forall|m: int| 0 <= m < n implies is_digit(#[trigger] s[m]) by {
        assert(s[m] == a[m]);
    }
    assert forall|m: int| n + 1 <= m < s.len() implies is_digit(#[trigger] s[m]) by {
        assert(s[m] == b[m - n - 1]);
    }
    assert(s[n] == c);
    assert(is_digit(s[n + 1]));
    lemma_token_end_over_digits(s, 1, n);
    lemma_token_end_over_digits(s, n + 1, s.len() as int);
    assert(tokens_from(s, s.len() as int) == Seq::<Seq<char>>::empty());
    if c == '.' || c == ',' || c == '\'' {
        assert(token_end(s, n) == token_end(s, n + 2));
        lemma_token_end_over_digits(s, n + 2, s.len() as int);
        assert(s.subrange(0, s.len() as int) =~= s);
        assert(tokens(s) =~= seq![s]);
    } else if !(c == ' ' || c == '\u{a0}' || is_digit(c)) {
        assert(token_end(s, n) == n);
        assert(s.subrange(0, n) =~= a);
        assert(tokens_from(s, n) == tokens_from(s, n + 1));
        lemma_token_end_over_digits(s, n + 2, s.len() as int);
        assert(s.subrange(n + 1, s.len() as int) =~= b);
        assert(tokens_from(s, n + 1) =~= seq![b]);
        assert(tokens(s) =~= seq![a, b]);
    }
}

/// The number of consecutive digits of `s` from `k`.
fn digit_run_len(s: &[char], k: usize) -> (r: usize)
    requires
        k <= s@.len(),
    ensures
        r == digit_run(s@, k as int),
        k + r <= s@.len(),
{
    let mut e = k;
    while e < s.len() && is_ascii_digit(s[e])
        invariant
            k <= e <= s@.len(),
            digit_run(s@, k as int) == (e - k) + digit_run(s@, e as int),
        decreases s@.len() - e,
    {
        e = e + 1;
    }
    e - k
}

/// Whether the space at `j` is followed by exactly three digits (a
/// thousands group such as the `234` of `1 234`).
pub fn is_thousands_group(s: &[char], j: usize) -> (r: bool)
    requires
        j < s.len(),
    ensures
        r == thousands_group_at(s@, j as int),
{
    digit_run_len(s, j + 1) == 3
}

fn is_inner_separator(c: char) -> (r: bool)
    ensures
        r == is_inner_sep(c),
{
    c == '.' || c == ',' || c == '\''
}

fn is_space_separator(c: char) -> (r: bool)
    ensures
        r == is_group_space(c),
{
    c == ' ' || c == '\u{a0}'
}

/// The end of the token that continues at `j`.
fn scan_token_end(s: &[char], start: usize) -> (r: usize)
    requires
        start <= s@.len(),
    ensures
        r == token_end(s@, start as int),
        start <= r <= s@.len(),
{
    let mut j = start;
    proof {
        lemma_token_end_bounds(s@, j as int);
    }
    let ghost target = token_end(s@, j as int);
    while j < s.len()
        invariant
            start <= j <= s@.len(),
            target == token_end(s@, j as int),
            target == token_end(s@, start as int),
        decreases s@.len() - j,
    {
        let c = s[j];
        if is_ascii_digit(c) {
            j = j + 1;
        } else if is_inner_separator(c) && j + 1 < s.len() && is_ascii_digit(s[j + 1]) {
            j = j + 2;
        } else if is_space_separator(c) && is_thousands_group(s, j) {
            j = j + 1;
        } else {
            return j;
        }
    }
    j
}

pub open spec fn views(v: Seq<Vec<char>>) -> Seq<Seq<char>> {
    v.map_values(|x: Vec<char>| x@)
}

/// The number tokens of `s`, as character vectors.
pub fn number_tokens_chars(s: &[char]) -> (r: Vec<Vec<char>>)
    ensures
        views(r@) == tokens(s@),
{
    let mut out: Vec<Vec<char>> = Vec::new();
    let mut i: usize = 0;
    while i < s.len()
        invariant
            i <= s@.len(),
            tokens(s@) == views(out@) + tokens_from(s@, i as int),
        decreases s@.len() - i,
    {
        if !is_ascii_digit(s[i]) {
            i = i + 1;
        } else {
            let j = scan_token_end(s, i + 1);
            let mut tok: Vec<char> = Vec::new();
            let mut k = i;
            while k < j
                invariant
                    i <= k <= j <= s@.len(),
                    tok@ == s@.subrange(i as int, k as int),
                decreases j - k,
            {
                tok.push(s[k]);
                assert(tok@ =~= s@.subrange(i as int, k + 1));
                k = k + 1;
            }
            let ghost old_out = out@;
            out.push(tok);
            assert(views(out@) =~= views(old_out) + seq![s@.subrange(i as int, j as int)]);
            assert(views(out@) + tokens_from(s@, j as int) =~= views(old_out) + tokens_from(
                s@,
                i as int,
            ));
            i = j;
        }
    }
    assert(views(out@) + tokens_from(s@, i as int) =~= views(out@));
    out
}

/// The number tokens of `text`, left to right. A token starts at an ASCII
/// digit and continues through digits, a `.`, `,` or `'` that sits between
/// two digits, and a space (or no-break space) that is followed by exactly
/// three digits.
pub fn number_tokens(text: &str) -> (r: Vec<String>)
    ensures
        r@.map_values(|t: String| t@) == tokens(text@),
{
    let cs = chars_of(text);
    let toks = number_tokens_chars(&cs);
    let mut out: Vec<String> = Vec::new();
    for i in 0..toks.len()
        invariant
            out@.len() == i,
            forall|k: int| 0 <= k < i ==> #[trigger] out@[k]@ == views(toks@)[k],
    {
        let s = string_of(toks[i].as_slice());
        assert(s@ == views(toks@)[i as int]);
        out.push(s);
    }
    assert(out@.map_values(|t: String| t@) =~= views(toks@));
    out
}


/// Whether the token carries a separator (space, no-break space, `.`, `,`
/// or `'`), which makes it a confident price.
pub open spec fn has_sep(t: Seq<char>) -> bool {
    exists|k: int| 0 <= k < t.len() && is_separator(#[trigger] t[k])
}

/// Index of the last occurrence of `c` in `t`, or -1.
pub open spec fn last_index(t: Seq<char>, c: char) -> int
    decreases t.len(),
{
    if t.len() == 0 {
        -1
    } else if t.last() == c {
        t.len() - 1
    } else {
        last_index(t.drop_last(), c)
    }
}

/// The ASCII digits of `t`, in order.
pub open spec fn digits_of(t: Seq<char>) -> Seq<char> {
    t.filter(|c: char| is_digit(c))
}

/// Where the decimal separator of a token is, or -1 when it has none. With
/// both a `.` and a `,`, the later one is decimal; a lone `.` or `,` is
/// decimal only when at most two digits follow it (otherwise it groups
/// thousands).
pub open spec fn decimal_sep(t: Seq<char>) -> int {
    let d = last_index(t, '.');
    let c = last_index(t, ',');
    if d >= 0 && c >= 0 {
        if d > c {
            d
        } else {
            c
        }
    } else if d >= 0 {
        if digits_of(t.skip(d + 1)).len() <= 2 {
            d
        } else {
            -1
        }
    } else if c >= 0 {
        if digits_of(t.skip(c + 1)).len() <= 2 {
            c
        } else {
            -1
        }
    } else {
        -1
    }
}

/// The amount a token stands for, as plain decimal text (`1234.56`,
/// `8190`): the integer digits, then `.` and the fraction digits when the
/// token has a decimal separator. `None` when no digit precedes the
/// separator.
pub open spec fn price_value(t: Seq<char>) -> Option<Seq<char>> {
    let sep = decimal_sep(t);
    let int_digits = if sep >= 0 {
        digits_of(t.take(sep))
    } else {
        digits_of(t)
    };
    if int_digits.len() == 0 {
        None
    } else if sep >= 0 {
        Some(int_digits + seq!['.'] + digits_of(t.skip(sep + 1)))
    } else {
        Some(int_digits)
    }
}

proof fn lemma_digits_of_push(t: Seq<char>, c: char)
    ensures
        digits_of(t.push(c)) == if is_digit(c) {
            digits_of(t).push(c)
        } else {
            digits_of(t)
        },
{
    reveal_with_fuel(Seq::filter, 2);
    assert(t.push(c).drop_last() =~= t);
}

/// The ASCII digits of `t[from..to]`.
fn digits_in(t: &[char], from: usize, to: usize) -> (r: Vec<char>)
    requires
        from <= to <= t@.len(),
    ensures
        r@ == digits_of(t@.subrange(from as int, to as int)),
{
    let mut out: Vec<char> = Vec::new();
    let mut k = from;
    assert(t@.subrange(from as int, from as int) =~= Seq::<char>::empty());
    while k < to
        invariant
            from <= k <= to <= t@.len(),
            out@ == digits_of(t@.subrange(from as int, k as int)),
        decreases to - k,
    {
        proof {
            assert(t@.subrange(from as int, k + 1) =~= t@.subrange(from as int, k as int).push(
                t@[k as int],
            ));
            lemma_digits_of_push(t@.subrange(from as int, k as int), t@[k as int]);
        }
        if is_ascii_digit(t[k]) {
            out.push(t[k]);
        }
        k = k + 1;
    }
    out
}

/// The last index of `c` in `t`, if any.
fn rfind(t: &[char], c: char) -> (r: Option<usize>)
    ensures
        match r {
            Some(i) => i as int == last_index(t@, c) && i < t.len(),
            None => last_index(t@, c) == -1,
        },
{
    let mut k = t.len();
    assert(t@.take(k as int) =~= t@);
    while k > 0
        invariant
            k <= t@.len(),
            last_index(t@, c) == last_index(t@.take(k as int), c),
        decreases k,
    {
        assert(t@.take(k as int).drop_last() =~= t@.take(k - 1));
        if t[k - 1] == c {
            return Some(k - 1);
        }
        k = k - 1;
    }
    None
}

/// Where the decimal separator of `t` is (see [`decimal_sep`]).
fn split_decimal(t: &[char]) -> (r: Option<usize>)
    ensures
        match r {
            Some(i) => i as int == decimal_sep(t@) && i < t.len(),
            None => decimal_sep(t@) == -1,
        },
{
    assert(t@.take(t@.len() as int) =~= t@);
    let dot = rfind(t, '.');
    let comma = rfind(t, ',');
    match (dot, comma) {
        (Some(d), Some(c)) => {
            if d > c {
                Some(d)
            } else {
                Some(c)
            }
        },
        (Some(d), None) => {
            assert(t@.subrange(d + 1, t@.len() as int) =~= t@.skip(d + 1));
            if digits_after(t, d) <= 2 {
                Some(d)
            } else {
                None
            }
        },
        (None, Some(c)) => {
            assert(t@.subrange(c + 1, t@.len() as int) =~= t@.skip(c + 1));
            if digits_after(t, c) <= 2 {
                Some(c)
            } else {
                None
            }
        },
        (None, None) => None,
    }
}

/// How many ASCII digits follow position `from`.
fn digits_after(t: &[char], from: usize) -> (r: usize)
    requires
        from < t.len(),
    ensures
        r == digits_of(t@.subrange(from + 1, t@.len() as int)).len(),
{
    digits_in(t, from + 1, t.len()).len()
}

/// The amount token `t` stands for (see [`price_value`]).
pub fn parse_price_chars(t: &[char]) -> (r: Option<Vec<char>>)
    ensures
        match r {
            Some(v) => price_value(t@) == Some(v@),
            None => price_value(t@).is_none(),
        },
{
    let sep = split_decimal(t);
    match sep {
        Some(i) => {
            assert(t@.subrange(0, i as int) =~= t@.take(i as int));
            assert(t@.subrange(i + 1, t@.len() as int) =~= t@.skip(i + 1));
            let mut num = digits_in(t, 0, i);
            if num.len() == 0 {
                return None;
            }
            let frac = digits_in(t, i + 1, t.len());
            num.push('.');
            let ghost before = num@;
            let mut k: usize = 0;
            while k < frac.len()
                invariant
                    k <= frac@.len(),
                    num@ == before + frac@.take(k as int),
                decreases frac@.len() - k,
            {
                num.push(frac[k]);
                assert(num@ =~= before + frac@.take(k + 1));
                k = k + 1;
            }
            assert(frac@.take(frac@.len() as int) =~= frac@);
            Some(num)
        },
        None => {
            assert(t@.subrange(0, t@.len() as int) =~= t@);
            let num = digits_in(t, 0, t.len());
            if num.len() == 0 {
                None
            } else {
                Some(num)
            }
        },
    }
}

/// Reads a price token as a decimal amount: the digits before the decimal
/// separator, then `.` and the digits after it. `8.190` and `8,190` read as
/// `8190` (a lone separator followed by three digits groups thousands);
/// `1.234,56` reads as `1234.56`. `None` when no digit precedes the
/// separator.
pub fn parse_price(token: &str) -> (r: Option<String>)
    ensures
        match r {
            Some(v) => price_value(token@) == Some(v@),
            None => price_value(token@).is_none(),
        },
{
    let cs = chars_of(token);
    match parse_price_chars(&cs) {
        Some(v) => Some(string_of(&v)),
        None => None,
    }
}


/// A price found in a text: the amount as plain decimal text and the token
/// as it appeared.
pub struct Price {
    /// The amount as plain decimal text (`1234.56`, `8190`), which
    /// `str::parse::<f64>` reads.
    pub value: String,
    /// The price token verbatim.
    pub text: String,
}

/// A price as a pair of character sequences: (amount, token).
pub open spec fn price_view(p: Price) -> (Seq<char>, Seq<char>) {
    (p.value@, p.text@)
}

pub open spec fn prices_view(ps: Seq<Price>) -> Seq<(Seq<char>, Seq<char>)> {
    ps.map_values(|p: Price| price_view(p))
}

/// The confident prices among `toks`: every token with a separator that
/// reads as an amount, paired with that amount, in order.
pub open spec fn confident_prices(toks: Seq<Seq<char>>) -> Seq<(Seq<char>, Seq<char>)>
    decreases toks.len(),
{
    if toks.len() == 0 {
        seq![]
    } else {
        let rest = confident_prices(toks.drop_last());
        let t = toks.last();
        if has_sep(t) && price_value(t).is_some() {
            rest.push((price_value(t).unwrap(), t))
        } else {
            rest
        }
    }
}

/// A bare number: a token without separator of 2 to 7 digits.
pub open spec fn is_bare(t: Seq<char>) -> bool {
    !has_sep(t) && 2 <= t.len() <= 7
}

/// Where `tok` first occurs in `text` at or after `k`, or -1.
pub open spec fn first_occurrence_from(text: Seq<char>, tok: Seq<char>, k: int) -> int
    decreases text.len() + 1 - k,
{
    if k < 0 || k + tok.len() > text.len() {
        -1
    } else if text.subrange(k, k + tok.len()) == tok {
        k
    } else {
        first_occurrence_from(text, tok, k + 1)
    }
}

/// `text` with its first occurrence of `tok` removed (`str::replacen(tok,
/// "", 1)`).
pub open spec fn remove_first(text: Seq<char>, tok: Seq<char>) -> Seq<char> {
    let f = first_occurrence_from(text, tok, 0);
    if f >= 0 {
        text.take(f) + text.skip(f + tok.len())
    } else {
        text
    }
}

/// A character that counts as content besides a price: alphanumeric, `-`
/// or `%`.
pub open spec fn is_content(c: char) -> bool {
    alphanumeric(c) || c == '-' || c == '%'
}

/// Whether `text` holds content other than the first occurrence of `tok`.
pub open spec fn has_content_other_than(text: Seq<char>, tok: Seq<char>) -> bool {
    let rest = remove_first(text, tok);
    exists|k: int| 0 <= k < rest.len() && is_content(#[trigger] rest[k])
}

/// The prices a text holds: every confident price (with separator) when
/// there is one; otherwise the single bare number when the text holds
/// exactly one and nothing else that counts as content; otherwise none.
pub open spec fn classify(text: Seq<char>) -> Option<Seq<(Seq<char>, Seq<char>)>> {
    let toks = tokens(text);
    let confident = confident_prices(toks);
    let bare = toks.filter(|t: Seq<char>| is_bare(t));
    if confident.len() > 0 {
        Some(confident)
    } else if bare.len() == 1 && !has_content_other_than(text, bare[0]) {
        Some(seq![(bare[0], bare[0])])
    } else {
        None
    }
}

/// Whether the token carries a separator.
pub fn has_separator(t: &[char]) -> (r: bool)
    ensures
        r == has_sep(t@),
{
    for k in 0..t.len()
        invariant
            forall|m: int| 0 <= m < k ==> !is_separator(#[trigger] t@[m]),
    {
        let c = t[k];
        if c == ' ' || c == '\u{a0}' || c == '.' || c == ',' || c == '\'' {
            return true;
        }
    }
    false
}

/// Whether `text` holds a confident price (a number token with a
/// separator).
pub fn contains_confident_price(text: &[char]) -> (r: bool)
    ensures
        r == exists|k: int| 0 <= k < tokens(text@).len() && has_sep(#[trigger] tokens(text@)[k]),
{
    let toks = number_tokens_chars(text);
    for k in 0..toks.len()
        invariant
            views(toks@) == tokens(text@),
            forall|m: int| 0 <= m < k ==> !has_sep(#[trigger] tokens(text@)[m]),
    {
        assert(toks@[k as int]@ == tokens(text@)[k as int]);
        if has_separator(toks[k].as_slice()) {
            return true;
        }
    }
    false
}

/// Where `tok` first occurs in `text`, or `None`.
pub fn find_first(text: &[char], tok: &[char]) -> (r: Option<usize>)
    ensures
        match r {
            Some(i) => i as int == first_occurrence_from(text@, tok@, 0) && i + tok@.len()
                <= text@.len(),
            None => first_occurrence_from(text@, tok@, 0) == -1,
        },
{
    let n = tok.len();
    let tl = text.len();
    let mut k: usize = 0;
    while k <= tl && n <= tl - k
        invariant
            tl == text@.len(),
            first_occurrence_from(text@, tok@, 0) == first_occurrence_from(text@, tok@, k as int),
            n == tok@.len(),
            k <= text@.len() + 1,
        decreases text@.len() + 1 - k,
    {
        let mut m: usize = 0;
        while m < n && text[k + m] == tok[m]
            invariant
                m <= n,
                tl == text@.len(),
                k + n <= tl,
                n == tok@.len(),
                forall|q: int| 0 <= q < m ==> text@[k + q] == tok@[q],
            decreases n - m,
        {
            m = m + 1;
        }
        if m == n {
            assert(text@.subrange(k as int, k + n) =~= tok@);
            return Some(k);
        }
        assert(text@.subrange(k as int, k + n)[m as int] != tok@[m as int]);
        k = k + 1;
    }
    None
}

/// Whether `text` holds anything alphanumeric, or a `-` or `%`, once the
/// first occurrence of `token` is removed.
pub fn text_has_content_other_than(text: &[char], token: &[char]) -> (r: bool)
    ensures
        r == has_content_other_than(text@, token@),
{
    let mut rest: Vec<char> = Vec::new();
    let tl = text.len();
    let ol = token.len();
    match find_first(text, token) {
        Some(f) => {
            let mut i: usize = 0;
            while i < f
                invariant
                    i <= f,
                    f + token@.len() <= text@.len(),
                    rest@ == text@.take(i as int),
                decreases f - i,
            {
                rest.push(text[i]);
                assert(rest@ =~= text@.take(i + 1));
                i = i + 1;
            }
            let mut j: usize = f + ol;
            let ghost head = rest@;
            assert(text@.subrange(f + token@.len(), j as int) =~= Seq::<char>::empty());
            while j < text.len()
                invariant
                    f + token@.len() <= j <= text@.len(),
                    head == text@.take(f as int),
                    rest@ == head + text@.subrange(f + token@.len(), j as int),
                decreases text@.len() - j,
            {
                rest.push(text[j]);
                assert(rest@ =~= head + text@.subrange(f + token@.len(), j + 1));
                j = j + 1;
            }
            assert(text@.subrange(f + token@.len(), text@.len() as int) =~= text@.skip(
                f + token@.len(),
            ));
        },
        None => {
            let mut i: usize = 0;
            while i < text.len()
                invariant
                    i <= text@.len(),
                    rest@ == text@.take(i as int),
                decreases text@.len() - i,
            {
                rest.push(text[i]);
                assert(rest@ =~= text@.take(i + 1));
                i = i + 1;
            }
            assert(text@.take(text@.len() as int) =~= text@);
        },
    }
    assert(rest@ == remove_first(text@, token@));
    for k in 0..rest.len()
        invariant
            rest@ == remove_first(text@, token@),
            forall|m: int| 0 <= m < k ==> !is_content(#[trigger] rest@[m]),
    {
        let c = rest[k];
        if is_alphanumeric(c) || c == '-' || c == '%' {
            return true;
        }
    }
    false
}


/// The prices `text` holds (see [`classify`]).
pub fn classify_chars(text: &[char]) -> (r: Option<Vec<Price>>)
    ensures
        match r {
            Some(v) => classify(text@) == Some(prices_view(v@)),
            None => classify(text@).is_none(),
        },
{
    let toks = number_tokens_chars(text);
    let ghost tv = views(toks@);
    let mut confident: Vec<Price> = Vec::new();
    let mut bare_count: usize = 0;
    let mut first_bare: usize = 0;
    for k in 0..toks.len()
        invariant
            tv == views(toks@),
            tv == tokens(text@),
            prices_view(confident@) == confident_prices(tv.take(k as int)),
            bare_count as int == tv.take(k as int).filter(|t: Seq<char>| is_bare(t)).len(),
            bare_count <= k,
            bare_count > 0 ==> first_bare < toks@.len() && tv.take(k as int).filter(
                |t: Seq<char>| is_bare(t),
            )[0] == tv[first_bare as int],
    {
        let t = toks[k].as_slice();
        let ghost pre = tv.take(k as int);
        assert(tv.take(k + 1) =~= pre.push(tv[k as int]));
        assert(tv.take(k + 1).drop_last() =~= pre);
        assert(t@ == tv[k as int]);
        proof {
            lemma_filter_push(pre, tv[k as int], |t: Seq<char>| is_bare(t));
        }
        let sep = has_separator(t);
        if sep {
            match parse_price_chars(t) {
                Some(v) => {
                    let p = Price { value: string_of(&v), text: string_of(t) };
                    let ghost old_c = confident@;
                    confident.push(p);
                    assert(prices_view(confident@) =~= prices_view(old_c).push(
                        (price_value(t@).unwrap(), t@),
                    ));
                },
                None => {},
            }
        } else if 2 <= t.len() && t.len() <= 7 {
            if bare_count == 0 {
                first_bare = k;
            }
            bare_count = bare_count + 1;
        }
    }
    assert(tv.take(toks.len() as int) =~= tv);
    if confident.len() > 0 {
        return Some(confident);
    }
    if bare_count == 1 {
        let t = toks[first_bare].as_slice();
        if !text_has_content_other_than(text, t) {
            let p = Price { value: string_of(t), text: string_of(t) };
            let mut out: Vec<Price> = Vec::new();
            out.push(p);
            assert(prices_view(out@) =~= seq![(t@, t@)]);
            return Some(out);
        }
    }
    None
}

/// The prices `text` holds: every confident price (a number token with a
/// separator) when there is one; otherwise the one bare number of 2 to 7
/// digits when the text holds exactly one such number and nothing else
/// alphanumeric (nor `-` or `%`); otherwise `None`.
pub fn classify_div(text: &str) -> (r: Option<Vec<Price>>)
    ensures
        match r {
            Some(v) => classify(text@) == Some(prices_view(v@)),
            None => classify(text@).is_none(),
        },
{
    let cs = chars_of(text);
    classify_chars(&cs)
}

} // verus!
