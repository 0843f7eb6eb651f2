//! Product sizes in names and URLs (`100 ml`, `50ML`, `132 g`), the
//! trailing-number rule, and links that do not lead to a product page.

use vstd::prelude::*;

use crate::prices::digit_run;
use crate::text::{
    chars_of, collapse, collapse_whitespace, is_ascii_alphabetic, is_ascii_digit,
    is_ascii_letter, is_digit, is_whitespace, is_ws, lower_ascii, string_of, to_ascii_lower,
    trim, trim_chars, words, split_words, seq_views, lower_ascii_seq,
};

verus! {

/// The number of consecutive ASCII letters of `s` starting at `k`.
pub open spec fn letter_run(s: Seq<char>, k: int) -> nat
    decreases s.len() - k,
{
    if 0 <= k < s.len() && is_ascii_letter(s[k]) {
        1 + letter_run(s, k + 1)
    } else {
        0
    }
}

/// A recognized size unit: `ml`, `g`, `gr`, `l` or `lt`, in any ASCII case.
pub open spec fn is_unit(u: Seq<char>) -> bool {
    let l = u.map_values(|c: char| lower_ascii(c));
    l == seq!['m', 'l'] || l == seq!['g'] || l == seq!['g', 'r'] || l == seq!['l'] || l
        == seq!['l', 't']
}

/// The first `N unit` of `s` at or after `i`: a run of digits, at most one
/// whitespace character, then a run of ASCII letters that is a size unit.
/// The match is returned with its whitespace collapsed.
pub open spec fn size_from(s: Seq<char>, i: int) -> Option<Seq<char>>
    decreases s.len() - i,
{
    if i < 0 || i >= s.len() {
        None
    } else if !is_digit(s[i]) {
        size_from(s, i + 1)
    } else {
        let ne = i + digit_run(s, i);
        let us = if ne < s.len() && is_ws(s[ne]) {
            ne + 1
        } else {
            ne
        };
        let ue = us + letter_run(s, us);
        proof {
            lemma_digit_run_bounded(s, i);
            lemma_letter_run_bounded(s, us);
        }
        if us < ue && is_unit(s.subrange(us, ue)) {
            Some(collapse(s.subrange(i, ue)))
        } else {
            size_from(s, ue)
        }
    }
}

/// The first size in `s`.
pub open spec fn find_size(s: Seq<char>) -> Option<Seq<char>> {
    size_from(s, 0)
}

/// Whether the last word of `s` is a number without unit (`edp 50`).
pub open spec fn trailing_bare_number(s: Seq<char>) -> bool {
    let w = words(s);
    w.len() > 0 && w.last().len() > 0 && forall|k: int|
        0 <= k < w.last().len() ==> is_digit(#[trigger] w.last()[k])
}

pub proof fn lemma_digit_run_bounded(s: Seq<char>, k: int)
    requires
        0 <= k <= s.len(),
    ensures
        k + digit_run(s, k) <= s.len(),
    decreases s.len() - k,
{
    if k < s.len() && is_digit(s[k]) {
        lemma_digit_run_bounded(s, k + 1);
    }
}

pub proof fn lemma_letter_run_bounded(s: Seq<char>, k: int)
    requires
        0 <= k <= s.len(),
    ensures
        k + letter_run(s, k) <= s.len(),
    decreases s.len() - k,
{
    if k < s.len() && is_ascii_letter(s[k]) {
        lemma_letter_run_bounded(s, k + 1);
    }
}

proof fn lemma_letter_run_exact(s: Seq<char>, k: int, e: int)
    requires
        0 <= k <= e <= s.len(),
        forall|m: int| k <= m < e ==> is_ascii_letter(#[trigger] s[m]),
        e == s.len() || !is_ascii_letter(s[e]),
    ensures
        letter_run(s, k) == e - k,
    decreases e - k,
{
    if k < e {
        lemma_letter_run_exact(s, k + 1, e);
    }
}

proof fn lemma_words_push_word(p: Seq<char>, q: Seq<char>)
    requires
        q.len() > 0,
        forall|k: int| 0 <= k < q.len() ==> !is_ws(#[trigger] q[k]),
        p.len() == 0 || is_ws(p.last()),
    ensures
        words(p + q) == words(p).push(q),
    decreases q.len(),
{
    let s = p + q;
    if q.len() == 1 {
        assert(s.drop_last() =~= p);
        assert(s.last() == q[0]);
        if s.len() >= 2 {
            assert(s[s.len() - 2] == p.last());
        }
        assert(seq![q[0]] =~= q);
    } else {
        let q1 = q.drop_last();
        lemma_words_push_word(p, q1);
        assert(s.drop_last() =~= p + q1);
        assert(s[s.len() - 2] == q[q.len() - 2]);
        assert(q1.push(q.last()) =~= q);
    }
}

/// A size is a run of digits, at most one space, and one of the units
/// `ml`, `g`, `gr`, `l`, `lt` in any ASCII case: such a text is found whole
/// (with or without the space), and digits, a space and any other run of
/// letters hold no size.
pub proof fn lemma_sizes_found(d: Seq<char>, u: Seq<char>)
    requires
        d.len() > 0,
        forall|k: int| 0 <= k < d.len() ==> is_digit(#[trigger] d[k]),
        u.len() > 0,
        forall|k: int| 0 <= k < u.len() ==> is_ascii_letter(#[trigger] u[k]),
    ensures
        ({
            let l = lower_ascii_seq(u);
            let listed = l == "ml"@ || l == "g"@ || l == "gr"@ || l == "l"@ || l == "lt"@;
            &&& listed ==> find_size(d + seq![' '] + u) == Some(d + seq![' '] + u)
            &&& listed ==> find_size(d + u) == Some(d + u)
            &&& !listed ==> find_size(d + seq![' '] + u).is_none()
        }),
{
    reveal_strlit("ml");
    reveal_strlit("g");
    reveal_strlit("gr");
    reveal_strlit("l");
    reveal_strlit("lt");
    let l = lower_ascii_seq(u);
    assert(is_unit(u) <==> (l == "ml"@ || l == "g"@ || l == "gr"@ || l == "l"@ || l == "lt"@)) by {
        assert("ml"@ =~= seq!['m', 'l']);
        assert("g"@ =~= seq!['g']);
        assert("gr"@ =~= seq!['g', 'r']);
        assert("l"@ =~= seq!['l']);
        assert("lt"@ =~= seq!['l', 't']);
    }
    let n = d.len() as int;
    // with a space
    let s = d + seq![' '] + u;
    assert forall|m: int| 0 <= m < n implies #[trigger] s[m] == d[m] by {}
    assert forall|m: int| n + 1 <= m < s.len() implies #[trigger] s[m] == u[m - n - 1] by {}
    assert forall|m: int| 0 <= m < n implies is_digit(#[trigger] s[m]) by {
        assert(s[m] == d[m]);
    }
    assert forall|m: int| n + 1 <= m < s.len() implies is_ascii_letter(#[trigger] s[m]) by {
        assert(s[m] == u[m - n - 1]);
    }
    crate::prices::lemma_digit_run_exact(s, 0, n);
    lemma_letter_run_exact(s, n + 1, s.len() as int);
    assert(s.subrange(n + 1, s.len() as int) =~= u);
    assert(size_from(s, s.len() as int).is_none());
    assert(forall|k: int| 0 <= k < u.len() ==> !is_ws(#[trigger] u[k]));
    assert(forall|k: int| 0 <= k < d.len() ==> !is_ws(#[trigger] d[k]));
    lemma_words_push_word(seq![], d);
    assert(seq![] + d =~= d);
    let ds = d + seq![' '];
    assert(ds.drop_last() =~= d);
    assert(words(ds) == words(d));
    lemma_words_push_word(ds, u);
    assert(ds + u =~= s);
    assert(words(s) =~= seq![d, u]);
    assert(seq![d, u].drop_last() =~= seq![d]);
    assert(crate::text::join_space(seq![d]) == d);
    assert(crate::text::join_space(seq![d, u]) == d + seq![' '] + u);
    assert(s.subrange(0, s.len() as int) =~= s);
    // without a space
    let t = d + u;
    assert forall|m: int| 0 <= m < n implies #[trigger] t[m] == d[m] by {}
    assert forall|m: int| n <= m < t.len() implies #[trigger] t[m] == u[m - n] by {}
    assert forall|m: int| 0 <= m < n implies is_digit(#[trigger] t[m]) by {
        assert(t[m] == d[m]);
    }
    assert forall|m: int| n <= m < t.len() implies is_ascii_letter(#[trigger] t[m]) by {
        assert(t[m] == u[m - n]);
    }
    crate::prices::lemma_digit_run_exact(t, 0, n);
    lemma_letter_run_exact(t, n, t.len() as int);
    assert(t.subrange(n, t.len() as int) =~= u);
    assert forall|k: int| 0 <= k < t.len() implies !is_ws(#[trigger] t[k]) by {
        if k < n {
            assert(t[k] == d[k]);
        } else {
            assert(t[k] == u[k - n]);
        }
    }
    lemma_words_push_word(seq![], t);
    assert(seq![] + t =~= t);
    assert(words(t) =~= seq![t]);
    assert(t.subrange(0, t.len() as int) =~= t);
}

fn run_end(s: &[char], k: usize, letters: bool) -> (r: usize)
    requires
        k <= s.len(),
    ensures
        r == k + if letters {
            letter_run(s@, k as int)
        } else {
            digit_run(s@, k as int)
        },
        r <= s.len(),
{
    let mut e = k;
    while e < s.len() && ((letters && is_ascii_alphabetic(s[e])) || (!letters && is_ascii_digit(
        s[e],
    )))
        invariant
            k <= e <= s.len(),
            letters ==> letter_run(s@, k as int) == (e - k) + letter_run(s@, e as int),
            !letters ==> digit_run(s@, k as int) == (e - k) + digit_run(s@, e as int),
        decreases s.len() - e,
    {
        e = e + 1;
    }
    e
}

/// Whether `u` (case-insensitively) is a size unit: `ml`, `g`, `gr`, `l`
/// or `lt`.
pub fn is_size_unit(u: &[char]) -> (r: bool)
    ensures
        r == is_unit(u@),
        r <==> ({
            let l = lower_ascii_seq(u@);
            l == "ml"@ || l == "g"@ || l == "gr"@ || l == "l"@ || l == "lt"@
        }),
{
    proof {
        reveal_strlit("ml");
        reveal_strlit("g");
        reveal_strlit("gr");
        reveal_strlit("l");
        reveal_strlit("lt");
        assert("ml"@ =~= seq!['m', 'l']);
        assert("g"@ =~= seq!['g']);
        assert("gr"@ =~= seq!['g', 'r']);
        assert("l"@ =~= seq!['l']);
        assert("lt"@ =~= seq!['l', 't']);
    }
    let mut l: Vec<char> = Vec::new();
    for k in 0..u.len()
        invariant
            l@ == u@.take(k as int).map_values(|c: char| lower_ascii(c)),
    {
        l.push(to_ascii_lower(u[k]));
        assert(l@ =~= u@.take(k + 1).map_values(|c: char| lower_ascii(c)));
    }
    assert(u@.take(u.len() as int) =~= u@);
    let ghost lv = u@.map_values(|c: char| lower_ascii(c));
    assert(l@ == lv);
    let n = l.len();
    let r = (n == 2 && l[0] == 'm' && l[1] == 'l') || (n == 1 && l[0] == 'g') || (n == 2 && l[0]
        == 'g' && l[1] == 'r') || (n == 1 && l[0] == 'l') || (n == 2 && l[0] == 'l' && l[1]
        == 't');
    proof {
        if r {
        } else {
            assert(lv != seq!['m', 'l'] && lv != seq!['g'] && lv != seq!['g', 'r'] && lv != seq![
                'l',
            ] && lv != seq!['l', 't']) by {
                if n == 2 {
                    assert(seq!['m', 'l'][0] == 'm');
                    assert(seq!['g', 'r'][1] == 'r');
                    assert(seq!['l', 't'][0] == 'l');
                } else if n == 1 {
                    assert(seq!['g'][0] == 'g');
                }
            }
        }
        if n == 2 && l[0] == 'm' && l[1] == 'l' {
            assert(lv =~= seq!['m', 'l']);
        }
        if n == 1 && l[0] == 'g' {
            assert(lv =~= seq!['g']);
        }
        if n == 2 && l[0] == 'g' && l[1] == 'r' {
            assert(lv =~= seq!['g', 'r']);
        }
        if n == 1 && l[0] == 'l' {
            assert(lv =~= seq!['l']);
        }
        if n == 2 && l[0] == 'l' && l[1] == 't' {
            assert(lv =~= seq!['l', 't']);
        }
    }
    r
}

/// The first `N unit` of `text` (see [`size_from`]).
pub fn find_size_chars(text: &[char]) -> (r: Option<Vec<char>>)
    ensures
        match r {
            Some(v) => find_size(text@) == Some(v@),
            None => find_size(text@).is_none(),
        },
{
    let n = text.len();
    let mut i: usize = 0;
    while i < n
        invariant
            i <= n,
            n == text@.len(),
            find_size(text@) == size_from(text@, i as int),
        decreases n - i,
    {
        if !is_ascii_digit(text[i]) {
            i = i + 1;
        } else {
            let ne = run_end(text, i, false);
            let us = if ne < n && is_whitespace(text[ne]) {
                ne + 1
            } else {
                ne
            };
            let ue = run_end(text, us, true);
            let mut unit: Vec<char> = Vec::new();
            let mut k = us;
            while k < ue
                invariant
                    us <= k <= ue <= n,
                    n == text@.len(),
                    unit@ == text@.subrange(us as int, k as int),
                decreases ue - k,
            {
                unit.push(text[k]);
                assert(unit@ =~= text@.subrange(us as int, k + 1));
                k = k + 1;
            }
            if us < ue && is_size_unit(&unit) {
                let mut m: Vec<char> = Vec::new();
                let mut k = i;
                while k < ue
                    invariant
                        i <= k <= ue <= n,
                        n == text@.len(),
                        m@ == text@.subrange(i as int, k as int),
                    decreases ue - k,
                {
                    m.push(text[k]);
                    assert(m@ =~= text@.subrange(i as int, k + 1));
                    k = k + 1;
                }
                return Some(collapse_whitespace(&m));
            }
            i = ue;
        }
    }
    None
}

/// The first size (`N unit`) in `text`, e.g. `100 ml`, `100ml`, `100 Ml`,
/// the `50ML` of `X50ML`, `132 g`: digits, at most one whitespace
/// character, then one of the units `ml`, `g`, `gr`, `l`, `lt` in any case.
/// The match keeps its case, with its whitespace collapsed to one space.
pub fn find_size_in_text(text: &str) -> (r: Option<String>)
    ensures
        match r {
            Some(v) => find_size(text@) == Some(v@),
            None => find_size(text@).is_none(),
        },
{
    let cs = chars_of(text);
    match find_size_chars(&cs) {
        Some(v) => Some(string_of(&v)),
        None => None,
    }
}

/// Whether `name` already carries a size.
pub fn has_size(name: &str) -> (r: bool)
    ensures
        r == find_size(name@).is_some(),
{
    find_size_in_text(name).is_some()
}

/// The size in a product URL slug (e.g. the `100ml` of `...-100ml-...`).
pub fn size_from_url(url: &str) -> (r: Option<String>)
    ensures
        match r {
            Some(v) => find_size(url@) == Some(v@),
            None => find_size(url@).is_none(),
        },
{
    find_size_in_text(url)
}


/// Whether `name` ends in a bare number (e.g. `edp 50`): its last word is
/// non-empty and made of ASCII digits only.
pub fn has_trailing_bare_number(name: &str) -> (r: bool)
    ensures
        r == trailing_bare_number(name@),
{
    let cs = chars_of(name);
    let ws = split_words(&cs);
    if ws.len() == 0 {
        return false;
    }
    let last = &ws[ws.len() - 1];
    assert(last@ == words(name@).last());
    if last.len() == 0 {
        return false;
    }
    for k in 0..last.len()
        invariant
            last@ == words(name@).last(),
            words(name@).len() > 0,
            forall|m: int| 0 <= m < k ==> is_digit(#[trigger] last@[m]),
    {
        if !is_ascii_digit(last[k]) {
            assert(!is_digit(words(name@).last()[k as int]));
            return false;
        }
    }
    true
}

/// Whether `s` starts with `p`.
pub open spec fn starts_with(s: Seq<char>, p: Seq<char>) -> bool {
    p.len() <= s.len() && s.take(p.len() as int) == p
}

/// Whether `s` ends with `c`.
pub open spec fn ends_with_char(s: Seq<char>, c: char) -> bool {
    s.len() > 0 && s.last() == c
}

/// A link that leads nowhere useful for a product page: empty, `#`,
/// `javascript:`, `mailto:`, `tel:` or `data:` links, and links ending in
/// `#` (after trimming whitespace).
pub open spec fn placeholder_href(href: Seq<char>) -> bool {
    let h = trim(href);
    ||| h.len() == 0
    ||| h == seq!['#']
    ||| starts_with(h, "javascript:"@)
    ||| starts_with(h, "mailto:"@)
    ||| starts_with(h, "tel:"@)
    ||| starts_with(h, "data:"@)
    ||| ends_with_char(h, '#')
}

fn has_prefix(s: &[char], p: &str) -> (r: bool)
    ensures
        r == starts_with(s@, p@),
{
    let pc = chars_of(p);
    if pc.len() > s.len() {
        return false;
    }
    for k in 0..pc.len()
        invariant
            pc@ == p@,
            pc@.len() <= s@.len(),
            forall|m: int| 0 <= m < k ==> s@[m] == pc@[m],
    {
        if s[k] != pc[k] {
            assert(s@.take(pc@.len() as int)[k as int] != p@[k as int]);
            return false;
        }
    }
    assert(s@.take(pc@.len() as int) =~= p@);
    true
}

/// Whether `href` is a placeholder link (see [`placeholder_href`]).
pub fn is_placeholder_href(href: &str) -> (r: bool)
    ensures
        r == placeholder_href(href@),
{
    let cs = chars_of(href);
    let h = trim_chars(&cs);
    if h.len() == 0 {
        return true;
    }
    if h.len() == 1 && h[0] == '#' {
        assert(h@ =~= seq!['#']);
        return true;
    }
    let p = has_prefix(&h, "javascript:") || has_prefix(&h, "mailto:") || has_prefix(&h, "tel:")
        || has_prefix(&h, "data:");
    if p {
        return true;
    }
    proof {
        if h@ == seq!['#'] {
            assert(h@.len() == 1);
        }
    }
    h[h.len() - 1] == '#'
}

/// The size-enriched name: `name` unchanged when it already carries a
/// size; otherwise the size from the card's SKU selector, else the size in
/// the product URL, appended after a space; else ` ml` appended to a
/// trailing bare number; else `name` unchanged.
pub open spec fn enriched_name(name: Seq<char>, sku_size: Option<Seq<char>>, url: Seq<char>) -> Seq<
    char,
> {
    if find_size(name).is_some() {
        name
    } else if sku_size.is_some() {
        name + seq![' '] + sku_size.unwrap()
    } else if find_size(url).is_some() {
        name + seq![' '] + find_size(url).unwrap()
    } else if trailing_bare_number(name) {
        name + " ml"@
    } else {
        name
    }
}

fn append(a: &mut Vec<char>, b: &[char])
    ensures
        final(a)@ == old(a)@ + b@,
{
    let ghost a0 = a@;
    for k in 0..b.len()
        invariant
            a@ == a0 + b@.take(k as int),
    {
        a.push(b[k]);
        assert(a@ =~= a0 + b@.take(k + 1));
    }
    assert(b@.take(b.len() as int) =~= b@);
}

/// Makes sure the product name carries its size (see [`enriched_name`]).
pub fn enrich_name(name: &str, sku_size: Option<String>, url: &str) -> (r: String)
    ensures
        r@ == enriched_name(
            name@,
            match sku_size {
                Some(s) => Some(s@),
                None => None,
            },
            url@,
        ),
{
    if has_size(name) {
        return string_of(&chars_of(name));
    }
    let mut out = chars_of(name);
    match sku_size {
        Some(sz) => {
            out.push(' ');
            append(&mut out, &chars_of(&sz));
            return string_of(&out);
        },
        None => {},
    }
    match size_from_url(url) {
        Some(sz) => {
            out.push(' ');
            append(&mut out, &chars_of(&sz));
            return string_of(&out);
        },
        None => {},
    }
    if has_trailing_bare_number(name) {
        proof {
            reveal_strlit(" ml");
        }
        out.push(' ');
        out.push('m');
        out.push('l');
        assert(out@ =~= name@ + " ml"@);
    }
    string_of(&out)
}

} // verus!
