//! Fuzzy matching between provider products, canonical products and the
//! brand table: comparison strings, token normalization, brand coverage,
//! brand choice and the greedy per-provider assignment.

use vstd::prelude::*;

use crate::text::{chars_of, join_space, string_of, trim, trim_chars};
use crate::unicode::{alphanumeric, is_alphanumeric, lowercase, to_lowercase};

verus! {

/// The non-empty parts among `parts`, in order.
pub open spec fn non_empty(parts: Seq<Seq<char>>) -> Seq<Seq<char>> {
    parts.filter(|p: Seq<char>| p.len() > 0)
}

/// Brand, name and size trimmed, the empty ones skipped, joined by one
/// space.
pub open spec fn full_name_of(brand: Seq<char>, name: Seq<char>, size: Seq<char>) -> Seq<char> {
    join_space(non_empty(seq![trim(brand), trim(name), trim(size)]))
}

fn push_all(out: &mut Vec<char>, part: &[char])
    ensures
        final(out)@ == old(out)@ + part@,
{
    let ghost o = out@;
    for k in 0..part.len()
        invariant
            out@ == o + part@.take(k as int),
    {
        out.push(part[k]);
        assert(out@ =~= o + part@.take(k + 1));
    }
    assert(part@.take(part.len() as int) =~= part@);
}

/// Joins brand, name and size into one comparison string: each part is
/// trimmed, empty parts are skipped, and the rest are joined by one space.
pub fn full_name(brand: &str, name: &str, size: &str) -> (r: String)
    ensures
        r@ == full_name_of(brand@, name@, size@),
{
    let parts = [trim_chars(&chars_of(brand)), trim_chars(&chars_of(name)), trim_chars(
        &chars_of(size),
    )];
    let ghost ps = seq![trim(brand@), trim(name@), trim(size@)];
    let mut out: Vec<char> = Vec::new();
    let mut count: usize = 0;
    for i in 0..3
        invariant
            parts@.len() == 3,
            ps.len() == 3,
            forall|k: int| 0 <= k < 3 ==> #[trigger] parts@[k]@ == ps[k],
            out@ == join_space(non_empty(ps.take(i as int))),
            count == non_empty(ps.take(i as int)).len(),
    {
        let ghost pre = ps.take(i as int);
        assert(ps.take(i + 1) =~= pre.push(ps[i as int]));
        proof {
            crate::text::lemma_filter_push(pre, ps[i as int], |p: Seq<char>| p.len() > 0);
        }
        let p = &parts[i];
        if p.len() > 0 {
            let ghost ne = non_empty(pre);
            if count > 0 {
                out.push(' ');
            }
            push_all(&mut out, p.as_slice());
            proof {
                let nn = ne.push(ps[i as int]);
                if ne.len() > 0 {
                    assert(nn.drop_last() =~= ne);
                }
                assert(out@ =~= join_space(nn));
            }
            count = count + 1;
        }
    }
    assert(ps.take(3) =~= ps);
    string_of(&out)
}


/// The maximal runs of alphanumeric characters of `s`, in order: what
/// `s.split(|c| !c.is_alphanumeric())` yields once the empty pieces are
/// dropped.
pub open spec fn alnum_runs(s: Seq<char>) -> Seq<Seq<char>>
    decreases s.len(),
{
    if s.len() == 0 {
        seq![]
    } else {
        let w = alnum_runs(s.drop_last());
        let c = s.last();
        if !alphanumeric(c) {
            w
        } else if s.len() >= 2 && alphanumeric(s[s.len() - 2]) {
            w.update(w.len() - 1, w.last().push(c))
        } else {
            w.push(seq![c])
        }
    }
}

proof fn lemma_alnum_runs_nonempty(s: Seq<char>)
    requires
        s.len() > 0,
        alphanumeric(s.last()),
    ensures
        alnum_runs(s).len() > 0,
    decreases s.len(),
{
    if s.len() >= 2 && alphanumeric(s[s.len() - 2]) {
        lemma_alnum_runs_nonempty(s.drop_last());
    }
}

pub open spec fn vviews(v: Seq<Vec<char>>) -> Seq<Seq<char>> {
    v.map_values(|x: Vec<char>| x@)
}

/// The alphanumeric runs of `text`.
fn alnum_tokens(text: &[char]) -> (r: Vec<Vec<char>>)
    ensures
        vviews(r@) == alnum_runs(text@),
{
    let mut out: Vec<Vec<char>> = Vec::new();
    let mut cur: Vec<char> = Vec::new();
    let mut in_run = false;
    for i in 0..text.len()
        invariant
            in_run == (i > 0 && alphanumeric(text@[i - 1])),
            !in_run ==> vviews(out@) == alnum_runs(text@.take(i as int)),
            in_run ==> vviews(out@).push(cur@) == alnum_runs(text@.take(i as int)),
    {
        let c = text[i];
        let ghost pre = text@.take(i as int);
        assert(text@.take(i + 1).drop_last() =~= pre);
        if !is_alphanumeric(c) {
            if in_run {
                let w = cur;
                cur = Vec::new();
                let ghost o = out@;
                out.push(w);
                assert(vviews(out@) =~= vviews(o).push(w@));
            }
            in_run = false;
        } else {
            if in_run {
                proof {
                    let wv = vviews(out@).push(cur@);
                    assert(wv.update(wv.len() - 1, wv.last().push(c)) =~= vviews(out@).push(
                        cur@.push(c),
                    ));
                }
                cur.push(c);
            } else {
                cur = Vec::new();
                cur.push(c);
                assert(cur@ =~= seq![c]);
            }
            in_run = true;
        }
    }
    assert(text@.take(text.len() as int) =~= text@);
    if in_run {
        let ghost o = out@;
        out.push(cur);
        assert(vviews(out@) =~= vviews(o).push(cur@));
    }
    out
}

/// Lexicographic order of strings by code point (the order of `String`'s
/// `Ord`, which compares UTF-8 bytes).
pub open spec fn lex_lt(a: Seq<char>, b: Seq<char>) -> bool
    decreases a.len(),
{
    if a.len() == 0 {
        b.len() > 0
    } else if b.len() == 0 {
        false
    } else if a[0] != b[0] {
        (a[0] as u32) < (b[0] as u32)
    } else {
        lex_lt(a.drop_first(), b.drop_first())
    }
}

/// Where `x` goes in the sorted `s`: after every element not greater than
/// it.
pub open spec fn insert_pos(s: Seq<Seq<char>>, x: Seq<char>) -> int
    decreases s.len(),
{
    if s.len() == 0 {
        0
    } else if lex_lt(x, s.last()) {
        insert_pos(s.drop_last(), x)
    } else {
        s.len() as int
    }
}

/// `s` sorted in lexicographic order (insertion sort; equal strings keep
/// their order).
pub open spec fn sort_lex(s: Seq<Seq<char>>) -> Seq<Seq<char>>
    decreases s.len(),
{
    if s.len() == 0 {
        seq![]
    } else {
        let t = sort_lex(s.drop_last());
        let j = insert_pos(t, s.last());
        t.take(j) + seq![s.last()] + t.skip(j)
    }
}

/// The normalized form of a name: lower-cased, split into its alphanumeric
/// runs, sorted, and joined by one space.
pub open spec fn normalized(name: Seq<char>) -> Seq<char> {
    join_space(sort_lex(alnum_runs(lowercase(name))))
}

proof fn lemma_insert_pos_bounds(s: Seq<Seq<char>>, x: Seq<char>)
    ensures
        0 <= insert_pos(s, x) <= s.len(),
    decreases s.len(),
{
    if s.len() > 0 && lex_lt(x, s.last()) {
        lemma_insert_pos_bounds(s.drop_last(), x);
    }
}

pub(crate) proof fn lemma_lex_irreflexive(a: Seq<char>)
    ensures
        !lex_lt(a, a),
    decreases a.len(),
{
    if a.len() > 0 {
        lemma_lex_irreflexive(a.drop_first());
    }
}

pub(crate) proof fn lemma_lex_asymmetric(a: Seq<char>, b: Seq<char>)
    ensures
        lex_lt(a, b) ==> !lex_lt(b, a),
    decreases a.len(),
{
    if a.len() > 0 && b.len() > 0 && a[0] == b[0] {
        lemma_lex_asymmetric(a.drop_first(), b.drop_first());
    }
}

pub(crate) proof fn lemma_lex_transitive(a: Seq<char>, b: Seq<char>, c: Seq<char>)
    requires
        lex_lt(a, b),
        lex_lt(b, c),
    ensures
        lex_lt(a, c),
    decreases a.len(),
{
    if a.len() > 0 && a[0] == b[0] && b[0] == c[0] {
        lemma_lex_transitive(a.drop_first(), b.drop_first(), c.drop_first());
    }
}

pub(crate) proof fn lemma_lex_total(a: Seq<char>, b: Seq<char>)
    ensures
        a == b || lex_lt(a, b) || lex_lt(b, a),
    decreases a.len(),
{
    if a.len() == 0 {
        if b.len() == 0 {
            assert(a =~= b);
        }
    } else if b.len() > 0 && a[0] == b[0] {
        let a1 = a.drop_first();
        let b1 = b.drop_first();
        lemma_lex_total(a1, b1);
        assert(a1.len() == a.len() - 1 && b1.len() == b.len() - 1);
        if a1 == b1 {
            assert(a =~= b) by {
                assert(a.len() == b.len());
                assert forall|i: int| 0 <= i < a.len() implies a[i] == b[i] by {
                    if i > 0 {
                        assert(a[i] == a1[i - 1]);
                        assert(b[i] == b1[i - 1]);
                    }
                }
            }
        }
    } else if b.len() > 0 {
        vstd::utf8::char_u32_cast(a[0], a[0] as u32);
        vstd::utf8::char_u32_cast(b[0], b[0] as u32);
    }
}

/// Whether `s` is in lexicographic order.
pub open spec fn lex_sorted(s: Seq<Seq<char>>) -> bool {
    forall|i: int, j: int| 0 <= i < j < s.len() ==> !lex_lt(#[trigger] s[j], #[trigger] s[i])
}

proof fn lemma_insert_pos_sorted(t: Seq<Seq<char>>, x: Seq<char>)
    requires
        lex_sorted(t),
    ensures
        0 <= insert_pos(t, x) <= t.len(),
        forall|i: int| 0 <= i < insert_pos(t, x) ==> !lex_lt(x, #[trigger] t[i]),
        forall|i: int| insert_pos(t, x) <= i < t.len() ==> lex_lt(x, #[trigger] t[i]),
    decreases t.len(),
{
    if t.len() > 0 {
        let u = t.drop_last();
        assert forall|i: int, j: int| 0 <= i < j < u.len() implies !lex_lt(#[trigger] u[j], #[trigger] u[i]) by {
            assert(u[i] == t[i] && u[j] == t[j]);
        }
        lemma_insert_pos_sorted(u, x);
        if lex_lt(x, t.last()) {
            assert forall|i: int| 0 <= i < insert_pos(t, x) implies !lex_lt(x, #[trigger] t[i]) by {
                assert(u[i] == t[i]);
            }
            assert forall|i: int| insert_pos(t, x) <= i < t.len() implies lex_lt(x, #[trigger] t[i]) by {
                if i < u.len() {
                    assert(u[i] == t[i]);
                }
            }
        } else {
            assert forall|i: int| 0 <= i < t.len() implies !lex_lt(x, #[trigger] t[i]) by {
                if i < t.len() - 1 {
                    let l = t[t.len() - 1];
                    assert(!lex_lt(l, t[i]));
                    lemma_lex_total(x, l);
                    if lex_lt(x, t[i]) && lex_lt(l, x) {
                        lemma_lex_transitive(l, x, t[i]);
                    }
                }
            }
        }
    }
}

/// Sorting puts the strings in lexicographic order and keeps exactly the
/// same strings, each as often.
pub proof fn lemma_sort_lex_sorted(s: Seq<Seq<char>>)
    ensures
        lex_sorted(sort_lex(s)),
        sort_lex(s).to_multiset() == s.to_multiset(),
    decreases s.len(),
{
    broadcast use vstd::seq_lib::group_to_multiset_ensures;

    if s.len() == 0 {
        assert(sort_lex(s) =~= s);
    } else {
        let u = s.drop_last();
        let x = s.last();
        lemma_sort_lex_sorted(u);
        let t = sort_lex(u);
        lemma_insert_pos_sorted(t, x);
        let j = insert_pos(t, x);
        let r = sort_lex(s);
        assert(r =~= t.insert(j, x));
        assert(s =~= u.push(x));
        assert(r.to_multiset() == t.to_multiset().insert(x));
        assert forall|i: int, k: int| 0 <= i < k < r.len() implies !lex_lt(#[trigger] r[k], #[trigger] r[i]) by {
            if k < j {
                assert(r[i] == t[i] && r[k] == t[k]);
            } else if k == j {
                assert(r[i] == t[i] && r[k] == x);
            } else if i == j {
                assert(r[i] == x && r[k] == t[k - 1]);
                lemma_lex_asymmetric(x, t[k - 1]);
            } else if i < j {
                assert(r[i] == t[i] && r[k] == t[k - 1]);
            } else {
                assert(r[i] == t[i - 1] && r[k] == t[k - 1]);
            }
        }
    }
}

proof fn lemma_sorted_unique(s: Seq<Seq<char>>, t: Seq<Seq<char>>)
    requires
        lex_sorted(s),
        lex_sorted(t),
        s.to_multiset() == t.to_multiset(),
    ensures
        s == t,
    decreases s.len(),
{
    broadcast use vstd::seq_lib::group_to_multiset_ensures;

    assert(s.len() == s.to_multiset().len());
    assert(t.len() == t.to_multiset().len());
    if s.len() == 0 {
        assert(s =~= t);
    } else {
        let n = s.len() as int;
        let a = s[n - 1];
        let b = t[n - 1];
        assert(s.to_multiset().count(a) > 0);
        assert(t.contains(a));
        let ka = choose|k: int| 0 <= k < t.len() && t[k] == a;
        assert(!lex_lt(b, a)) by {
            if ka < n - 1 {
                assert(!lex_lt(t[n - 1], t[ka]));
            } else {
                lemma_lex_irreflexive(a);
            }
        }
        assert(t.to_multiset().count(b) > 0);
        assert(s.contains(b));
        let kb = choose|k: int| 0 <= k < s.len() && s[k] == b;
        assert(!lex_lt(a, b)) by {
            if kb < n - 1 {
                assert(!lex_lt(s[n - 1], s[kb]));
            } else {
                lemma_lex_irreflexive(b);
            }
        }
        lemma_lex_total(a, b);
        let s2 = s.drop_last();
        let t2 = t.drop_last();
        assert(s.remove(n - 1) =~= s2);
        assert(t.remove(n - 1) =~= t2);
        assert(s2.to_multiset() == s.to_multiset().remove(a));
        assert(t2.to_multiset() == t.to_multiset().remove(b));
        assert forall|i: int, j: int| 0 <= i < j < s2.len() implies !lex_lt(#[trigger] s2[j], #[trigger] s2[i]) by {
            assert(s2[i] == s[i] && s2[j] == s[j]);
        }
        assert forall|i: int, j: int| 0 <= i < j < t2.len() implies !lex_lt(#[trigger] t2[j], #[trigger] t2[i]) by {
            assert(t2[i] == t[i] && t2[j] == t[j]);
        }
        lemma_sorted_unique(s2, t2);
        assert(s =~= t) by {
            assert forall|i: int| 0 <= i < n implies s[i] == t[i] by {
                if i < n - 1 {
                    assert(s[i] == s2[i] && t[i] == t2[i]);
                }
            }
        }
    }
}

/// Sorting forgets the order it was given: two sequences holding the same
/// strings, each as often, sort alike.
pub proof fn lemma_sort_lex_permutation(s: Seq<Seq<char>>, t: Seq<Seq<char>>)
    requires
        s.to_multiset() == t.to_multiset(),
    ensures
        sort_lex(s) == sort_lex(t),
{
    lemma_sort_lex_sorted(s);
    lemma_sort_lex_sorted(t);
    lemma_sorted_unique(sort_lex(s), sort_lex(t));
}

/// Word order does not matter to normalization: two names whose
/// lower-cased alphanumeric tokens are the same, each as often, normalize
/// alike.
pub proof fn lemma_normalized_ignores_word_order(a: Seq<char>, b: Seq<char>)
    requires
        alnum_runs(lowercase(a)).to_multiset() == alnum_runs(lowercase(b)).to_multiset(),
    ensures
        normalized(a) == normalized(b),
{
    lemma_sort_lex_permutation(alnum_runs(lowercase(a)), alnum_runs(lowercase(b)));
}

pub(crate) fn lex_less(a: &[char], b: &[char]) -> (r: bool)
    ensures
        r == lex_lt(a@, b@),
{
    let mut k: usize = 0;
    assert(a@.skip(0) =~= a@);
    assert(b@.skip(0) =~= b@);
    while k < a.len() && k < b.len() && a[k] == b[k]
        invariant
            k <= a@.len(),
            k <= b@.len(),
            lex_lt(a@, b@) == lex_lt(a@.skip(k as int), b@.skip(k as int)),
        decreases a@.len() - k,
    {
        assert(a@.skip(k + 1) =~= a@.skip(k as int).drop_first());
        assert(b@.skip(k + 1) =~= b@.skip(k as int).drop_first());
        k = k + 1;
    }
    if k == a.len() {
        k < b.len()
    } else if k == b.len() {
        false
    } else {
        (a[k] as u32) < (b[k] as u32)
    }
}

fn copy_chars(v: &[char]) -> (r: Vec<char>)
    ensures
        r@ == v@,
{
    let mut out: Vec<char> = Vec::new();
    for k in 0..v.len()
        invariant
            out@ == v@.take(k as int),
    {
        out.push(v[k]);
        assert(out@ =~= v@.take(k + 1));
    }
    assert(v@.take(v.len() as int) =~= v@);
    out
}

/// `toks` sorted lexicographically (see [`sort_lex`]).
pub(crate) fn sort_tokens(toks: Vec<Vec<char>>) -> (r: Vec<Vec<char>>)
    ensures
        vviews(r@) == sort_lex(vviews(toks@)),
{
    let mut sorted: Vec<Vec<char>> = Vec::new();
    let n = toks.len();
    for i in 0..n
        invariant
            n == toks@.len(),
            vviews(sorted@) == sort_lex(vviews(toks@).take(i as int)),
    {
        let x = copy_chars(toks[i].as_slice());
        let ghost pre = vviews(toks@).take(i as int);
        assert(vviews(toks@).take(i + 1).drop_last() =~= pre);
        assert(x@ == vviews(toks@)[i as int]);
        let ghost t = vviews(sorted@);
        let mut j = sorted.len();
        assert(t.take(j as int) =~= t);
        while j > 0 && lex_less(x.as_slice(), sorted[j - 1].as_slice())
            invariant
                j <= sorted@.len(),
                t == vviews(sorted@),
                insert_pos(t, x@) == insert_pos(t.take(j as int), x@),
            decreases j,
        {
            assert(t.take(j as int).drop_last() =~= t.take(j - 1));
            j = j - 1;
        }
        proof {
            assert(t.take(j as int) =~= t.take(j as int));
            if j > 0 {
                assert(t.take(j as int).last() == t[j - 1]);
            }
            assert(t.take(t.len() as int) =~= t);
        }
        sorted.insert(j, x);
        assert(vviews(sorted@) =~= t.take(j as int) + seq![vviews(toks@)[i as int]] + t.skip(
            j as int,
        ));
    }
    assert(vviews(toks@).take(n as int) =~= vviews(toks@));
    sorted
}

fn join_tokens(ts: &Vec<Vec<char>>) -> (r: Vec<char>)
    ensures
        r@ == join_space(vviews(ts@)),
{
    let mut out: Vec<char> = Vec::new();
    for i in 0..ts.len()
        invariant
            out@ == join_space(vviews(ts@).take(i as int)),
    {
        let ghost pre = vviews(ts@).take(i as int);
        let ghost nxt = vviews(ts@).take(i + 1);
        assert(nxt.drop_last() =~= pre);
        if i > 0 {
            out.push(' ');
        }
        push_all(&mut out, ts[i].as_slice());
        assert(out@ =~= join_space(nxt));
    }
    assert(vviews(ts@).take(ts.len() as int) =~= vviews(ts@));
    out
}

/// The sorted alphanumeric tokens of the lower-cased `name`.
fn normalized_tokens(name: &str) -> (r: Vec<Vec<char>>)
    ensures
        vviews(r@) == sort_lex(alnum_runs(lowercase(name@))),
{
    let lower = to_lowercase(name);
    let cs = chars_of(lower.as_str());
    let toks = alnum_tokens(&cs);
    sort_tokens(toks)
}

/// Lower-cases `name`, splits it into tokens on non-alphanumeric
/// boundaries and joins the sorted tokens by one space, so that word order
/// and case do not matter: "Light Blue Homme EDP 50" and "edp 50 light
/// blue homme" normalize alike.
pub fn normalize(name: &str) -> (r: String)
    ensures
        r@ == normalized(name@),
{
    let ts = normalized_tokens(name);
    string_of(&join_tokens(&ts))
}


/// The pieces of `s` between single spaces, empty pieces included
/// (`str::split(' ')`).
pub open spec fn split_space(s: Seq<char>) -> Seq<Seq<char>>
    decreases s.len(),
{
    if s.len() == 0 {
        seq![seq![]]
    } else {
        let w = split_space(s.drop_last());
        if s.last() == ' ' {
            w.push(seq![])
        } else {
            w.update(w.len() - 1, w.last().push(s.last()))
        }
    }
}

proof fn lemma_split_space_nonempty(s: Seq<char>)
    ensures
        split_space(s).len() > 0,
    decreases s.len(),
{
    if s.len() > 0 {
        lemma_split_space_nonempty(s.drop_last());
    }
}

fn split_on_space(s: &[char]) -> (r: Vec<Vec<char>>)
    ensures
        vviews(r@) == split_space(s@),
        r@.len() > 0,
{
    let mut out: Vec<Vec<char>> = Vec::new();
    let mut cur: Vec<char> = Vec::new();
    assert(s@.take(0) =~= Seq::<char>::empty());
    for i in 0..s.len()
        invariant
            vviews(out@).push(cur@) == split_space(s@.take(i as int)),
    {
        let c = s[i];
        let ghost pre = s@.take(i as int);
        assert(s@.take(i + 1).drop_last() =~= pre);
        if c == ' ' {
            let w = cur;
            cur = Vec::new();
            let ghost o = out@;
            out.push(w);
            assert(vviews(out@).push(cur@) =~= vviews(o).push(w@).push(seq![]));
        } else {
            proof {
                let wv = vviews(out@).push(cur@);
                assert(wv.update(wv.len() - 1, wv.last().push(c)) =~= vviews(out@).push(
                    cur@.push(c),
                ));
            }
            cur.push(c);
        }
    }
    assert(s@.take(s.len() as int) =~= s@);
    let ghost o = out@;
    out.push(cur);
    assert(vviews(out@) =~= vviews(o).push(cur@));
    out
}

/// How many of `brand_toks` (with repetition) occur in `name_toks`.
pub open spec fn count_present(brand_toks: Seq<Seq<char>>, name_toks: Seq<Seq<char>>) -> nat
    decreases brand_toks.len(),
{
    if brand_toks.len() == 0 {
        0
    } else {
        count_present(brand_toks.drop_last(), name_toks) + if name_toks.contains(
            brand_toks.last(),
        ) {
            1nat
        } else {
            0nat
        }
    }
}

/// Brand coverage of a name as a fraction `(present, total)`: the brand's
/// normalized tokens (its normalized form split at spaces) and how many of
/// them occur among the name's normalized tokens.
pub open spec fn coverage(name: Seq<char>, brand: Seq<char>) -> (nat, nat) {
    let bt = split_space(normalized(brand));
    let nt = split_space(normalized(name));
    (count_present(bt, nt), bt.len())
}

/// Whether every token of the brand occurs in the name (coverage 1.0).
pub open spec fn covers(name: Seq<char>, brand: Seq<char>) -> bool {
    coverage(name, brand).0 == coverage(name, brand).1
}

proof fn lemma_count_present_le(bt: Seq<Seq<char>>, nt: Seq<Seq<char>>)
    ensures
        count_present(bt, nt) <= bt.len(),
    decreases bt.len(),
{
    if bt.len() > 0 {
        lemma_count_present_le(bt.drop_last(), nt);
    }
}

fn seq_eq(a: &[char], b: &[char]) -> (r: bool)
    ensures
        r == (a@ == b@),
{
    if a.len() != b.len() {
        return false;
    }
    for k in 0..a.len()
        invariant
            a@.len() == b@.len(),
            forall|m: int| 0 <= m < k ==> a@[m] == b@[m],
    {
        if a[k] != b[k] {
            return false;
        }
    }
    assert(a@ =~= b@);
    true
}

fn contains_token(ts: &Vec<Vec<char>>, t: &[char]) -> (r: bool)
    ensures
        r == vviews(ts@).contains(t@),
{
    for k in 0..ts.len()
        invariant
            forall|m: int| 0 <= m < k ==> vviews(ts@)[m] != t@,
    {
        if seq_eq(ts[k].as_slice(), t) {
            assert(vviews(ts@)[k as int] == t@);
            return true;
        }
    }
    false
}

/// The fraction of the brand's normalized tokens that appear among the
/// name's normalized tokens, as `(present, total)`; `total` is at least 1.
/// Used to find a brand embedded in a long product name, e.g. the brand
/// `kevin` covers `Kevin Black EDT 100 Ml` fully: `(1, 1)`.
pub fn brand_coverage(name: &str, brand: &str) -> (r: (usize, usize))
    ensures
        r.0 as nat == coverage(name@, brand@).0,
        r.1 as nat == coverage(name@, brand@).1,
        r.0 <= r.1,
        r.1 >= 1,
{
    let nn = normalize(name);
    let nb = normalize(brand);
    let name_toks = split_on_space(&chars_of(nn.as_str()));
    let brand_toks = split_on_space(&chars_of(nb.as_str()));
    let mut present: usize = 0;
    for k in 0..brand_toks.len()
        invariant
            present as nat == count_present(vviews(brand_toks@).take(k as int), vviews(
                name_toks@,
            )),
            present <= k,
    {
        let ghost pre = vviews(brand_toks@).take(k as int);
        assert(vviews(brand_toks@).take(k + 1).drop_last() =~= pre);
        if contains_token(&name_toks, brand_toks[k].as_slice()) {
            present = present + 1;
        }
    }
    assert(vviews(brand_toks@).take(brand_toks.len() as int) =~= vviews(brand_toks@));
    (present, brand_toks.len())
}

/// Whether every normalized token of `brand` occurs in `name` (brand
/// coverage 1.0, the brand-assignment threshold).
pub fn covers_brand(name: &str, brand: &str) -> (r: bool)
    ensures
        r == covers(name@, brand@),
{
    let (present, total) = brand_coverage(name, brand);
    present == total
}

/// The number of UTF-8 bytes that encode `c`.
pub open spec fn utf8_width(c: char) -> nat {
    if (c as u32) < 0x80 {
        1
    } else if (c as u32) < 0x800 {
        2
    } else if (c as u32) < 0x10000 {
        3
    } else {
        4
    }
}

/// The UTF-8 length of `s` in bytes (what `str::len` reports).
pub open spec fn utf8_len(s: Seq<char>) -> nat
    decreases s.len(),
{
    if s.len() == 0 {
        0
    } else {
        utf8_len(s.drop_last()) + utf8_width(s.last())
    }
}

proof fn lemma_utf8_len_bound(s: Seq<char>)
    ensures
        utf8_len(s) <= 4 * s.len(),
    decreases s.len(),
{
    if s.len() > 0 {
        lemma_utf8_len_bound(s.drop_last());
    }
}

/// The UTF-8 length of `s` in bytes.
pub fn byte_len(s: &str) -> (r: u128)
    ensures
        r == utf8_len(s@),
{
    let cs = chars_of(s);
    let mut total: u128 = 0;
    for k in 0..cs.len()
        invariant
            cs@ == s@,
            total == utf8_len(cs@.take(k as int)),
    {
        let c = cs[k];
        let u = c as u32;
        let w: u128 = if u < 0x80 {
            1
        } else if u < 0x800 {
            2
        } else if u < 0x10000 {
            3
        } else {
            4
        };
        assert(cs@.take(k + 1).drop_last() =~= cs@.take(k as int));
        proof {
            lemma_utf8_len_bound(cs@.take(k + 1));
        }
        total = total + w;
    }
    assert(cs@.take(cs.len() as int) =~= cs@);
    total
}

/// The index of the brand chosen for `query` among `candidates` (id,
/// name) scanned from position `i` on, given the best so far: a candidate
/// that the query covers replaces the best when its name is at least as
/// long in bytes (so ties go to the later candidate).
pub open spec fn best_from(
    query: Seq<char>,
    cands: Seq<(Seq<char>, Seq<char>)>,
    best: Option<int>,
) -> Option<int>
    decreases cands.len(),
{
    if cands.len() == 0 {
        best
    } else {
        let prev = best_from(query, cands.drop_last(), best);
        let i = cands.len() - 1;
        if covers(query, cands[i].1) && (prev.is_none() || utf8_len(cands[prev.unwrap()].1)
            <= utf8_len(cands[i].1)) {
            Some(i)
        } else {
            prev
        }
    }
}

/// The brand chosen for `query`: among the candidates whose every token
/// occurs in the query, the one with the longest name in bytes, the last
/// one on ties.
pub open spec fn best_brand(query: Seq<char>, cands: Seq<(Seq<char>, Seq<char>)>) -> Option<int> {
    best_from(query, cands, None)
}

pub open spec fn pair_views(v: Seq<(String, String)>) -> Seq<(Seq<char>, Seq<char>)> {
    v.map_values(|p: (String, String)| (p.0@, p.1@))
}

proof fn lemma_best_from_bounds(
    query: Seq<char>,
    cands: Seq<(Seq<char>, Seq<char>)>,
)
    ensures
        best_from(query, cands, None) matches Some(i) ==> 0 <= i < cands.len() && covers(
            query,
            cands[i].1,
        ),
    decreases cands.len(),
{
    if cands.len() > 0 {
        lemma_best_from_bounds(query, cands.drop_last());
        let prev = best_from(query, cands.drop_last(), None);
        if prev.is_some() {
            assert(cands.drop_last()[prev.unwrap()] == cands[prev.unwrap()]);
        }
    }
}

/// The brand chosen for a query is one the query covers, none of the
/// covered brands has a longer name in bytes, and every covered brand
/// after it has a strictly shorter name (ties go to the later candidate);
/// when none is chosen, the query covers no brand.
pub proof fn lemma_best_brand_is_longest(query: Seq<char>, cands: Seq<(Seq<char>, Seq<char>)>)
    ensures
        match best_brand(query, cands) {
            Some(i) => {
                &&& 0 <= i < cands.len()
                &&& covers(query, cands[i].1)
                &&& forall|j: int|
                    0 <= j < cands.len() && covers(query, #[trigger] cands[j].1) ==> utf8_len(cands[j].1)
                        <= utf8_len(cands[i].1)
                &&& forall|j: int|
                    i < j < cands.len() && covers(query, #[trigger] cands[j].1) ==> utf8_len(cands[j].1)
                        < utf8_len(cands[i].1)
            },
            None => forall|j: int| 0 <= j < cands.len() ==> !covers(query, #[trigger] cands[j].1),
        },
    decreases cands.len(),
{
    if cands.len() > 0 {
        let pre = cands.drop_last();
        lemma_best_brand_is_longest(query, pre);
        let n = cands.len() - 1;
        assert forall|j: int| 0 <= j < n implies #[trigger] pre[j] == cands[j] by {}
        let prev = best_from(query, pre, None);
        assert(best_brand(query, pre) == prev);
        let here = covers(query, cands[n].1) && (prev.is_none() || utf8_len(cands[prev.unwrap()].1)
            <= utf8_len(cands[n].1));
        match prev {
            Some(b) => {
                assert(pre[b] == cands[b]);
                if here {
                    assert(best_brand(query, cands) == Some(n));
                    assert forall|j: int|
                        0 <= j < cands.len() && covers(query, #[trigger] cands[j].1) implies utf8_len(cands[j].1)
                        <= utf8_len(cands[n].1) by {
                        if j < n {
                            assert(pre[j] == cands[j]);
                        }
                    }
                } else {
                    assert(best_brand(query, cands) == Some(b));
                    assert forall|j: int|
                        0 <= j < cands.len() && covers(query, #[trigger] cands[j].1) implies utf8_len(cands[j].1)
                        <= utf8_len(cands[b].1) by {
                        if j < n {
                            assert(pre[j] == cands[j]);
                        }
                    }
                    assert forall|j: int|
                        b < j < cands.len() && covers(query, #[trigger] cands[j].1) implies utf8_len(cands[j].1)
                        < utf8_len(cands[b].1) by {
                        if j < n {
                            assert(pre[j] == cands[j]);
                        }
                    }
                }
            },
            None => {
                if here {
                    assert(best_brand(query, cands) == Some(n));
                    assert forall|j: int|
                        0 <= j < cands.len() && covers(query, #[trigger] cands[j].1) implies utf8_len(cands[j].1)
                        <= utf8_len(cands[n].1) by {
                        if j < n {
                            assert(pre[j] == cands[j]);
                        }
                    }
                } else {
                    assert(best_brand(query, cands).is_none());
                    assert forall|j: int| 0 <= j < cands.len() implies !covers(query, #[trigger] cands[j].1) by {
                        if j < n {
                            assert(pre[j] == cands[j]);
                        }
                    }
                }
            },
        }
    }
}

/// The best-matching brand for `query` among `candidates` (`(id, name)`
/// pairs): the candidates are those whose every normalized token occurs in
/// the query (brand coverage 1.0); the longest name in bytes wins and ties
/// go to the later candidate. Returns the winner's index.
pub fn best_match(query: &str, candidates: &Vec<(String, String)>) -> (r: Option<usize>)
    ensures
        match r {
            Some(i) => best_brand(query@, pair_views(candidates@)) == Some(i as int),
            None => best_brand(query@, pair_views(candidates@)).is_none(),
        },
        r matches Some(i) ==> i < candidates@.len() && covers(query@, candidates@[i as int].1@),
        r matches Some(i) ==> forall|j: int|
            0 <= j < candidates@.len() && covers(query@, #[trigger] candidates@[j].1@) ==> utf8_len(
                candidates@[j].1@,
            ) <= utf8_len(candidates@[i as int].1@),
        r matches Some(i) ==> forall|j: int|
            i < j < candidates@.len() && covers(query@, #[trigger] candidates@[j].1@) ==> utf8_len(
                candidates@[j].1@,
            ) < utf8_len(candidates@[i as int].1@),
        r is None ==> forall|j: int| 0 <= j < candidates@.len() ==> !covers(query@, #[trigger] candidates@[j].1@),
{
    let ghost cv = pair_views(candidates@);
    let mut best: Option<usize> = None;
    let mut best_len: u128 = 0;
    for k in 0..candidates.len()
        invariant
            cv == pair_views(candidates@),
            best_from(query@, cv.take(k as int), None) == match best {
                Some(b) => Some(b as int),
                None => None::<int>,
            },
            best matches Some(b) ==> b < k && best_len == utf8_len(cv[b as int].1),
    {
        let ghost pre = cv.take(k as int);
        assert(cv.take(k + 1).drop_last() =~= pre);
        assert(cv.take(k + 1)[k as int] == cv[k as int]);
        if let Some(b) = best {
            assert(cv.take(k + 1)[b as int] == cv[b as int]);
        }
        let name = candidates[k].1.as_str();
        assert(name@ == cv[k as int].1);
        if covers_brand(query, name) {
            let l = byte_len(name);
            let replace = match best {
                None => true,
                Some(_) => best_len <= l,
            };
            if replace {
                best = Some(k);
                best_len = l;
            }
        }
    }
    assert(cv.take(candidates.len() as int) =~= cv);
    proof {
        lemma_best_from_bounds(query@, cv);
        lemma_best_brand_is_longest(query@, cv);
        assert forall|j: int| 0 <= j < candidates@.len() implies #[trigger] candidates@[j].1@ == cv[j].1 by {}
    }
    best
}


/// The similarity threshold for linking a provider product to a canonical
/// product, as a score key (see [`MatchCandidate`]): the key of `0.6_f64`,
/// its IEEE-754 bit pattern with the top bit set.
pub const MIN_SCORE: u64 = 0xbfe3_3333_3333_3333;

/// One scored (provider product, canonical product) comparison. `score` is
/// the order key of the `f64` similarity, which compares as integers as the
/// scores compare as numbers: a non-negative score's bit pattern with the
/// top bit set, a negative score's bit pattern with every bit flipped
/// (`-0.0` is keyed as `0.0`; a NaN, which passes no threshold and ranks
/// below every score, as 0).
#[derive(Debug, PartialEq)]
pub struct MatchCandidate {
    pub provider_product_id: String,
    pub product_id: String,
    pub score: u64,
}

/// A candidate as plain values: (provider product id, product id, score).
pub type CandidateView = (Seq<char>, Seq<char>, u64);

pub open spec fn cand_view(c: MatchCandidate) -> CandidateView {
    (c.provider_product_id@, c.product_id@, c.score)
}

pub open spec fn cand_views(cs: Seq<MatchCandidate>) -> Seq<CandidateView> {
    cs.map_values(|c: MatchCandidate| cand_view(c))
}

impl MatchCandidate {
    /// A copy of this candidate.
    pub fn duplicate(&self) -> (r: MatchCandidate)
        ensures
            cand_view(r) == cand_view(*self),
    {
        MatchCandidate {
            provider_product_id: self.provider_product_id.clone(),
            product_id: self.product_id.clone(),
            score: self.score,
        }
    }
}

/// Where `x` goes in `s` sorted by non-increasing score: after every
/// element scoring at least as high (so equal scores keep their order).
pub open spec fn score_pos(s: Seq<CandidateView>, x: CandidateView) -> int
    decreases s.len(),
{
    if s.len() == 0 {
        0
    } else if s.last().2 < x.2 {
        score_pos(s.drop_last(), x)
    } else {
        s.len() as int
    }
}

/// `s` sorted by non-increasing score, stably (what `sort_by` with the
/// reversed score comparison yields).
pub open spec fn sort_by_score(s: Seq<CandidateView>) -> Seq<CandidateView>
    decreases s.len(),
{
    if s.len() == 0 {
        seq![]
    } else {
        let t = sort_by_score(s.drop_last());
        let j = score_pos(t, s.last());
        t.take(j) + seq![s.last()] + t.skip(j)
    }
}

/// Whether some element of `w` has provider product `pp`.
pub open spec fn has_provider_product(w: Seq<CandidateView>, pp: Seq<char>) -> bool {
    exists|k: int| 0 <= k < w.len() && (#[trigger] w[k]).0 == pp
}

/// Whether some element of `w` has product `p`.
pub open spec fn has_product(w: Seq<CandidateView>, p: Seq<char>) -> bool {
    exists|k: int| 0 <= k < w.len() && (#[trigger] w[k]).1 == p
}

/// The greedy choice over `sorted`, in order: a candidate wins when neither
/// its provider product nor its product is taken by an earlier winner.
pub open spec fn greedy(sorted: Seq<CandidateView>) -> Seq<CandidateView>
    decreases sorted.len(),
{
    if sorted.len() == 0 {
        seq![]
    } else {
        let w = greedy(sorted.drop_last());
        let c = sorted.last();
        if !has_product(w, c.1) && !has_provider_product(w, c.0) {
            w.push(c)
        } else {
            w
        }
    }
}

/// The winners of one provider group.
pub open spec fn assigned(cands: Seq<CandidateView>) -> Seq<CandidateView> {
    greedy(sort_by_score(cands))
}

proof fn lemma_score_pos_bounds(s: Seq<CandidateView>, x: CandidateView)
    ensures
        0 <= score_pos(s, x) <= s.len(),
    decreases s.len(),
{
    if s.len() > 0 && s.last().2 < x.2 {
        lemma_score_pos_bounds(s.drop_last(), x);
    }
}

fn sort_candidates(cands: &Vec<MatchCandidate>) -> (r: Vec<MatchCandidate>)
    ensures
        cand_views(r@) == sort_by_score(cand_views(cands@)),
{
    let ghost cv = cand_views(cands@);
    let mut sorted: Vec<MatchCandidate> = Vec::new();
    for i in 0..cands.len()
        invariant
            cv == cand_views(cands@),
            cand_views(sorted@) == sort_by_score(cv.take(i as int)),
    {
        let x = cands[i].duplicate();
        let ghost pre = cv.take(i as int);
        assert(cv.take(i + 1).drop_last() =~= pre);
        assert(cand_view(x) == cv[i as int]);
        let ghost t = cand_views(sorted@);
        let mut j = sorted.len();
        assert(t.take(j as int) =~= t);
        while j > 0 && sorted[j - 1].score < x.score
            invariant
                j <= sorted@.len(),
                t == cand_views(sorted@),
                score_pos(t, cand_view(x)) == score_pos(t.take(j as int), cand_view(x)),
            decreases j,
        {
            assert(t.take(j as int).drop_last() =~= t.take(j - 1));
            j = j - 1;
        }
        proof {
            if j > 0 {
                assert(t.take(j as int).last() == t[j - 1]);
            }
        }
        sorted.insert(j, x);
        assert(cand_views(sorted@) =~= t.take(j as int) + seq![cv[i as int]] + t.skip(j as int));
    }
    assert(cv.take(cands.len() as int) =~= cv);
    sorted
}

/// Greedily assigns canonical products to provider products within one
/// provider group: the candidates are taken by non-increasing score (equal
/// scores in their given order) and a candidate wins when its provider
/// product has no winner yet and its product has not been claimed by
/// another winner. Returns the winners in that order.
pub fn assign_group(candidates: &Vec<MatchCandidate>) -> (r: Vec<MatchCandidate>)
    ensures
        cand_views(r@) == assigned(cand_views(candidates@)),
{
    let sorted = sort_candidates(candidates);
    let ghost sv = cand_views(sorted@);
    let mut winners: Vec<MatchCandidate> = Vec::new();
    for i in 0..sorted.len()
        invariant
            sv == cand_views(sorted@),
            cand_views(winners@) == greedy(sv.take(i as int)),
    {
        let c = &sorted[i];
        let ghost pre = sv.take(i as int);
        let ghost w = cand_views(winners@);
        assert(sv.take(i + 1).drop_last() =~= pre);
        assert(sv.take(i + 1).last() == cand_view(*c));
        let mut product_claimed = false;
        let mut provider_assigned = false;
        for k in 0..winners.len()
            invariant
                w == cand_views(winners@),
                product_claimed == exists|m: int| 0 <= m < k && (#[trigger] w[m]).1 == c.product_id@,
                provider_assigned == exists|m: int|
                    0 <= m < k && (#[trigger] w[m]).0 == c.provider_product_id@,
        {
            assert(w[k as int] == cand_view(winners@[k as int]));
            if winners[k].product_id == c.product_id {
                product_claimed = true;
            }
            if winners[k].provider_product_id == c.provider_product_id {
                provider_assigned = true;
            }
        }
        if !product_claimed && !provider_assigned {
            let d = c.duplicate();
            winners.push(d);
            assert(cand_views(winners@) =~= w.push(cand_view(*c)));
        }
    }
    assert(sv.take(sorted.len() as int) =~= sv);
    winners
}


/// Whether `s` is ordered by non-increasing score.
pub open spec fn by_score_desc(s: Seq<CandidateView>) -> bool {
    forall|i: int, j: int| 0 <= i < j < s.len() ==> s[i].2 >= s[j].2
}

proof fn lemma_score_pos_split(t: Seq<CandidateView>, x: CandidateView)
    requires
        by_score_desc(t),
    ensures
        forall|i: int| 0 <= i < score_pos(t, x) ==> t[i].2 >= x.2,
        forall|i: int| score_pos(t, x) <= i < t.len() ==> t[i].2 < x.2,
    decreases t.len(),
{
    lemma_score_pos_bounds(t, x);
    if t.len() > 0 && t.last().2 < x.2 {
        let u = t.drop_last();
        assert(by_score_desc(u));
        lemma_score_pos_split(u, x);
        lemma_score_pos_bounds(u, x);
        assert forall|i: int| score_pos(t, x) <= i < t.len() implies t[i].2 < x.2 by {
            if i < t.len() - 1 {
                assert(u[i] == t[i]);
            }
        }
        assert forall|i: int| 0 <= i < score_pos(t, x) implies t[i].2 >= x.2 by {
            assert(u[i] == t[i]);
        }
    }
}

/// Sorting by score orders by non-increasing score and keeps exactly the
/// same elements.
pub proof fn lemma_sort_by_score(s: Seq<CandidateView>)
    ensures
        by_score_desc(sort_by_score(s)),
        sort_by_score(s).len() == s.len(),
        forall|x: CandidateView| sort_by_score(s).contains(x) <==> s.contains(x),
    decreases s.len(),
{
    if s.len() > 0 {
        let u = s.drop_last();
        lemma_sort_by_score(u);
        let t = sort_by_score(u);
        let x = s.last();
        lemma_score_pos_bounds(t, x);
        lemma_score_pos_split(t, x);
        let j = score_pos(t, x);
        let r = t.take(j) + seq![x] + t.skip(j);
        assert(r == sort_by_score(s));
        assert forall|a: int, b: int| 0 <= a < b < r.len() implies r[a].2 >= r[b].2 by {
            if a < j && b < j {
                assert(r[a] == t[a] && r[b] == t[b]);
            } else if a < j && b == j {
                assert(r[a] == t[a]);
            } else if a < j && b > j {
                assert(r[a] == t[a] && r[b] == t[b - 1]);
            } else if a == j {
                assert(r[b] == t[b - 1]);
            } else {
                assert(r[a] == t[a - 1] && r[b] == t[b - 1]);
            }
        }
        assert forall|y: CandidateView| r.contains(y) <==> s.contains(y) by {
            if r.contains(y) {
                let k = choose|k: int| 0 <= k < r.len() && r[k] == y;
                if k < j {
                    assert(t[k] == y);
                    assert(u.contains(y));
                    let m = choose|m: int| 0 <= m < u.len() && u[m] == y;
                    assert(s[m] == y);
                } else if k == j {
                    assert(s[s.len() - 1] == y);
                } else {
                    assert(t[k - 1] == y);
                    assert(u.contains(y));
                    let m = choose|m: int| 0 <= m < u.len() && u[m] == y;
                    assert(s[m] == y);
                }
            }
            if s.contains(y) {
                let k = choose|k: int| 0 <= k < s.len() && s[k] == y;
                if k == s.len() - 1 {
                    assert(r[j] == y);
                } else {
                    assert(u[k] == y);
                    assert(u.contains(y));
                    assert(t.contains(y));
                    let m = choose|m: int| 0 <= m < t.len() && t[m] == y;
                    if m < j {
                        assert(r[m] == y);
                    } else {
                        assert(r[m + 1] == y);
                    }
                }
            }
        }
    }
}

/// Whether two candidates compete: same provider product or same product.
pub open spec fn conflicts(a: CandidateView, b: CandidateView) -> bool {
    a.0 == b.0 || a.1 == b.1
}

proof fn lemma_greedy(s: Seq<CandidateView>)
    ensures
        forall|i: int, j: int|
            0 <= i < j < greedy(s).len() ==> !conflicts(greedy(s)[i], greedy(s)[j]),
        forall|i: int| 0 <= i < greedy(s).len() ==> s.contains(#[trigger] greedy(s)[i]),
        by_score_desc(s) ==> forall|i: int|
            0 <= i < s.len() ==> greedy(s).contains(#[trigger] s[i]) || exists|k: int|
                0 <= k < greedy(s).len() && conflicts(#[trigger] greedy(s)[k], s[i])
                    && greedy(s)[k].2 >= s[i].2,
    decreases s.len(),
{
    if s.len() > 0 {
        let u = s.drop_last();
        lemma_greedy(u);
        let w = greedy(u);
        let c = s.last();
        assert forall|i: int| 0 <= i < w.len() implies s.contains(#[trigger] w[i]) by {
            assert(u.contains(w[i]));
            let m = choose|m: int| 0 <= m < u.len() && u[m] == w[i];
            assert(s[m] == w[i]);
        }
        if !has_product(w, c.1) && !has_provider_product(w, c.0) {
            let g = w.push(c);
            assert(g == greedy(s));
            assert forall|i: int, j: int| 0 <= i < j < g.len() implies !conflicts(g[i], g[j]) by {
                if j == g.len() - 1 {
                    assert(g[i] == w[i]);
                    if g[i].0 == c.0 {
                        assert(has_provider_product(w, c.0));
                    }
                    if g[i].1 == c.1 {
                        assert(has_product(w, c.1));
                    }
                } else {
                    assert(g[i] == w[i] && g[j] == w[j]);
                }
            }
            assert forall|i: int| 0 <= i < g.len() implies s.contains(#[trigger] g[i]) by {
                if i == g.len() - 1 {
                    assert(s[s.len() - 1] == g[i]);
                } else {
                    assert(g[i] == w[i]);
                }
            }
            if by_score_desc(s) {
                assert(by_score_desc(u));
                assert forall|i: int| 0 <= i < s.len() implies g.contains(#[trigger] s[i])
                    || exists|k: int| 0 <= k < g.len() && conflicts(#[trigger] g[k], s[i]) && g[k].2
                    >= s[i].2 by {
                    if i == s.len() - 1 {
                        assert(g[g.len() - 1] == s[i]);
                    } else {
                        assert(u[i] == s[i]);
                        if w.contains(s[i]) {
                            let m = choose|m: int| 0 <= m < w.len() && w[m] == s[i];
                            assert(g[m] == s[i]);
                        } else {
                            let k = choose|k: int|
                                0 <= k < w.len() && conflicts(#[trigger] w[k], u[i]) && w[k].2
                                    >= u[i].2;
                            assert(g[k] == w[k]);
                        }
                    }
                }
            }
        } else {
            assert(w == greedy(s));
            if by_score_desc(s) {
                assert(by_score_desc(u));
                assert forall|i: int| 0 <= i < s.len() implies w.contains(#[trigger] s[i])
                    || exists|k: int| 0 <= k < w.len() && conflicts(#[trigger] w[k], s[i]) && w[k].2
                    >= s[i].2 by {
                    if i == s.len() - 1 {
                        let k = if has_product(w, c.1) {
                            choose|k: int| 0 <= k < w.len() && (#[trigger] w[k]).1 == c.1
                        } else {
                            choose|k: int| 0 <= k < w.len() && (#[trigger] w[k]).0 == c.0
                        };
                        assert(u.contains(w[k]));
                        let m = choose|m: int| 0 <= m < u.len() && u[m] == w[k];
                        assert(s[m] == w[k]);
                        assert(conflicts(w[k], s[i]));
                    } else {
                        assert(u[i] == s[i]);
                    }
                }
            }
        }
    }
}

/// The assignment of one provider group never links two products to one
/// provider product nor one product to two provider products; every winner
/// is one of the candidates; and every candidate that lost competes (same
/// provider product or same product) with a winner scoring at least as
/// high.
pub proof fn lemma_assign_group_laws(cands: Seq<CandidateView>)
    ensures
        forall|i: int, j: int|
            0 <= i < j < assigned(cands).len() ==> assigned(cands)[i].0 != assigned(cands)[j].0
                && assigned(cands)[i].1 != assigned(cands)[j].1,
        forall|i: int| 0 <= i < assigned(cands).len() ==> cands.contains(#[trigger] assigned(cands)[i]),
        forall|x: CandidateView|
            #[trigger] cands.contains(x) ==> assigned(cands).contains(x) || exists|k: int|
                0 <= k < assigned(cands).len() && conflicts(#[trigger] assigned(cands)[k], x)
                    && assigned(cands)[k].2 >= x.2,
{
    let t = sort_by_score(cands);
    lemma_sort_by_score(cands);
    lemma_greedy(t);
    let w = assigned(cands);
    assert forall|i: int, j: int| 0 <= i < j < w.len() implies w[i].0 != w[j].0 && w[i].1 != w[j].1 by {
        assert(!conflicts(w[i], w[j]));
    }
    assert forall|i: int| 0 <= i < w.len() implies cands.contains(#[trigger] w[i]) by {
        assert(t.contains(w[i]));
    }
    assert forall|x: CandidateView| #[trigger] cands.contains(x) implies w.contains(x) || exists|k: int|
        0 <= k < w.len() && conflicts(#[trigger] w[k], x) && w[k].2 >= x.2 by {
        assert(t.contains(x));
        let m = choose|m: int| 0 <= m < t.len() && t[m] == x;
        assert(w.contains(t[m]) || exists|k: int|
            0 <= k < w.len() && conflicts(#[trigger] w[k], t[m]) && w[k].2 >= t[m].2);
    }
}

} // verus!
