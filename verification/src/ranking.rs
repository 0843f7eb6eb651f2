//! Ranking the `div`s of a page as candidate product containers.
//!
//! Every element is credited with the `div`s and price elements of its
//! subtree (counting through element children that come later in the
//! document's node order). A `div` holding at least two price elements is a
//! candidate; candidates with fewer than half the prices of the richest one
//! are dropped, and the rest are ordered by price density (prices per
//! `div`), densest first, ties keeping document order.

use vstd::prelude::*;

use crate::dom::{attr, classes, is_element, valid, Dom, NodeView};
use crate::grid::{entries_view, in_entries, is_div, PriceList};
use crate::prices::Price;

verus! {

/// `a + b`, capped at `usize::MAX`.
pub open spec fn sat_add(a: nat, b: nat) -> nat {
    if a + b > usize::MAX {
        usize::MAX as nat
    } else {
        a + b
    }
}

/// The `(div, price)` counts of element `i`: itself, plus the counts of its
/// element children that come after it in node order.
pub open spec fn tally(d: Seq<NodeView>, e: Seq<(int, PriceList)>, i: int) -> (nat, nat)
    decreases d.len() - i, 1int, 0int,
{
    if !is_element(d, i) {
        (0, 0)
    } else {
        let own: (nat, nat) = (
            if is_div(d, i) {
                1
            } else {
                0
            },
            if in_entries(e, i) {
                1
            } else {
                0
            },
        );
        tally_acc(d, e, i, d[i].children, own)
    }
}

/// `base` plus the counts of the element children `cs` of `i` that come
/// after `i`, added left to right.
pub open spec fn tally_acc(
    d: Seq<NodeView>,
    e: Seq<(int, PriceList)>,
    i: int,
    cs: Seq<usize>,
    base: (nat, nat),
) -> (nat, nat)
    decreases d.len() - i, 0int, cs.len(),
{
    if cs.len() == 0 || !valid(d, i) {
        base
    } else {
        let r = tally_acc(d, e, i, cs.drop_last(), base);
        let c = cs.last() as int;
        if i < c && is_element(d, c) {
            let t = tally(d, e, c);
            (sat_add(r.0, t.0), sat_add(r.1, t.1))
        } else {
            r
        }
    }
}

/// The candidate containers among the nodes before `k`: every `div` with at
/// least two price elements, as `(node, prices, divs)`.
pub open spec fn candidates_upto(d: Seq<NodeView>, e: Seq<(int, PriceList)>, k: int) -> Seq<
    (int, nat, nat),
>
    decreases k,
{
    if k <= 0 {
        seq![]
    } else {
        let r = candidates_upto(d, e, k - 1);
        let t = tally(d, e, k - 1);
        if is_div(d, k - 1) && t.1 >= 2 {
            r.push((k - 1, t.1, t.0))
        } else {
            r
        }
    }
}

/// The largest price count among `c` (0 for none).
pub open spec fn max_prices(c: Seq<(int, nat, nat)>) -> nat
    decreases c.len(),
{
    if c.len() == 0 {
        0
    } else {
        let m = max_prices(c.drop_last());
        if c.last().1 > m {
            c.last().1
        } else {
            m
        }
    }
}

/// The candidates holding at least half (rounded down) as many prices as
/// the richest one.
pub open spec fn retained(c: Seq<(int, nat, nat)>) -> Seq<(int, nat, nat)> {
    c.filter(|x: (int, nat, nat)| x.1 >= max_prices(c) / 2)
}

/// Whether `a` has a strictly higher price density than `b`.
pub open spec fn denser(a: (int, nat, nat), b: (int, nat, nat)) -> bool {
    a.1 * b.2 > b.1 * a.2
}

/// Where `x` goes in `s`: after every element at least as dense.
pub open spec fn dense_pos(s: Seq<(int, nat, nat)>, x: (int, nat, nat)) -> int
    decreases s.len(),
{
    if s.len() == 0 {
        0
    } else if denser(x, s.last()) {
        dense_pos(s.drop_last(), x)
    } else {
        s.len() as int
    }
}

/// `s` ordered by density, densest first, ties in their given order.
pub open spec fn by_density(s: Seq<(int, nat, nat)>) -> Seq<(int, nat, nat)>
    decreases s.len(),
{
    if s.len() == 0 {
        seq![]
    } else {
        let t = by_density(s.drop_last());
        let j = dense_pos(t, s.last());
        t.take(j) + seq![s.last()] + t.skip(j)
    }
}

/// The candidate containers for the price elements `e`, best first.
pub open spec fn ranked(d: Seq<NodeView>, e: Seq<(int, PriceList)>) -> Seq<(int, nat, nat)> {
    by_density(retained(candidates_upto(d, e, d.len() as int)))
}

/// Candidates as plain values.
pub open spec fn cands_view(v: Seq<(usize, usize, usize)>) -> Seq<(int, nat, nat)> {
    v.map_values(|x: (usize, usize, usize)| (x.0 as int, x.1 as nat, x.2 as nat))
}

pub proof fn lemma_dense_pos_bounds(s: Seq<(int, nat, nat)>, x: (int, nat, nat))
    ensures
        0 <= dense_pos(s, x) <= s.len(),
    decreases s.len(),
{
    if s.len() > 0 && denser(x, s.last()) {
        lemma_dense_pos_bounds(s.drop_last(), x);
    }
}

pub proof fn lemma_candidates_valid(d: Seq<NodeView>, e: Seq<(int, PriceList)>, k: int)
    requires
        k <= d.len(),
    ensures
        forall|j: int|
            0 <= j < candidates_upto(d, e, k).len() ==> 0 <= (#[trigger] candidates_upto(d, e, k)[j]).0 < d.len(),
    decreases k,
{
    if k > 0 {
        lemma_candidates_valid(d, e, k - 1);
        let r = candidates_upto(d, e, k - 1);
        let c = candidates_upto(d, e, k);
        assert forall|j: int| 0 <= j < c.len() implies 0 <= (#[trigger] c[j]).0 < d.len() by {
            if j < r.len() {
                assert(c[j] == r[j]);
            }
        }
    }
}

pub proof fn lemma_by_density_contains(s: Seq<(int, nat, nat)>)
    ensures
        by_density(s).len() == s.len(),
        forall|x: (int, nat, nat)| by_density(s).contains(x) ==> s.contains(x),
    decreases s.len(),
{
    if s.len() > 0 {
        let u = s.drop_last();
        lemma_by_density_contains(u);
        let t = by_density(u);
        let x = s.last();
        lemma_dense_pos_bounds(t, x);
        let j = dense_pos(t, x);
        let r = t.take(j) + seq![x] + t.skip(j);
        assert(r == by_density(s));
        assert forall|y: (int, nat, nat)| r.contains(y) implies s.contains(y) by {
            let k = choose|k: int| 0 <= k < r.len() && r[k] == y;
            if k == j {
                assert(s[s.len() - 1] == y);
            } else {
                let m = if k < j {
                    k
                } else {
                    k - 1
                };
                assert(t[m] == y);
                assert(t.contains(y));
                assert(u.contains(y));
                let i = choose|i: int| 0 <= i < u.len() && u[i] == y;
                assert(s[i] == y);
            }
        }
    }
}

/// Every ranked container is a node of the page.
pub proof fn lemma_ranked_valid(d: Seq<NodeView>, e: Seq<(int, PriceList)>)
    ensures
        forall|j: int| 0 <= j < ranked(d, e).len() ==> 0 <= (#[trigger] ranked(d, e)[j]).0 < d.len(),
{
    let c = candidates_upto(d, e, d.len() as int);
    lemma_candidates_valid(d, e, d.len() as int);
    let f = retained(c);
    lemma_by_density_contains(f);
    assert forall|j: int| 0 <= j < ranked(d, e).len() implies 0 <= (#[trigger] ranked(d, e)[j]).0 < d.len() by {
        let x = ranked(d, e)[j];
        assert(by_density(f).contains(x));
        assert(f.contains(x));
        c.lemma_filter_contains_rev(|x: (int, nat, nat)| x.1 >= max_prices(c) / 2, x);
        let i = choose|i: int| 0 <= i < c.len() && c[i] == x;
        assert(0 <= c[i].0 < d.len());
    }
}

proof fn lemma_tally_acc_grows(d: Seq<NodeView>, e: Seq<(int, PriceList)>, i: int, cs: Seq<usize>, base: (nat, nat))
    requires
        base.0 <= usize::MAX,
    ensures
        base.0 <= tally_acc(d, e, i, cs, base).0 <= usize::MAX,
    decreases cs.len(),
{
    if cs.len() > 0 && valid(d, i) {
        lemma_tally_acc_grows(d, e, i, cs.drop_last(), base);
    }
}

/// Every candidate counts itself among its `div`s.
proof fn lemma_candidates_have_divs(d: Seq<NodeView>, e: Seq<(int, PriceList)>, k: int)
    ensures
        forall|j: int|
            0 <= j < candidates_upto(d, e, k).len() ==> (#[trigger] candidates_upto(d, e, k)[j]).2 >= 1
                && candidates_upto(d, e, k)[j].1 >= 2,
    decreases k,
{
    if k > 0 {
        lemma_candidates_have_divs(d, e, k - 1);
        let r = candidates_upto(d, e, k - 1);
        let c = candidates_upto(d, e, k);
        if is_div(d, k - 1) {
            let own: (nat, nat) = (1, if in_entries(e, k - 1) {
                1
            } else {
                0
            });
            lemma_tally_acc_grows(d, e, k - 1, d[k - 1].children, own);
        }
        assert forall|j: int| 0 <= j < c.len() implies (#[trigger] c[j]).2 >= 1 && c[j].1 >= 2 by {
            if j < r.len() {
                assert(c[j] == r[j]);
            }
        }
    }
}

/// Whether no element of `s` is denser than one before it.
pub open spec fn density_sorted(s: Seq<(int, nat, nat)>) -> bool {
    forall|i: int, j: int| 0 <= i < j < s.len() ==> !denser(#[trigger] s[j], #[trigger] s[i])
}

/// Whether every element of `s` counts at least one `div`.
pub open spec fn has_divs(s: Seq<(int, nat, nat)>) -> bool {
    forall|i: int| 0 <= i < s.len() ==> (#[trigger] s[i]).2 >= 1
}

proof fn lemma_not_denser_transitive(a: (int, nat, nat), b: (int, nat, nat), c: (int, nat, nat))
    requires
        b.2 >= 1,
        !denser(a, b),
        !denser(b, c),
    ensures
        !denser(a, c),
{
    let (a1, a2, b1, b2, c1, c2) = (a.1 as int, a.2 as int, b.1 as int, b.2 as int, c.1 as int, c.2 as int);
    assert(a1 * c2 <= c1 * a2) by (nonlinear_arith)
        requires
            a1 * b2 <= b1 * a2,
            b1 * c2 <= c1 * b2,
            b2 >= 1,
            a1 >= 0,
            a2 >= 0,
            b1 >= 0,
            c1 >= 0,
            c2 >= 0,
    {
        assert(a1 * b2 * c2 <= b1 * a2 * c2);
        assert(b1 * c2 * a2 <= c1 * b2 * a2);
        assert(a1 * c2 * b2 <= c1 * a2 * b2);
    }
}

proof fn lemma_dense_pos_sorted(t: Seq<(int, nat, nat)>, x: (int, nat, nat))
    requires
        density_sorted(t),
        has_divs(t),
    ensures
        forall|i: int| 0 <= i < dense_pos(t, x) ==> !denser(x, #[trigger] t[i]),
        forall|i: int| dense_pos(t, x) <= i < t.len() ==> denser(x, #[trigger] t[i]),
    decreases t.len(),
{
    if t.len() > 0 {
        let u = t.drop_last();
        assert forall|i: int, j: int| 0 <= i < j < u.len() implies !denser(#[trigger] u[j], #[trigger] u[i]) by {
            assert(u[i] == t[i] && u[j] == t[j]);
        }
        assert forall|i: int| 0 <= i < u.len() implies (#[trigger] u[i]).2 >= 1 by {
            assert(u[i] == t[i]);
        }
        lemma_dense_pos_sorted(u, x);
        lemma_dense_pos_bounds(u, x);
        let l = t[t.len() - 1];
        if denser(x, l) {
            assert forall|i: int| 0 <= i < dense_pos(t, x) implies !denser(x, #[trigger] t[i]) by {
                assert(u[i] == t[i]);
            }
            assert forall|i: int| dense_pos(t, x) <= i < t.len() implies denser(x, #[trigger] t[i]) by {
                if i < u.len() {
                    assert(u[i] == t[i]);
                }
            }
        } else {
            assert forall|i: int| 0 <= i < t.len() implies !denser(x, #[trigger] t[i]) by {
                if i < t.len() - 1 {
                    assert(!denser(l, t[i]));
                    lemma_not_denser_transitive(x, l, t[i]);
                }
            }
        }
    }
}

proof fn lemma_by_density_sorted(s: Seq<(int, nat, nat)>)
    requires
        has_divs(s),
    ensures
        density_sorted(by_density(s)),
        has_divs(by_density(s)),
        by_density(s).len() == s.len(),
    decreases s.len(),
{
    if s.len() > 0 {
        let u = s.drop_last();
        let x = s.last();
        assert forall|i: int| 0 <= i < u.len() implies (#[trigger] u[i]).2 >= 1 by {
            assert(u[i] == s[i]);
        }
        lemma_by_density_sorted(u);
        let t = by_density(u);
        lemma_dense_pos_bounds(t, x);
        lemma_dense_pos_sorted(t, x);
        let j = dense_pos(t, x);
        let r = by_density(s);
        assert(r == t.take(j) + seq![x] + t.skip(j));
        assert(r.len() == s.len());
        assert forall|a: int| 0 <= a < r.len() implies (#[trigger] r[a]).2 >= 1 by {
            if a < j {
                assert(r[a] == t[a]);
            } else if a > j {
                assert(r[a] == t[a - 1]);
            }
        }
        assert forall|a: int, b: int| 0 <= a < b < r.len() implies !denser(#[trigger] r[b], #[trigger] r[a]) by {
            if b < j {
                assert(r[a] == t[a] && r[b] == t[b]);
            } else if b == j {
                assert(r[a] == t[a] && r[b] == x);
            } else if a == j {
                assert(r[a] == x && r[b] == t[b - 1]);
                assert(denser(x, t[b - 1]));
            } else if a < j {
                assert(r[a] == t[a] && r[b] == t[b - 1]);
            } else {
                assert(r[a] == t[a - 1] && r[b] == t[b - 1]);
            }
        }
    }
}

/// The candidate containers come best first: each holds at least two
/// prices and at least half as many as the richest candidate, none is
/// denser in prices than one ranked before it, and there is a first one
/// whenever some `div` holds two prices. The detected grid is the first.
pub proof fn lemma_ranked_order(d: Seq<NodeView>, e: Seq<(int, PriceList)>)
    ensures
        density_sorted(ranked(d, e)),
        forall|i: int|
            0 <= i < ranked(d, e).len() ==> (#[trigger] ranked(d, e)[i]).1 >= 2 && ranked(d, e)[i].1 >= max_prices(
                candidates_upto(d, e, d.len() as int),
            ) / 2,
        candidates_upto(d, e, d.len() as int).len() > 0 ==> ranked(d, e).len() > 0,
{
    let c = candidates_upto(d, e, d.len() as int);
    lemma_candidates_have_divs(d, e, d.len() as int);
    let p = |x: (int, nat, nat)| x.1 >= max_prices(c) / 2;
    let f = c.filter(p);
    assert(f == retained(c));
    assert forall|i: int| 0 <= i < f.len() implies (#[trigger] f[i]).2 >= 1 && f[i].1 >= 2 && f[i].1 >= max_prices(c)
        / 2 by {
        assert(f.contains(f[i]));
        c.lemma_filter_contains_rev(p, f[i]);
    }
    lemma_by_density_sorted(f);
    lemma_by_density_contains(f);
    let r = ranked(d, e);
    assert forall|i: int| 0 <= i < r.len() implies (#[trigger] r[i]).1 >= 2 && r[i].1 >= max_prices(c) / 2 by {
        assert(r.contains(r[i]));
        assert(f.contains(r[i]));
        let k = choose|k: int| 0 <= k < f.len() && f[k] == r[i];
        assert(f[k].1 >= 2);
    }
    if c.len() > 0 {
        lemma_max_prices_attained(c);
        let m = choose|k: int| 0 <= k < c.len() && c[k].1 == max_prices(c);
        assert(p(c[m]));
        c.lemma_filter_contains(p, m);
        assert(f.len() > 0);
    }
}

proof fn lemma_max_prices_attained(c: Seq<(int, nat, nat)>)
    requires
        c.len() > 0,
    ensures
        exists|k: int| 0 <= k < c.len() && c[k].1 == max_prices(c),
    decreases c.len(),
{
    if c.len() == 1 {
        assert(c.drop_last().len() == 0);
        assert(max_prices(c.drop_last()) == 0);
        assert(c.last() == c[0]);
        assert(c[0].1 == max_prices(c));
    } else {
        let u = c.drop_last();
        lemma_max_prices_attained(u);
        if c.last().1 > max_prices(u) {
            assert(c[c.len() - 1].1 == max_prices(c));
        } else {
            let k = choose|k: int| 0 <= k < u.len() && u[k].1 == max_prices(u);
            assert(c[k] == u[k]);
        }
    }
}

/// For each node, its `(div, price)` counts (see [`tally`]).
fn tallies(dom: &Dom, e: &Vec<(usize, Vec<Price>)>) -> (r: (Vec<usize>, Vec<usize>))
    ensures
        r.0@.len() == dom.view_nodes().len(),
        r.1@.len() == dom.view_nodes().len(),
        forall|i: int|
            0 <= i < dom.view_nodes().len() ==> r.0@[i] == tally(dom.view_nodes(), entries_view(e@), i).0
                && r.1@[i] == tally(dom.view_nodes(), entries_view(e@), i).1,
{
    let ghost d = dom.view_nodes();
    let ghost ev = entries_view(e@);
    let n = dom.len();
    let flags = crate::grid::entry_flags(n, e);
    let mut divs: Vec<usize> = Vec::new();
    let mut prices: Vec<usize> = Vec::new();
    for k in 0..n
        invariant
            divs@.len() == k,
            prices@.len() == k,
    {
        divs.push(0);
        prices.push(0);
    }
    let mut i = n;
    while i > 0
        invariant
            d == dom.view_nodes(),
            ev == entries_view(e@),
            n == d.len(),
            i <= n,
            flags@.len() == n,
            forall|c: int| 0 <= c < n ==> flags@[c] == in_entries(ev, c),
            divs@.len() == n,
            prices@.len() == n,
            forall|j: int|
                i <= j < n ==> divs@[j] == tally(d, ev, j).0 && prices@[j] == tally(d, ev, j).1,
        decreases i,
    {
        i = i - 1;
        if dom.is_element(i) {
            let mut dv: usize = if dom.is_tag(i, "div") {
                1
            } else {
                0
            };
            let mut pv: usize = if flags[i] {
                1
            } else {
                0
            };
            let ghost base: (nat, nat) = (dv as nat, pv as nat);
            let cs = dom.children(i);
            for k in 0..cs.len()
                invariant
                    d == dom.view_nodes(),
                    ev == entries_view(e@),
                    n == d.len(),
                    i < n,
                    cs@ == d[i as int].children,
                    divs@.len() == n,
                    prices@.len() == n,
                    forall|j: int|
                        i < j < n ==> divs@[j] == tally(d, ev, j).0 && prices@[j] == tally(d, ev, j).1,
                    (dv as nat, pv as nat) == tally_acc(d, ev, i as int, cs@.take(k as int), base),
            {
                let c = cs[k];
                assert(cs@.take(k + 1).drop_last() =~= cs@.take(k as int));
                assert(cs@.take(k + 1).last() == c);
                if c > i && c < n && dom.is_element(c) {
                    dv = dv.saturating_add(divs[c]);
                    pv = pv.saturating_add(prices[c]);
                }
            }
            assert(cs@.take(cs.len() as int) =~= cs@);
            divs.set(i, dv);
            prices.set(i, pv);
        } else {
            divs.set(i, 0);
            prices.set(i, 0);
        }
    }
    (divs, prices)
}

/// The candidate containers for the price elements `e` (see
/// [`candidates_upto`]).
fn candidates_of(dom: &Dom, e: &Vec<(usize, Vec<Price>)>) -> (r: Vec<(usize, usize, usize)>)
    ensures
        cands_view(r@) == candidates_upto(dom.view_nodes(), entries_view(e@), dom.view_nodes().len() as int),
{
    let ghost d = dom.view_nodes();
    let ghost ev = entries_view(e@);
    let (divs, prices) = tallies(dom, e);
    let n = dom.len();
    let mut out: Vec<(usize, usize, usize)> = Vec::new();
    for k in 0..n
        invariant
            d == dom.view_nodes(),
            ev == entries_view(e@),
            n == d.len(),
            divs@.len() == n,
            prices@.len() == n,
            forall|j: int|
                0 <= j < n ==> divs@[j] == tally(d, ev, j).0 && prices@[j] == tally(d, ev, j).1,
            cands_view(out@) == candidates_upto(d, ev, k as int),
    {
        if dom.is_tag(k, "div") && prices[k] >= 2 {
            let ghost o = cands_view(out@);
            out.push((k, prices[k], divs[k]));
            assert(cands_view(out@) =~= o.push((k as int, prices@[k as int] as nat, divs@[k as int] as nat)));
        }
    }
    out
}

/// Whether `a` is strictly denser than `b`, compared exactly by cross
/// multiplication.
fn is_denser(a: (usize, usize, usize), b: (usize, usize, usize)) -> (r: bool)
    ensures
        r == denser((a.0 as int, a.1 as nat, a.2 as nat), (b.0 as int, b.1 as nat, b.2 as nat)),
{
    let x = a.1 as u128;
    let y = b.2 as u128;
    let z = b.1 as u128;
    let w = a.2 as u128;
    assert(x * y <= u64::MAX * u64::MAX) by (nonlinear_arith)
        requires
            x <= u64::MAX,
            y <= u64::MAX,
    ;
    assert(z * w <= u64::MAX * u64::MAX) by (nonlinear_arith)
        requires
            z <= u64::MAX,
            w <= u64::MAX,
    ;
    x * y > z * w
}

/// The candidate containers for the price elements `e`, best first (see
/// [`ranked`]).
pub fn ranked_containers(dom: &Dom, e: &Vec<(usize, Vec<Price>)>) -> (r: Vec<(usize, usize, usize)>)
    ensures
        cands_view(r@) == ranked(dom.view_nodes(), entries_view(e@)),
{
    let ghost d = dom.view_nodes();
    let cands = candidates_of(dom, e);
    let ghost cv = cands_view(cands@);
    let mut max_p: usize = 0;
    for k in 0..cands.len()
        invariant
            cv == cands_view(cands@),
            max_p == max_prices(cv.take(k as int)),
    {
        assert(cv.take(k + 1).drop_last() =~= cv.take(k as int));
        assert(cv.take(k + 1).last() == cv[k as int]);
        if cands[k].1 > max_p {
            max_p = cands[k].1;
        }
    }
    assert(cv.take(cands.len() as int) =~= cv);
    let ghost p = |x: (int, nat, nat)| x.1 >= max_prices(cv) / 2;
    let mut kept: Vec<(usize, usize, usize)> = Vec::new();
    for k in 0..cands.len()
        invariant
            cv == cands_view(cands@),
            max_p == max_prices(cv),
            p == (|x: (int, nat, nat)| x.1 >= max_prices(cv) / 2),
            cands_view(kept@) == cv.take(k as int).filter(p),
    {
        proof {
            assert(cv.take(k + 1) =~= cv.take(k as int).push(cv[k as int]));
            crate::text::lemma_filter_push(cv.take(k as int), cv[k as int], p);
        }
        if cands[k].1 >= max_p / 2 {
            let ghost o = cands_view(kept@);
            kept.push(cands[k]);
            assert(cands_view(kept@) =~= o.push(cv[k as int]));
        }
    }
    assert(cv.take(cands.len() as int) =~= cv);
    let ghost kv = cands_view(kept@);
    assert(kv == retained(cv));
    let mut sorted: Vec<(usize, usize, usize)> = Vec::new();
    for i in 0..kept.len()
        invariant
            kv == cands_view(kept@),
            cands_view(sorted@) == by_density(kv.take(i as int)),
    {
        let x = kept[i];
        let ghost pre = kv.take(i as int);
        assert(kv.take(i + 1).drop_last() =~= pre);
        assert(kv.take(i + 1).last() == kv[i as int]);
        let ghost t = cands_view(sorted@);
        let mut j = sorted.len();
        assert(t.take(j as int) =~= t);
        while j > 0 && is_denser(x, sorted[j - 1])
            invariant
                j <= sorted@.len(),
                t == cands_view(sorted@),
                kv[i as int] == (x.0 as int, x.1 as nat, x.2 as nat),
                dense_pos(t, kv[i as int]) == dense_pos(t.take(j as int), kv[i as int]),
            decreases j,
        {
            assert(t.take(j as int).drop_last() =~= t.take(j - 1));
            assert(t.take(j as int).last() == t[j - 1]);
            j = j - 1;
        }
        proof {
            if j > 0 {
                assert(t.take(j as int).last() == t[j - 1]);
            }
        }
        sorted.insert(j, x);
        assert(cands_view(sorted@) =~= t.take(j as int) + seq![kv[i as int]] + t.skip(j as int));
    }
    assert(kv.take(kept.len() as int) =~= kv);
    sorted
}

/// The selected container: a plain view of its classes, `id` attribute and
/// price count.
pub open spec fn container_view(d: Seq<NodeView>, id: int, prices: nat) -> (Seq<Seq<char>>, Option<Seq<char>>, nat) {
    (classes(d, id), attr(d, id, "id"@), prices)
}

} // verus!
