//! Finding the price elements of a listing page and the container that
//! groups them into a grid.
//!
//! A price element is a `div` whose text classifies as prices (see
//! [`crate::prices::classify`]). Its text is either the text it owns (the
//! text nodes whose nearest `div` ancestor it is) or, on pages that mark
//! prices with `span.product-price`, the text of those spans. Sibling price
//! elements of an unnamed wrapper merge into the wrapper, and an element
//! that encloses another price element is dropped. The container is the
//! `div` with the densest share of price elements among those holding at
//! least half as many as the richest one.

use vstd::prelude::*;

use crate::dom::{ancestors, ancestors_f, class_contains, is_element, is_tag, is_text, node_text, texts, valid, Dom, NodeView};
use crate::names::{is_named, is_named_at};
use crate::prices::{classify, classify_chars, prices_view, Price};
use crate::text::{lemma_filter_push, seq_views, trim, trim_chars};

verus! {

/// Prices as plain values: `(amount, token)` pairs.
pub type PriceList = Seq<(Seq<char>, Seq<char>)>;

/// Whether node `i` is a `div` element.
pub open spec fn is_div(d: Seq<NodeView>, i: int) -> bool {
    is_tag(d, i, "div"@)
}

/// The first `div` among the nodes `s`.
pub open spec fn first_div(d: Seq<NodeView>, s: Seq<int>) -> Option<int>
    decreases s.len(),
{
    if s.len() == 0 {
        None
    } else if is_div(d, s[0]) {
        Some(s[0])
    } else {
        first_div(d, s.drop_first())
    }
}

/// The nearest `div` among the proper ancestors of `i`.
pub open spec fn nearest_div(d: Seq<NodeView>, i: int) -> Option<int> {
    first_div(d, ancestors(d, i))
}

/// The text that `div` `x` owns, gathered from the nodes before `k`: the
/// texts of the text nodes whose nearest `div` ancestor is `x`, in document
/// order.
pub open spec fn own_text_upto(d: Seq<NodeView>, x: int, k: int) -> Seq<char>
    decreases k,
{
    if k <= 0 {
        seq![]
    } else {
        own_text_upto(d, x, k - 1) + if is_text(d, k - 1) && nearest_div(d, k - 1) == Some(x) {
            node_text(d, k - 1)
        } else {
            seq![]
        }
    }
}

/// The text that `div` `x` owns.
pub open spec fn own_text(d: Seq<NodeView>, x: int) -> Seq<char> {
    own_text_upto(d, x, d.len() as int)
}

/// The owned text of every node.
pub open spec fn own_texts(d: Seq<NodeView>) -> Seq<Seq<char>> {
    Seq::new(d.len(), |x: int| own_text(d, x))
}

/// A `span` with a class containing `product-price`.
pub open spec fn is_price_span(d: Seq<NodeView>, i: int) -> bool {
    is_tag(d, i, "span"@) && class_contains(d, i, "product-price"@)
}

/// Whether the page marks prices with `span.product-price`.
pub open spec fn has_price_spans(d: Seq<NodeView>) -> bool {
    exists|i: int| 0 <= i < d.len() && #[trigger] is_price_span(d, i)
}

/// The text of the text children of `i`.
pub open spec fn child_text(d: Seq<NodeView>, i: int) -> Seq<char> {
    texts(d, d[i].children.map_values(|c: usize| c as int))
}

/// The price-span text of `div` `x`, gathered from the nodes before `k`:
/// the child text of every price span whose nearest `div` ancestor is `x`.
pub open spec fn span_text_upto(d: Seq<NodeView>, x: int, k: int) -> Seq<char>
    decreases k,
{
    if k <= 0 {
        seq![]
    } else {
        span_text_upto(d, x, k - 1) + if is_price_span(d, k - 1) && nearest_div(d, k - 1) == Some(
            x,
        ) {
            child_text(d, k - 1)
        } else {
            seq![]
        }
    }
}

/// The price-span text of every node.
pub open spec fn span_texts(d: Seq<NodeView>) -> Seq<Seq<char>> {
    Seq::new(d.len(), |x: int| span_text_upto(d, x, d.len() as int))
}

/// The `div`s before `k` whose text (in `t`) classifies as prices, with
/// their prices, in document order.
pub open spec fn price_divs_upto(d: Seq<NodeView>, t: Seq<Seq<char>>, k: int) -> Seq<
    (int, PriceList),
>
    decreases k,
{
    if k <= 0 {
        seq![]
    } else {
        let r = price_divs_upto(d, t, k - 1);
        if is_div(d, k - 1) && classify(t[k - 1]) is Some {
            r.push((k - 1, classify(t[k - 1]).unwrap()))
        } else {
            r
        }
    }
}

/// The price `div`s read from the texts `t`.
pub open spec fn price_divs_by(d: Seq<NodeView>, t: Seq<Seq<char>>) -> Seq<(int, PriceList)> {
    price_divs_upto(d, t, d.len() as int)
}

/// The price `div`s before merging: read from price spans when the page
/// has them and they give at least two, otherwise from owned text.
pub open spec fn leaf_price_divs(d: Seq<NodeView>) -> Seq<(int, PriceList)> {
    let by_own = price_divs_by(d, own_texts(d));
    if has_price_spans(d) {
        let by_span = price_divs_by(d, span_texts(d));
        if by_span.len() >= 2 {
            by_span
        } else {
            by_own
        }
    } else {
        by_own
    }
}

/// Price entries as plain values.
pub open spec fn entries_view(v: Seq<(usize, Vec<Price>)>) -> Seq<(int, PriceList)> {
    v.map_values(|e: (usize, Vec<Price>)| (e.0 as int, prices_view(e.1@)))
}

pub proof fn lemma_ancestors_valid(d: Seq<NodeView>, i: int, fuel: nat)
    ensures
        forall|k: int|
            0 <= k < ancestors_f(d, i, fuel).len() ==> valid(d, #[trigger] ancestors_f(d, i, fuel)[k]),
    decreases fuel,
{
    if fuel > 0 && valid(d, i) {
        match d[i].parent {
            Some(p) => {
                lemma_ancestors_valid(d, p as int, (fuel - 1) as nat);
                if valid(d, p as int) {
                    let rest = ancestors_f(d, p as int, (fuel - 1) as nat);
                    let a = ancestors_f(d, i, fuel);
                    assert(a == seq![p as int] + rest);
                    assert forall|k: int| 0 <= k < a.len() implies valid(d, #[trigger] a[k]) by {
                        if k > 0 {
                            assert(a[k] == rest[k - 1]);
                        }
                    }
                }
            },
            None => {},
        }
    }
}

pub proof fn lemma_first_div_in(d: Seq<NodeView>, s: Seq<int>)
    ensures
        first_div(d, s) matches Some(x) ==> s.contains(x) && is_div(d, x),
    decreases s.len(),
{
    if s.len() > 0 && !is_div(d, s[0]) {
        lemma_first_div_in(d, s.drop_first());
        match first_div(d, s.drop_first()) {
            Some(x) => {
                let j = choose|j: int| 0 <= j < s.drop_first().len() && s.drop_first()[j] == x;
                assert(s[j + 1] == x);
            },
            None => {},
        }
    }
}

/// The nearest `div` ancestor of `i`.
fn nearest_div_of(dom: &Dom, i: usize) -> (r: Option<usize>)
    ensures
        match r {
            Some(x) => nearest_div(dom.view_nodes(), i as int) == Some(x as int) && x
                < dom.view_nodes().len(),
            None => nearest_div(dom.view_nodes(), i as int).is_none(),
        },
{
    let ghost d = dom.view_nodes();
    let anc = dom.ancestors(i);
    let ghost av = anc@.map_values(|x: usize| x as int);
    proof {
        lemma_ancestors_valid(d, i as int, d.len());
        lemma_first_div_in(d, av);
    }
    assert(av.subrange(0, av.len() as int) =~= av);
    for k in 0..anc.len()
        invariant
            av == anc@.map_values(|x: usize| x as int),
            av == ancestors(d, i as int),
            d == dom.view_nodes(),
            first_div(d, av) == first_div(d, av.subrange(k as int, av.len() as int)),
    {
        let a = anc[k];
        assert(av.subrange(k as int, av.len() as int)[0] == a as int);
        if dom.is_tag(a, "div") {
            assert(av[k as int] == a as int);
            assert(valid(d, av[k as int]));
            return Some(a);
        }
        assert(av.subrange(k as int, av.len() as int).drop_first() =~= av.subrange(
            k + 1,
            av.len() as int,
        ));
    }
    None
}

/// Appends `t` to the text at position `x`.
fn append_at(v: &mut Vec<Vec<char>>, x: usize, t: &Vec<char>)
    requires
        x < old(v)@.len(),
    ensures
        seq_views(final(v)@) == seq_views(old(v)@).update(x as int, old(v)@[x as int]@ + t@),
{
    let ghost v0 = seq_views(v@);
    for k in 0..t.len()
        invariant
            x < v@.len(),
            v0.len() == v@.len(),
            seq_views(v@) == v0.update(x as int, v0[x as int] + t@.take(k as int)),
    {
        let ghost vb = v@;
        v[x].push(t[k]);
        assert(v@[x as int]@ == vb[x as int]@.push(t@[k as int]));
        assert(forall|j: int| 0 <= j < v@.len() && j != x ==> v@[j] == vb[j]);
        assert(t@.take(k + 1) =~= t@.take(k as int).push(t@[k as int]));
        assert(seq_views(vb)[x as int] == vb[x as int]@);
        assert(v@[x as int]@ =~= v0[x as int] + t@.take(k + 1));
        assert forall|j: int| 0 <= j < v@.len() && j != x implies seq_views(v@)[j] == v0[j] by {
            assert(seq_views(vb)[j] == vb[j]@);
        }
        assert(seq_views(v@) =~= v0.update(x as int, v0[x as int] + t@.take(k + 1)));
    }
    assert(t@.take(t@.len() as int) =~= t@);
}

/// `n` empty texts.
fn empty_texts(n: usize) -> (r: Vec<Vec<char>>)
    ensures
        seq_views(r@) == Seq::new(n as nat, |x: int| Seq::<char>::empty()),
{
    let mut out: Vec<Vec<char>> = Vec::new();
    for k in 0..n
        invariant
            seq_views(out@) == Seq::new(k as nat, |x: int| Seq::<char>::empty()),
    {
        let e: Vec<char> = Vec::new();
        assert(e@ =~= Seq::<char>::empty());
        let ghost o = out@;
        out.push(e);
        assert(seq_views(out@) =~= seq_views(o).push(e@));
        assert(seq_views(out@) =~= Seq::new((k + 1) as nat, |x: int| Seq::<char>::empty()));
    }
    out
}

/// The owned text of every node of `dom`.
pub fn owned_texts(dom: &Dom) -> (r: Vec<Vec<char>>)
    ensures
        seq_views(r@) == own_texts(dom.view_nodes()),
{
    let ghost d = dom.view_nodes();
    let n = dom.len();
    let mut out = empty_texts(n);
    assert(seq_views(out@).len() == out@.len());
    assert(seq_views(out@) =~= Seq::new(n as nat, |x: int| own_text_upto(d, x, 0)));
    for k in 0..n
        invariant
            d == dom.view_nodes(),
            n == d.len(),
            seq_views(out@) == Seq::new(n as nat, |x: int| own_text_upto(d, x, k as int)),
            out@.len() == n,
    {
        let ghost before = seq_views(out@);
        assert(seq_views(out@).len() == out@.len());
        if dom.is_text(k) {
            match nearest_div_of(dom, k) {
                Some(x) => {
                    let t = dom.node_text(k);
                    append_at(&mut out, x, &t);
                },
                None => {},
            }
        }
        assert forall|x: int| 0 <= x < n implies #[trigger] seq_views(out@)[x] == own_text_upto(
            d,
            x,
            k + 1,
        ) by {
            assert(before[x] == own_text_upto(d, x, k as int));
            assert(own_text_upto(d, x, k as int) + Seq::<char>::empty() =~= own_text_upto(
                d,
                x,
                k as int,
            ));
        }
        assert(seq_views(out@) =~= Seq::new(n as nat, |x: int| own_text_upto(d, x, k + 1)));
        assert(seq_views(out@).len() == out@.len());
    }
    assert(Seq::new(n as nat, |x: int| own_text_upto(d, x, n as int)) =~= own_texts(d));
    out
}

/// Whether node `i` is a `span.product-price`.
fn is_price_span_at(dom: &Dom, i: usize) -> (r: bool)
    ensures
        r == is_price_span(dom.view_nodes(), i as int),
{
    dom.is_tag(i, "span") && dom.class_contains(i, "product-price")
}

/// Whether `dom` has a `span.product-price`.
pub fn has_product_price_spans(dom: &Dom) -> (r: bool)
    ensures
        r == has_price_spans(dom.view_nodes()),
{
    let n = dom.len();
    for k in 0..n
        invariant
            n == dom.view_nodes().len(),
            forall|j: int| 0 <= j < k ==> !#[trigger] is_price_span(dom.view_nodes(), j),
    {
        if is_price_span_at(dom, k) {
            return true;
        }
    }
    false
}

/// The price-span text of every node of `dom`.
pub fn price_span_texts(dom: &Dom) -> (r: Vec<Vec<char>>)
    ensures
        seq_views(r@) == span_texts(dom.view_nodes()),
{
    let ghost d = dom.view_nodes();
    let n = dom.len();
    let mut out = empty_texts(n);
    assert(seq_views(out@).len() == out@.len());
    assert(seq_views(out@) =~= Seq::new(n as nat, |x: int| span_text_upto(d, x, 0)));
    for k in 0..n
        invariant
            d == dom.view_nodes(),
            n == d.len(),
            seq_views(out@) == Seq::new(n as nat, |x: int| span_text_upto(d, x, k as int)),
            out@.len() == n,
    {
        let ghost before = seq_views(out@);
        assert(seq_views(out@).len() == out@.len());
        if is_price_span_at(dom, k) {
            match nearest_div_of(dom, k) {
                Some(x) => {
                    let t = dom.texts(dom.children(k));
                    append_at(&mut out, x, &t);
                },
                None => {},
            }
        }
        assert forall|x: int| 0 <= x < n implies #[trigger] seq_views(out@)[x] == span_text_upto(
            d,
            x,
            k + 1,
        ) by {
            assert(before[x] == span_text_upto(d, x, k as int));
            assert(span_text_upto(d, x, k as int) + Seq::<char>::empty() =~= span_text_upto(
                d,
                x,
                k as int,
            ));
        }
        assert(seq_views(out@) =~= Seq::new(n as nat, |x: int| span_text_upto(d, x, k + 1)));
        assert(seq_views(out@).len() == out@.len());
    }
    assert(Seq::new(n as nat, |x: int| span_text_upto(d, x, n as int)) =~= span_texts(d));
    out
}

/// The `div`s whose text in `t` classifies as prices, with their prices.
pub fn price_divs_from(dom: &Dom, t: &Vec<Vec<char>>) -> (r: Vec<(usize, Vec<Price>)>)
    requires
        t@.len() == dom.view_nodes().len(),
    ensures
        entries_view(r@) == price_divs_by(dom.view_nodes(), seq_views(t@)),
{
    let ghost d = dom.view_nodes();
    let ghost tv = seq_views(t@);
    let n = dom.len();
    let mut out: Vec<(usize, Vec<Price>)> = Vec::new();
    for k in 0..n
        invariant
            d == dom.view_nodes(),
            tv == seq_views(t@),
            n == d.len(),
            t@.len() == n,
            entries_view(out@) == price_divs_upto(d, tv, k as int),
    {
        if dom.is_tag(k, "div") {
            assert(tv[k as int] == t@[k as int]@);
            match classify_chars(t[k].as_slice()) {
                Some(ps) => {
                    let ghost o = entries_view(out@);
                    out.push((k, ps));
                    assert(entries_view(out@) =~= o.push((k as int, classify(tv[k as int]).unwrap())));
                },
                None => {},
            }
        }
    }
    out
}

/// The price `div`s before merging (see [`leaf_price_divs`]).
pub fn leaf_price_divs_of(dom: &Dom, own: &Vec<Vec<char>>) -> (r: Vec<(usize, Vec<Price>)>)
    requires
        seq_views(own@) == own_texts(dom.view_nodes()),
    ensures
        entries_view(r@) == leaf_price_divs(dom.view_nodes()),
{
    assert(seq_views(own@).len() == own@.len());
    if has_product_price_spans(dom) {
        let spans = price_span_texts(dom);
        assert(seq_views(spans@).len() == spans@.len());
        let candidates = price_divs_from(dom, &spans);
        if candidates.len() >= 2 {
            candidates
        } else {
            price_divs_from(dom, own)
        }
    } else {
        price_divs_from(dom, own)
    }
}


/// Whether some entry of `e` is for node `c`.
pub open spec fn in_entries(e: Seq<(int, PriceList)>, c: int) -> bool {
    exists|k: int| 0 <= k < e.len() && (#[trigger] e[k]).0 == c
}

/// Whether every entry of `e` is for a node below `n`.
pub open spec fn ids_below(e: Seq<(int, PriceList)>, n: int) -> bool {
    forall|k: int| 0 <= k < e.len() ==> 0 <= (#[trigger] e[k]).0 < n
}

/// The children of `x` that have an entry in `e`, in order.
pub open spec fn price_children(d: Seq<NodeView>, e: Seq<(int, PriceList)>, x: int) -> Seq<int> {
    d[x].children.map_values(|c: usize| c as int).filter(|c: int| in_entries(e, c))
}

/// Whether `div` `x` groups the prices of its children: at least two of its
/// children have an entry, it owns no text but whitespace, and none of
/// those children names a product.
pub open spec fn groups_prices(d: Seq<NodeView>, e: Seq<(int, PriceList)>, x: int) -> bool {
    let pc = price_children(d, e, x);
    &&& is_div(d, x)
    &&& pc.len() >= 2
    &&& trim(own_text(d, x)).len() == 0
    &&& forall|k: int| 0 <= k < pc.len() ==> !is_named(d, #[trigger] pc[k])
}

/// The last node before `k` that groups the prices of `c` among its
/// children.
pub open spec fn merge_target_upto(d: Seq<NodeView>, e: Seq<(int, PriceList)>, c: int, k: int) -> Option<
    int,
>
    decreases k,
{
    if k <= 0 {
        None
    } else if valid(d, k - 1) && groups_prices(d, e, k - 1) && price_children(d, e, k - 1).contains(c) {
        Some(k - 1)
    } else {
        merge_target_upto(d, e, c, k - 1)
    }
}

/// The node that the price entry of `c` merges into, if any.
pub open spec fn merge_target(d: Seq<NodeView>, e: Seq<(int, PriceList)>, c: int) -> Option<int> {
    merge_target_upto(d, e, c, d.len() as int)
}

/// The index of the first entry of `r` for node `key`, or -1.
pub open spec fn key_index(r: Seq<(int, PriceList)>, key: int) -> int
    decreases r.len(),
{
    if r.len() == 0 {
        -1
    } else {
        let j = key_index(r.drop_last(), key);
        if j >= 0 {
            j
        } else if r.last().0 == key {
            r.len() - 1
        } else {
            -1
        }
    }
}

/// `r` with the prices of node `key` replaced by `ps`, or the entry added
/// at the end.
pub open spec fn upsert(r: Seq<(int, PriceList)>, key: int, ps: PriceList) -> Seq<(int, PriceList)> {
    let j = key_index(r, key);
    if j >= 0 {
        r.update(j, (key, ps))
    } else {
        r.push((key, ps))
    }
}

/// The first `k` entries of `e`, each moved to the node it merges into.
pub open spec fn merged_upto(d: Seq<NodeView>, e: Seq<(int, PriceList)>, k: int) -> Seq<
    (int, PriceList),
>
    decreases k,
{
    if k <= 0 || k > e.len() {
        seq![]
    } else {
        let c = e[k - 1].0;
        let pid = match merge_target(d, e, c) {
            Some(p) => p,
            None => c,
        };
        upsert(merged_upto(d, e, k - 1), pid, e[k - 1].1)
    }
}

/// The entries of `e` after merging sibling prices into their wrapper: an
/// entry whose node is a price child of a grouping `div` moves to that
/// `div` (the last such one in document order); entries landing on the
/// same node keep the prices of the last one, at the place of the first.
pub open spec fn merged(d: Seq<NodeView>, e: Seq<(int, PriceList)>) -> Seq<(int, PriceList)> {
    merged_upto(d, e, e.len() as int)
}

/// Whether the node of some other entry of `e` lies under `id`.
pub open spec fn encloses_entry(d: Seq<NodeView>, e: Seq<(int, PriceList)>, id: int) -> bool {
    exists|k: int| 0 <= k < e.len() && (#[trigger] e[k]).0 != id && ancestors(d, e[k].0).contains(id)
}

/// The entries of `e` that enclose no other entry.
pub open spec fn innermost(d: Seq<NodeView>, e: Seq<(int, PriceList)>) -> Seq<(int, PriceList)> {
    e.filter(|x: (int, PriceList)| !encloses_entry(d, e, x.0))
}

/// The price `div`s of a page, in document order of their first price.
pub open spec fn price_divs(d: Seq<NodeView>) -> Seq<(int, PriceList)> {
    innermost(d, merged(d, leaf_price_divs(d)))
}

pub proof fn lemma_price_divs_upto_below(d: Seq<NodeView>, t: Seq<Seq<char>>, k: int)
    requires
        k <= d.len(),
    ensures
        ids_below(price_divs_upto(d, t, k), d.len() as int),
    decreases k,
{
    if k > 0 {
        lemma_price_divs_upto_below(d, t, k - 1);
    }
}

pub proof fn lemma_leaf_below(d: Seq<NodeView>)
    ensures
        ids_below(leaf_price_divs(d), d.len() as int),
{
    lemma_price_divs_upto_below(d, own_texts(d), d.len() as int);
    lemma_price_divs_upto_below(d, span_texts(d), d.len() as int);
}

pub proof fn lemma_merge_target_below(d: Seq<NodeView>, e: Seq<(int, PriceList)>, c: int, k: int)
    requires
        k <= d.len(),
    ensures
        merge_target_upto(d, e, c, k) matches Some(p) ==> 0 <= p < d.len(),
    decreases k,
{
    if k > 0 {
        lemma_merge_target_below(d, e, c, k - 1);
    }
}

pub proof fn lemma_key_index(r: Seq<(int, PriceList)>, key: int)
    ensures
        -1 <= key_index(r, key) < r.len(),
        key_index(r, key) >= 0 ==> r[key_index(r, key)].0 == key,
        key_index(r, key) < 0 ==> forall|j: int| 0 <= j < r.len() ==> (#[trigger] r[j]).0 != key,
        key_index(r, key) >= 0 ==> forall|j: int| 0 <= j < key_index(r, key) ==> (#[trigger] r[j]).0 != key,
    decreases r.len(),
{
    if r.len() > 0 {
        let s = r.drop_last();
        lemma_key_index(s, key);
        assert forall|j: int| 0 <= j < s.len() implies #[trigger] r[j] == s[j] by {}
    }
}

pub proof fn lemma_merged_below(d: Seq<NodeView>, e: Seq<(int, PriceList)>, k: int)
    requires
        ids_below(e, d.len() as int),
        0 <= k <= e.len(),
    ensures
        ids_below(merged_upto(d, e, k), d.len() as int),
    decreases k,
{
    if k > 0 {
        lemma_merged_below(d, e, k - 1);
        lemma_merge_target_below(d, e, e[k - 1].0, d.len() as int);
        let c = e[k - 1].0;
        let pid = match merge_target(d, e, c) {
            Some(p) => p,
            None => c,
        };
        lemma_key_index(merged_upto(d, e, k - 1), pid);
    }
}

/// For each node below `n`, whether some entry of `e` is for it.
pub(crate) fn entry_flags(n: usize, e: &Vec<(usize, Vec<Price>)>) -> (r: Vec<bool>)
    ensures
        r@.len() == n,
        forall|c: int| 0 <= c < n ==> r@[c] == in_entries(entries_view(e@), c),
{
    let ghost ev = entries_view(e@);
    let mut flags: Vec<bool> = Vec::new();
    for k in 0..n
        invariant
            flags@.len() == k,
            forall|c: int| 0 <= c < k ==> !flags@[c],
    {
        flags.push(false);
    }
    for j in 0..e.len()
        invariant
            ev == entries_view(e@),
            flags@.len() == n,
            forall|c: int| 0 <= c < n ==> flags@[c] == in_entries(ev.take(j as int), c),
    {
        let c = e[j].0;
        assert(ev[j as int].0 == c as int);
        if c < n {
            flags.set(c, true);
        }
        assert forall|x: int| 0 <= x < n implies flags@[x] == in_entries(ev.take(j + 1), x) by {
            let pre = ev.take(j as int);
            let cur = ev.take(j + 1);
            if in_entries(pre, x) {
                let k = choose|k: int| 0 <= k < pre.len() && (#[trigger] pre[k]).0 == x;
                assert(cur[k] == pre[k]);
            }
            if in_entries(cur, x) {
                let k = choose|k: int| 0 <= k < cur.len() && (#[trigger] cur[k]).0 == x;
                if k < j {
                    assert(pre[k] == cur[k]);
                }
            }
            if x == c as int {
                assert(cur[j as int].0 == x);
            }
        }
    }
    assert(ev.take(e.len() as int) =~= ev);
    flags
}

/// The children of `x` that have an entry (flags), in order.
fn price_children_of(dom: &Dom, flags: &Vec<bool>, x: usize, Ghost(e): Ghost<Seq<(int, PriceList)>>) -> (r: Vec<usize>)
    requires
        x < dom.view_nodes().len(),
        flags@.len() == dom.view_nodes().len(),
        ids_below(e, dom.view_nodes().len() as int),
        forall|c: int| 0 <= c < flags@.len() ==> flags@[c] == in_entries(e, c),
    ensures
        r@.map_values(|c: usize| c as int) == price_children(dom.view_nodes(), e, x as int),
        forall|k: int| 0 <= k < r@.len() ==> (#[trigger] r@[k]) < dom.view_nodes().len(),
{
    let ghost d = dom.view_nodes();
    let cs = dom.children(x);
    let ghost cv = cs@.map_values(|c: usize| c as int);
    let ghost p = |c: int| in_entries(e, c);
    let mut out: Vec<usize> = Vec::new();
    for k in 0..cs.len()
        invariant
            cv == cs@.map_values(|c: usize| c as int),
            cs@ == d[x as int].children,
            flags@.len() == d.len(),
            ids_below(e, d.len() as int),
            forall|c: int| 0 <= c < flags@.len() ==> flags@[c] == in_entries(e, c),
            p == (|c: int| in_entries(e, c)),
            out@.map_values(|c: usize| c as int) == cv.take(k as int).filter(p),
            forall|j: int| 0 <= j < out@.len() ==> (#[trigger] out@[j]) < d.len(),
    {
        let c = cs[k];
        proof {
            assert(cv.take(k + 1) =~= cv.take(k as int).push(c as int));
            lemma_filter_push(cv.take(k as int), c as int, p);
        }
        let has = c < flags.len() && flags[c];
        proof {
            if c >= flags.len() && in_entries(e, c as int) {
                let j = choose|j: int| 0 <= j < e.len() && (#[trigger] e[j]).0 == c as int;
                assert(0 <= e[j].0 < d.len());
            }
        }
        if has {
            let ghost o = out@.map_values(|c: usize| c as int);
            out.push(c);
            assert(out@.map_values(|c: usize| c as int) =~= o.push(c as int));
        }
    }
    assert(cv.take(cs.len() as int) =~= cv);
    out
}

/// Whether `div` `x` groups the prices of its children (see
/// [`groups_prices`]), with those children.
fn groups_prices_at(
    dom: &Dom,
    flags: &Vec<bool>,
    own: &Vec<Vec<char>>,
    x: usize,
    Ghost(e): Ghost<Seq<(int, PriceList)>>,
) -> (r: (bool, Vec<usize>))
    requires
        x < dom.view_nodes().len(),
        flags@.len() == dom.view_nodes().len(),
        ids_below(e, dom.view_nodes().len() as int),
        forall|c: int| 0 <= c < flags@.len() ==> flags@[c] == in_entries(e, c),
        seq_views(own@) == own_texts(dom.view_nodes()),
    ensures
        r.0 == groups_prices(dom.view_nodes(), e, x as int),
        r.1@.map_values(|c: usize| c as int) == price_children(dom.view_nodes(), e, x as int),
        forall|k: int| 0 <= k < r.1@.len() ==> (#[trigger] r.1@[k]) < dom.view_nodes().len(),
{
    let ghost d = dom.view_nodes();
    let pcs = price_children_of(dom, flags, x, Ghost(e));
    let ghost pv = pcs@.map_values(|c: usize| c as int);
    if !dom.is_tag(x, "div") || pcs.len() < 2 {
        return (false, pcs);
    }
    assert(seq_views(own@).len() == own@.len());
    assert(seq_views(own@)[x as int] == own@[x as int]@);
    let t = trim_chars(&own[x]);
    if t.len() != 0 {
        return (false, pcs);
    }
    for k in 0..pcs.len()
        invariant
            pv == pcs@.map_values(|c: usize| c as int),
            pv == price_children(d, e, x as int),
            d == dom.view_nodes(),
            forall|j: int| 0 <= j < pcs@.len() ==> (#[trigger] pcs@[j]) < d.len(),
            forall|j: int| 0 <= j < k ==> !is_named(d, #[trigger] pv[j]),
    {
        assert(pv[k as int] == pcs@[k as int] as int);
        if is_named_at(dom, pcs[k]) {
            return (false, pcs);
        }
    }
    (true, pcs)
}

/// For each node, the node its price entry merges into (see
/// [`merge_target`]).
fn merge_targets(dom: &Dom, own: &Vec<Vec<char>>, leaf: &Vec<(usize, Vec<Price>)>) -> (r: Vec<
    Option<usize>,
>)
    requires
        seq_views(own@) == own_texts(dom.view_nodes()),
        ids_below(entries_view(leaf@), dom.view_nodes().len() as int),
    ensures
        r@.len() == dom.view_nodes().len(),
        forall|c: int|
            0 <= c < r@.len() ==> match #[trigger] r@[c] {
                Some(p) => merge_target(dom.view_nodes(), entries_view(leaf@), c) == Some(p as int),
                None => merge_target(dom.view_nodes(), entries_view(leaf@), c).is_none(),
            },
{
    let ghost d = dom.view_nodes();
    let ghost e = entries_view(leaf@);
    let n = dom.len();
    let flags = entry_flags(n, leaf);
    let mut targets: Vec<Option<usize>> = Vec::new();
    for k in 0..n
        invariant
            targets@.len() == k,
            forall|c: int| 0 <= c < k ==> targets@[c].is_none(),
    {
        targets.push(None);
    }
    for x in 0..n
        invariant
            d == dom.view_nodes(),
            e == entries_view(leaf@),
            n == d.len(),
            flags@.len() == n,
            forall|c: int| 0 <= c < n ==> flags@[c] == in_entries(e, c),
            ids_below(e, n as int),
            seq_views(own@) == own_texts(d),
            targets@.len() == n,
            forall|c: int|
                0 <= c < n ==> match #[trigger] targets@[c] {
                    Some(p) => merge_target_upto(d, e, c, x as int) == Some(p as int),
                    None => merge_target_upto(d, e, c, x as int).is_none(),
                },
    {
        let (g, pcs) = groups_prices_at(dom, &flags, own, x, Ghost(e));
        let ghost pv = pcs@.map_values(|c: usize| c as int);
        let ghost before = targets@;
        if g {
            for j in 0..pcs.len()
                invariant
                    pv == pcs@.map_values(|c: usize| c as int),
                    forall|k: int| 0 <= k < pcs@.len() ==> (#[trigger] pcs@[k]) < n,
                    targets@.len() == n,
                    before.len() == n,
                    forall|c: int|
                        0 <= c < n ==> (#[trigger] targets@[c]) == if pv.take(j as int).contains(c) {
                            Some(x)
                        } else {
                            before[c]
                        },
            {
                let c = pcs[j];
                targets.set(c, Some(x));
                assert forall|y: int| 0 <= y < n implies (#[trigger] targets@[y]) == if pv.take(
                    j + 1,
                ).contains(y) {
                    Some(x)
                } else {
                    before[y]
                } by {
                    assert(pv[j as int] == c as int);
                    assert(pv.take(j + 1) =~= pv.take(j as int).push(c as int));
                    if pv.take(j as int).contains(y) {
                        let pt = pv.take(j as int);
                        let m = choose|m: int| 0 <= m < pt.len() && pt[m] == y;
                        assert(pv.take(j + 1)[m] == y);
                    }
                    if y == c as int {
                        assert(pv.take(j + 1)[j as int] == y);
                    } else if pv.take(j + 1).contains(y) {
                        let pj = pv.take(j + 1);
                        let m = choose|m: int| 0 <= m < pj.len() && pj[m] == y;
                        assert(m != j);
                        assert(pv.take(j as int)[m] == y);
                    }
                }
            }
            assert(pv.take(pcs.len() as int) =~= pv);
        }
        assert forall|c: int| 0 <= c < n implies match #[trigger] targets@[c] {
            Some(p) => merge_target_upto(d, e, c, x + 1) == Some(p as int),
            None => merge_target_upto(d, e, c, x + 1).is_none(),
        } by {
            assert(valid(d, x as int));
        }
    }
    targets
}

/// `v` in reverse order.
fn reversed<T>(v: Vec<T>) -> (r: Vec<T>)
    ensures
        r@ == v@.reverse(),
{
    let ghost v0 = v@;
    let mut v = v;
    let mut out: Vec<T> = Vec::new();
    while v.len() > 0
        invariant
            v0 == v@ + out@.reverse(),
        decreases v@.len(),
    {
        let ghost vb = v@;
        let ghost ob = out@;
        let x = v.pop().unwrap();
        out.push(x);
        assert(out@.reverse() =~= seq![x] + ob.reverse());
        assert(vb =~= v@.push(x));
        assert(v0 =~= v@ + out@.reverse());
    }
    assert(out@.reverse().reverse() =~= out@);
    assert(v0 =~= out@.reverse());
    out
}

/// The index of the entry of `r` for node `key`.
fn find_key(r: &Vec<(usize, Vec<Price>)>, key: usize) -> (j: Option<usize>)
    ensures
        match j {
            Some(i) => key_index(entries_view(r@), key as int) == i as int,
            None => key_index(entries_view(r@), key as int) == -1,
        },
{
    let ghost rv = entries_view(r@);
    proof {
        lemma_key_index(rv, key as int);
    }
    for i in 0..r.len()
        invariant
            rv == entries_view(r@),
            -1 <= key_index(rv, key as int) < rv.len(),
            key_index(rv, key as int) >= 0 ==> rv[key_index(rv, key as int)].0 == key,
            key_index(rv, key as int) < 0 ==> forall|j: int| 0 <= j < rv.len() ==> (#[trigger] rv[j]).0 != key,
            key_index(rv, key as int) >= 0 ==> forall|j: int|
                0 <= j < key_index(rv, key as int) ==> (#[trigger] rv[j]).0 != key,
            forall|j: int| 0 <= j < i ==> (#[trigger] rv[j]).0 != key,
    {
        assert(rv[i as int].0 == r@[i as int].0 as int);
        if r[i].0 == key {
            return Some(i);
        }
    }
    None
}

/// Merges sibling price entries into their wrapper (see [`merged`]).
pub fn merge_price_groups(dom: &Dom, own: &Vec<Vec<char>>, leaf: Vec<(usize, Vec<Price>)>) -> (r: Vec<
    (usize, Vec<Price>),
>)
    requires
        seq_views(own@) == own_texts(dom.view_nodes()),
        ids_below(entries_view(leaf@), dom.view_nodes().len() as int),
    ensures
        entries_view(r@) == merged(dom.view_nodes(), entries_view(leaf@)),
{
    let ghost d = dom.view_nodes();
    let ghost e = entries_view(leaf@);
    let targets = merge_targets(dom, own, &leaf);
    let m = leaf.len();
    let mut rest = reversed(leaf);
    assert(rest@.reverse() =~= leaf@);
    assert(e.skip(0) =~= e);
    let mut result: Vec<(usize, Vec<Price>)> = Vec::new();
    let mut k: usize = 0;
    while k < m
        invariant
            e.len() == m,
            k <= m,
            rest@.len() == m - k,
            entries_view(rest@.reverse()) == e.skip(k as int),
            entries_view(result@) == merged_upto(d, e, k as int),
            targets@.len() == d.len(),
            ids_below(e, d.len() as int),
            forall|c: int|
                0 <= c < targets@.len() ==> match #[trigger] targets@[c] {
                    Some(p) => merge_target(d, e, c) == Some(p as int),
                    None => merge_target(d, e, c).is_none(),
                },
        decreases m - k,
    {
        let ghost rb = rest@;
        let (cid, ps) = rest.pop().unwrap();
        proof {
            assert(rb =~= rest@.push((cid, ps)));
            assert(rb.reverse() =~= seq![(cid, ps)] + rest@.reverse());
            assert(entries_view(rb.reverse())[0] == e.skip(k as int)[0]);
            assert(e[k as int] == (cid as int, prices_view(ps@)));
            let rr = rest@.reverse();
            assert forall|i: int| 0 <= i < rr.len() implies #[trigger] entries_view(rr)[i] == e.skip(k + 1)[i] by {
                assert(rb.reverse()[i + 1] == rr[i]);
                assert(entries_view(rb.reverse())[i + 1] == e.skip(k as int)[i + 1]);
            }
            assert(entries_view(rr) =~= e.skip(k + 1));
        }
        let pid = match targets[cid] {
            Some(p) => p,
            None => cid,
        };
        let ghost rv = entries_view(result@);
        proof {
            lemma_key_index(rv, pid as int);
        }
        match find_key(&result, pid) {
            Some(j) => {
                result.set(j, (pid, ps));
                assert(entries_view(result@) =~= rv.update(j as int, (pid as int, prices_view(ps@))));
            },
            None => {
                result.push((pid, ps));
                assert(entries_view(result@) =~= rv.push((pid as int, prices_view(ps@))));
            },
        }
        k = k + 1;
    }
    result
}


/// Whether `v` holds `x`.
pub(crate) fn holds(v: &Vec<usize>, x: usize) -> (r: bool)
    ensures
        r == v@.map_values(|a: usize| a as int).contains(x as int),
{
    let ghost vv = v@.map_values(|a: usize| a as int);
    for k in 0..v.len()
        invariant
            vv == v@.map_values(|a: usize| a as int),
            forall|j: int| 0 <= j < k ==> vv[j] != x,
    {
        if v[k] == x {
            assert(vv[k as int] == x as int);
            return true;
        }
    }
    false
}

/// Drops every entry whose node encloses the node of another entry (see
/// [`innermost`]).
pub fn drop_enclosing(dom: &Dom, e: Vec<(usize, Vec<Price>)>) -> (r: Vec<(usize, Vec<Price>)>)
    ensures
        entries_view(r@) == innermost(dom.view_nodes(), entries_view(e@)),
{
    let ghost d = dom.view_nodes();
    let ghost ev = entries_view(e@);
    let m = e.len();
    let mut ancs: Vec<Vec<usize>> = Vec::new();
    for k in 0..m
        invariant
            ev == entries_view(e@),
            d == dom.view_nodes(),
            m == e@.len(),
            ancs@.len() == k,
            forall|j: int|
                0 <= j < k ==> (#[trigger] ancs@[j])@.map_values(|a: usize| a as int) == ancestors(
                    d,
                    ev[j].0,
                ),
    {
        assert(ev[k as int].0 == e@[k as int].0 as int);
        ancs.push(dom.ancestors(e[k].0));
    }
    let mut keep: Vec<bool> = Vec::new();
    for j in 0..m
        invariant
            ev == entries_view(e@),
            d == dom.view_nodes(),
            m == e@.len(),
            ancs@.len() == m,
            forall|i: int|
                0 <= i < m ==> (#[trigger] ancs@[i])@.map_values(|a: usize| a as int) == ancestors(
                    d,
                    ev[i].0,
                ),
            keep@.len() == j,
            forall|i: int| 0 <= i < j ==> #[trigger] keep@[i] == !encloses_entry(d, ev, ev[i].0),
    {
        let id = e[j].0;
        assert(ev[j as int].0 == id as int);
        let mut enclosing = false;
        for k in 0..m
            invariant
                ev == entries_view(e@),
                m == e@.len(),
                ancs@.len() == m,
                forall|i: int|
                    0 <= i < m ==> (#[trigger] ancs@[i])@.map_values(|a: usize| a as int)
                        == ancestors(d, ev[i].0),
                enclosing == exists|i: int|
                    0 <= i < k && (#[trigger] ev[i]).0 != id && ancestors(d, ev[i].0).contains(
                        id as int,
                    ),
        {
            assert(ev[k as int].0 == e@[k as int].0 as int);
            if e[k].0 != id && holds(&ancs[k], id) {
                enclosing = true;
            }
        }
        keep.push(!enclosing);
    }
    let ghost p = |x: (int, PriceList)| !encloses_entry(d, ev, x.0);
    let mut rest = reversed(e);
    assert(rest@.reverse() =~= e@);
    assert(ev.take(0) =~= Seq::<(int, PriceList)>::empty());
    let mut out: Vec<(usize, Vec<Price>)> = Vec::new();
    let mut k: usize = 0;
    while k < m
        invariant
            k <= m,
            ev.len() == m,
            keep@.len() == m,
            forall|i: int| 0 <= i < m ==> #[trigger] keep@[i] == !encloses_entry(d, ev, ev[i].0),
            rest@.len() == m - k,
            entries_view(rest@.reverse()) == ev.skip(k as int),
            p == (|x: (int, PriceList)| !encloses_entry(d, ev, x.0)),
            entries_view(out@) == ev.take(k as int).filter(p),
        decreases m - k,
    {
        let ghost rb = rest@;
        let (id, ps) = rest.pop().unwrap();
        proof {
            assert(rb =~= rest@.push((id, ps)));
            assert(rb.reverse() =~= seq![(id, ps)] + rest@.reverse());
            assert(entries_view(rb.reverse())[0] == ev.skip(k as int)[0]);
            assert(ev[k as int] == (id as int, prices_view(ps@)));
            let rr = rest@.reverse();
            assert forall|i: int| 0 <= i < rr.len() implies #[trigger] entries_view(rr)[i] == ev.skip(k + 1)[i] by {
                assert(rb.reverse()[i + 1] == rr[i]);
                assert(entries_view(rb.reverse())[i + 1] == ev.skip(k as int)[i + 1]);
            }
            assert(entries_view(rr) =~= ev.skip(k + 1));
            assert(ev.take(k + 1) =~= ev.take(k as int).push(ev[k as int]));
            lemma_filter_push(ev.take(k as int), ev[k as int], p);
        }
        if keep[k] {
            let ghost o = entries_view(out@);
            out.push((id, ps));
            assert(entries_view(out@) =~= o.push((id as int, prices_view(ps@))));
        }
        k = k + 1;
    }
    assert(ev.take(m as int) =~= ev);
    out
}

/// Whether every price list of `e` is non-empty.
pub open spec fn prices_present(e: Seq<(int, PriceList)>) -> bool {
    forall|k: int| 0 <= k < e.len() ==> (#[trigger] e[k]).1.len() > 0
}

pub proof fn lemma_price_divs_upto_present(d: Seq<NodeView>, t: Seq<Seq<char>>, k: int)
    ensures
        prices_present(price_divs_upto(d, t, k)),
    decreases k,
{
    if k > 0 {
        lemma_price_divs_upto_present(d, t, k - 1);
        let r = price_divs_upto(d, t, k - 1);
        let c = price_divs_upto(d, t, k);
        assert forall|j: int| 0 <= j < c.len() implies (#[trigger] c[j]).1.len() > 0 by {
            if j < r.len() {
                assert(c[j] == r[j]);
            }
        }
    }
}

pub proof fn lemma_merged_present(d: Seq<NodeView>, e: Seq<(int, PriceList)>, k: int)
    requires
        prices_present(e),
    ensures
        prices_present(merged_upto(d, e, k)),
    decreases k,
{
    if k > 0 && k <= e.len() {
        lemma_merged_present(d, e, k - 1);
        let c = e[k - 1].0;
        let pid = match merge_target(d, e, c) {
            Some(p) => p,
            None => c,
        };
        let r = merged_upto(d, e, k - 1);
        lemma_key_index(r, pid);
        let m = merged_upto(d, e, k);
        assert forall|j: int| 0 <= j < m.len() implies (#[trigger] m[j]).1.len() > 0 by {
            if j < r.len() && j != key_index(r, pid) {
                assert(m[j] == r[j]);
            }
        }
    }
}

/// The price `div`s of a page all carry prices.
pub proof fn lemma_price_divs_present(d: Seq<NodeView>)
    ensures
        prices_present(price_divs(d)),
{
    lemma_price_divs_upto_present(d, own_texts(d), d.len() as int);
    lemma_price_divs_upto_present(d, span_texts(d), d.len() as int);
    let m = merged(d, leaf_price_divs(d));
    lemma_merged_present(d, leaf_price_divs(d), leaf_price_divs(d).len() as int);
    let p = |x: (int, PriceList)| !encloses_entry(d, m, x.0);
    let f = m.filter(p);
    assert forall|j: int| 0 <= j < f.len() implies (#[trigger] f[j]).1.len() > 0 by {
        assert(f.contains(f[j]));
        m.lemma_filter_contains_rev(p, f[j]);
        let i = choose|i: int| 0 <= i < m.len() && m[i] == f[j];
        assert(m[i].1.len() > 0);
    }
    assert(f == price_divs(d));
}

/// The price `div`s of the page (see [`price_divs`]).
pub fn find_price_divs(dom: &Dom) -> (r: Vec<(usize, Vec<Price>)>)
    ensures
        entries_view(r@) == price_divs(dom.view_nodes()),
        prices_present(entries_view(r@)),
{
    proof {
        lemma_price_divs_present(dom.view_nodes());
    }
    let own = owned_texts(dom);
    let leaf = leaf_price_divs_of(dom, &own);
    proof {
        lemma_leaf_below(dom.view_nodes());
    }
    let merged = merge_price_groups(dom, &own, leaf);
    drop_enclosing(dom, merged)
}

/// The price `div`s of a page are innermost: none lies inside another.
pub proof fn lemma_price_divs_innermost(d: Seq<NodeView>)
    ensures
        forall|i: int, j: int|
            0 <= i < price_divs(d).len() && 0 <= j < price_divs(d).len() && (#[trigger] price_divs(d)[i]).0
                != (#[trigger] price_divs(d)[j]).0 ==> !ancestors(d, price_divs(d)[j].0).contains(
                price_divs(d)[i].0,
            ),
{
    let m = merged(d, leaf_price_divs(d));
    let p = |x: (int, PriceList)| !encloses_entry(d, m, x.0);
    let f = m.filter(p);
    assert(f == price_divs(d));
    assert forall|i: int, j: int|
        0 <= i < f.len() && 0 <= j < f.len() && (#[trigger] f[i]).0 != (#[trigger] f[j]).0 implies !ancestors(
        d,
        f[j].0,
    ).contains(f[i].0) by {
        assert(f.contains(f[i]));
        assert(f.contains(f[j]));
        m.lemma_filter_contains_rev(p, f[i]);
        m.lemma_filter_contains_rev(p, f[j]);
        assert(p(f[i]));
        let kj = choose|k: int| 0 <= k < m.len() && m[k] == f[j];
        if ancestors(d, f[j].0).contains(f[i].0) {
            assert(m[kj].0 != f[i].0 && ancestors(d, m[kj].0).contains(f[i].0));
            assert(encloses_entry(d, m, f[i].0));
        }
    }
}

} // verus!
