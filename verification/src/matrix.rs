//! The product × provider price matrix apart from its prices: which
//! products get a row, which listings price each row, and the order of the
//! rows and of the provider columns. The cells themselves (the lowest latest
//! price per provider) are floating point and are filled in by the caller.

use vstd::prelude::*;

use crate::export::{lowered, order_by_keys, ordered};
use crate::model::{ProductRow, ProviderProductRow, ProviderRow};
use crate::text::chars_of;
use crate::unicode::lowercase;

verus! {

/// Whether listing `i` of `pps` belongs to the product `pid` and has a
/// latest price (`priced[i]`).
pub open spec fn prices_product(pps: Seq<ProviderProductRow>, priced: Seq<bool>, pid: Seq<char>, i: int) -> bool {
    &&& 0 <= i < priced.len()
    &&& priced[i]
    &&& pps[i].product_id matches Some(p) && p@ == pid
}

/// The listings among the first `n` of `pps` that price the product `pid`,
/// in order.
pub open spec fn listings_upto(pps: Seq<ProviderProductRow>, priced: Seq<bool>, pid: Seq<char>, n: int) -> Seq<int>
    decreases n,
{
    if n <= 0 {
        seq![]
    } else {
        let l = listings_upto(pps, priced, pid, n - 1);
        if prices_product(pps, priced, pid, n - 1) {
            l.push(n - 1)
        } else {
            l
        }
    }
}

/// The listings (indices into `pps`) that price the product `pid`, in order.
pub open spec fn listings(pps: Seq<ProviderProductRow>, priced: Seq<bool>, pid: Seq<char>) -> Seq<int> {
    listings_upto(pps, priced, pid, pps.len() as int)
}

/// Whether the listings `l` come from two or more distinct providers.
pub open spec fn spans_providers(pps: Seq<ProviderProductRow>, l: Seq<int>) -> bool {
    exists|a: int, b: int|
        #![trigger l[a], l[b]]
        0 <= a < l.len() && 0 <= b < l.len() && pps[l[a]].provider_id@ != pps[l[b]].provider_id@
}

/// The products among the first `n` that get a matrix row (a price at two
/// or more providers), in catalogue order.
pub open spec fn kept_upto(
    products: Seq<ProductRow>,
    pps: Seq<ProviderProductRow>,
    priced: Seq<bool>,
    n: int,
) -> Seq<int>
    decreases n,
{
    if n <= 0 {
        seq![]
    } else {
        let k = kept_upto(products, pps, priced, n - 1);
        if spans_providers(pps, listings(pps, priced, products[n - 1].id@)) {
            k.push(n - 1)
        } else {
            k
        }
    }
}

/// The products that get a matrix row, in catalogue order.
pub open spec fn kept(products: Seq<ProductRow>, pps: Seq<ProviderProductRow>, priced: Seq<bool>) -> Seq<int> {
    kept_upto(products, pps, priced, products.len() as int)
}

/// The matrix rows, as product indices: the kept products ordered by their
/// lower-cased names, products with equal keys in catalogue order.
pub open spec fn row_products(products: Seq<ProductRow>, pps: Seq<ProviderProductRow>, priced: Seq<bool>) -> Seq<int> {
    let k = kept(products, pps, priced);
    ordered(k.map_values(|i: int| lowercase(products[i].name@))).map_values(|j: int| k[j])
}

/// The provider columns, as provider indices: ordered by domain, providers
/// with equal domains in their given order.
pub open spec fn provider_columns(providers: Seq<ProviderRow>) -> Seq<int> {
    ordered(providers.map_values(|p: ProviderRow| p.domain@))
}

/// One matrix row: the product (an index into the catalogue) and the
/// listings (indices into the provider products) whose latest prices fill
/// its cells.
pub struct MatrixRowPlan {
    pub product: usize,
    pub listings: Vec<usize>,
}

/// The matrix layout: provider columns and product rows, in order.
pub struct MatrixPlan {
    pub providers: Vec<usize>,
    pub rows: Vec<MatrixRowPlan>,
}

/// A list of `usize` indices as integers.
pub open spec fn indices(v: Seq<usize>) -> Seq<int> {
    v.map_values(|i: usize| i as int)
}

/// The listings that price the product `pid` (see [`listings`]).
fn listings_of(pps: &Vec<ProviderProductRow>, priced: &Vec<bool>, pid: &String) -> (r: Vec<usize>)
    ensures
        indices(r@) == listings(pps@, priced@, pid@),
        forall|m: int| 0 <= m < r@.len() ==> (#[trigger] r@[m]) < pps@.len(),
{
    let mut out: Vec<usize> = Vec::new();
    for i in 0..pps.len()
        invariant
            indices(out@) == listings_upto(pps@, priced@, pid@, i as int),
            forall|m: int| 0 <= m < out@.len() ==> (#[trigger] out@[m]) < i,
    {
        let hit = i < priced.len() && priced[i] && match &pps[i].product_id {
            Some(p) => *p == *pid,
            None => false,
        };
        let ghost before = indices(out@);
        if hit {
            out.push(i);
            assert(indices(out@) =~= before.push(i as int));
        }
    }
    out
}

/// Whether the listings `l` come from two or more providers (see
/// [`spans_providers`]).
fn spans(pps: &Vec<ProviderProductRow>, l: &Vec<usize>) -> (r: bool)
    requires
        forall|m: int| 0 <= m < l@.len() ==> (#[trigger] l@[m]) < pps@.len(),
    ensures
        r == spans_providers(pps@, indices(l@)),
{
    let ghost lv = indices(l@);
    if l.len() == 0 {
        return false;
    }
    let first = &pps[l[0]].provider_id;
    for b in 1..l.len()
        invariant
            lv == indices(l@),
            l@.len() > 0,
            first@ == pps@[lv[0]].provider_id@,
            forall|m: int| 0 <= m < l@.len() ==> (#[trigger] l@[m]) < pps@.len(),
            forall|j: int| 0 <= j < b ==> (#[trigger] pps@[lv[j]]).provider_id@ == first@,
    {
        if pps[l[b]].provider_id != *first {
            assert(lv[b as int] == l@[b as int] as int);
            assert(0 <= 0 < lv.len() && 0 <= b < lv.len() && pps@[lv[0]].provider_id@ != pps@[lv[b as int]].provider_id@);
            return true;
        }
        assert(lv[b as int] == l@[b as int] as int);
    }
    assert forall|a: int, c: int| 0 <= a < lv.len() && 0 <= c < lv.len() implies pps@[lv[a]].provider_id@
        == pps@[lv[c]].provider_id@ by {
        assert(pps@[lv[a]].provider_id@ == first@);
        assert(pps@[lv[c]].provider_id@ == first@);
    }
    false
}

proof fn lemma_kept_upto(products: Seq<ProductRow>, pps: Seq<ProviderProductRow>, priced: Seq<bool>, n: int)
    requires
        0 <= n <= products.len(),
    ensures
        forall|i: int|
            0 <= i < kept_upto(products, pps, priced, n).len() ==> {
                let p = #[trigger] kept_upto(products, pps, priced, n)[i];
                0 <= p < n && spans_providers(pps, listings(pps, priced, products[p].id@))
            },
        forall|i: int, j: int|
            0 <= i < j < kept_upto(products, pps, priced, n).len() ==> #[trigger] kept_upto(products, pps, priced, n)[i]
                < #[trigger] kept_upto(products, pps, priced, n)[j],
        forall|p: int|
            0 <= p < n && spans_providers(pps, #[trigger] listings(pps, priced, products[p].id@)) ==> kept_upto(
                products,
                pps,
                priced,
                n,
            ).contains(p),
    decreases n,
{
    if n > 0 {
        lemma_kept_upto(products, pps, priced, n - 1);
        let k = kept_upto(products, pps, priced, n - 1);
        let kn = kept_upto(products, pps, priced, n);
        assert forall|p: int|
            0 <= p < n && spans_providers(pps, #[trigger] listings(pps, priced, products[p].id@)) implies kn.contains(
            p,
        ) by {
            if p < n - 1 {
                let i = choose|i: int| 0 <= i < k.len() && k[i] == p;
                assert(kn[i] == p);
            } else {
                assert(kn[kn.len() - 1] == p);
            }
        }
    }
}

/// The matrix rows are the products priced at two or more providers, each
/// exactly once, ordered by lower-cased name.
pub proof fn lemma_matrix_rows(products: Seq<ProductRow>, pps: Seq<ProviderProductRow>, priced: Seq<bool>)
    ensures
        ({
            let rp = row_products(products, pps, priced);
            &&& forall|k: int|
                0 <= k < rp.len() ==> 0 <= #[trigger] rp[k] < products.len() && spans_providers(
                    pps,
                    listings(pps, priced, products[rp[k]].id@),
                )
            &&& forall|p: int|
                0 <= p < products.len() && spans_providers(pps, #[trigger] listings(pps, priced, products[p].id@))
                    ==> rp.contains(p)
            &&& rp.no_duplicates()
            &&& forall|i: int, j: int|
                0 <= i < j < rp.len() ==> !crate::matching::lex_lt(
                    lowercase(products[#[trigger] rp[j]].name@),
                    lowercase(products[#[trigger] rp[i]].name@),
                )
        }),
{
    let k = kept(products, pps, priced);
    let keys = k.map_values(|i: int| lowercase(products[i].name@));
    let o = ordered(keys);
    let rp = row_products(products, pps, priced);
    lemma_kept_upto(products, pps, priced, products.len() as int);
    crate::export::lemma_ordered_sorted(keys);
    assert(rp.len() == o.len());
    assert forall|x: int| 0 <= x < rp.len() implies rp[x] == k[o[x]] && 0 <= o[x] < k.len() by {}
    assert forall|p: int|
        0 <= p < products.len() && spans_providers(pps, #[trigger] listings(pps, priced, products[p].id@))
            implies rp.contains(p) by {
        let i = choose|i: int| 0 <= i < k.len() && k[i] == p;
        // the order lists every kept position
        assert(o.to_set().len() == o.len()) by {
            o.unique_seq_to_set();
        }
        assert forall|x: int| #[trigger] o.to_set().contains(x) implies 0 <= x < k.len() by {}
        assert(o.to_set() =~= Set::new(|x: int| 0 <= x < k.len())) by {
            let full = Set::new(|x: int| 0 <= x < k.len());
            assert(full =~= vstd::set_lib::set_int_range(0, k.len() as int));
            vstd::set_lib::lemma_int_range(0, k.len() as int);
            vstd::set_lib::lemma_len_subset(o.to_set(), full);
            if !(o.to_set() =~= full) {
                let y = choose|y: int| full.contains(y) && !o.to_set().contains(y);
                vstd::set_lib::lemma_len_subset(o.to_set(), full.remove(y));
            }
        }
        assert(o.to_set().contains(i));
        let x = choose|x: int| 0 <= x < o.len() && o[x] == i;
        assert(rp[x] == p);
    }
    assert forall|a: int, b: int| 0 <= a < rp.len() && 0 <= b < rp.len() && a != b implies rp[a] != rp[b] by {
        if o[a] < o[b] {
            assert(k[o[a]] < k[o[b]]);
        } else {
            assert(o[a] != o[b]);
            assert(k[o[b]] < k[o[a]]);
        }
    }
    assert forall|i: int, j: int| 0 <= i < j < rp.len() implies !crate::matching::lex_lt(
        lowercase(products[#[trigger] rp[j]].name@),
        lowercase(products[#[trigger] rp[i]].name@),
    ) by {
        assert(keys[o[j]] == lowercase(products[rp[j]].name@));
        assert(keys[o[i]] == lowercase(products[rp[i]].name@));
    }
}

/// A copy of a list of indices.
fn copy_indices(v: &Vec<usize>) -> (r: Vec<usize>)
    ensures
        r@ == v@,
{
    let mut out: Vec<usize> = Vec::new();
    for i in 0..v.len()
        invariant
            out@ == v@.take(i as int),
    {
        out.push(v[i]);
        assert(out@ =~= v@.take(i + 1));
    }
    assert(v@.take(v.len() as int) =~= v@);
    out
}

/// The layout of the product × provider matrix: one column per provider,
/// ordered by domain; one row per product whose priced listings (`priced[i]`
/// says whether provider product `i` has a latest price) come from two or
/// more providers, ordered by lower-cased name; and, per row, the listings
/// whose prices fill its cells.
pub fn matrix_plan(
    products: &Vec<ProductRow>,
    provider_products: &Vec<ProviderProductRow>,
    priced: &Vec<bool>,
    providers: &Vec<ProviderRow>,
) -> (r: MatrixPlan)
    ensures
        indices(r.providers@) == provider_columns(providers@),
        r.rows@.len() == row_products(products@, provider_products@, priced@).len(),
        forall|k: int|
            #![trigger r.rows@[k]]
            0 <= k < r.rows@.len() ==> {
                let p = row_products(products@, provider_products@, priced@)[k];
                &&& r.rows@[k].product as int == p
                &&& indices(r.rows@[k].listings@) == listings(provider_products@, priced@, products@[p].id@)
            },
{
    let ghost pps = provider_products@;
    let mut kept_idx: Vec<usize> = Vec::new();
    let mut kept_listings: Vec<Vec<usize>> = Vec::new();
    for n in 0..products.len()
        invariant
            pps == provider_products@,
            indices(kept_idx@) == kept_upto(products@, pps, priced@, n as int),
            kept_listings@.len() == kept_idx@.len(),
            forall|m: int| 0 <= m < kept_idx@.len() ==> (#[trigger] kept_idx@[m]) < n,
            forall|m: int|
                0 <= m < kept_listings@.len() ==> indices((#[trigger] kept_listings@[m])@) == listings(
                    pps,
                    priced@,
                    products@[kept_idx@[m] as int].id@,
                ),
    {
        let l = listings_of(provider_products, priced, &products[n].id);
        let ghost before = indices(kept_idx@);
        if spans(provider_products, &l) {
            kept_idx.push(n);
            kept_listings.push(l);
            assert(indices(kept_idx@) =~= before.push(n as int));
        }
    }
    let ghost kv = indices(kept_idx@);
    let mut names: Vec<&String> = Vec::new();
    for m in 0..kept_idx.len()
        invariant
            names@.len() == m,
            kept_idx@.len() == kept_listings@.len(),
            forall|j: int| 0 <= j < kept_idx@.len() ==> (#[trigger] kept_idx@[j]) < products@.len(),
            forall|j: int| 0 <= j < m ==> (#[trigger] names@[j])@ == products@[kept_idx@[j] as int].name@,
    {
        names.push(&products[kept_idx[m]].name);
    }
    let ghost keys_v = kv.map_values(|i: int| lowercase(products@[i].name@));
    assert(names@.map_values(|n: &String| lowercase(n@)) =~= keys_v);
    let keys = lowered(&names);
    let order = order_by_keys(&keys);
    let ghost rp = row_products(products@, pps, priced@);
    assert(kv == kept(products@, pps, priced@));
    assert(indices(order@) == ordered(keys_v));
    let mut rows: Vec<MatrixRowPlan> = Vec::new();
    for k in 0..order.len()
        invariant
            pps == provider_products@,
            kv == indices(kept_idx@),
            kv == kept(products@, pps, priced@),
            keys_v == kv.map_values(|i: int| lowercase(products@[i].name@)),
            indices(order@) == ordered(keys_v),
            rp == row_products(products@, pps, priced@),
            rp.len() == order@.len(),
            kept_listings@.len() == kept_idx@.len(),
            keys_v.len() == kept_idx@.len(),
            forall|j: int| 0 <= j < order@.len() ==> (#[trigger] order@[j]) < keys@.len(),
            keys@.len() == keys_v.len(),
            forall|m: int|
                0 <= m < kept_listings@.len() ==> indices((#[trigger] kept_listings@[m])@) == listings(
                    pps,
                    priced@,
                    products@[kept_idx@[m] as int].id@,
                ),
            rows@.len() == k,
            forall|j: int|
                #![trigger rows@[j]]
                0 <= j < k ==> {
                    &&& rows@[j].product as int == rp[j]
                    &&& indices(rows@[j].listings@) == listings(pps, priced@, products@[rp[j]].id@)
                },
    {
        let m = order[k];
        assert(indices(order@)[k as int] == m as int);
        let row = MatrixRowPlan { product: kept_idx[m], listings: copy_indices(&kept_listings[m]) };
        assert(rp[k as int] == kv[m as int]);
        rows.push(row);
    }
    let mut columns: Vec<Vec<char>> = Vec::new();
    for i in 0..providers.len()
        invariant
            columns@.map_values(|c: Vec<char>| c@) == providers@.take(i as int).map_values(|p: ProviderRow| p.domain@),
    {
        let ghost c = columns@.map_values(|c: Vec<char>| c@);
        columns.push(chars_of(providers[i].domain.as_str()));
        assert(columns@.map_values(|c: Vec<char>| c@) =~= c.push(providers@[i as int].domain@));
        assert(providers@.take(i + 1).map_values(|p: ProviderRow| p.domain@) =~= providers@.take(i as int).map_values(
            |p: ProviderRow| p.domain@,
        ).push(providers@[i as int].domain@));
    }
    assert(providers@.take(providers.len() as int) =~= providers@);
    let columns_order = order_by_keys(&columns);
    MatrixPlan { providers: columns_order, rows }
}

} // verus!
