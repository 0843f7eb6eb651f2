//! Use cases on brands: assigning a brand to every provider product,
//! reporting linked names that miss their brand, and finding names without
//! any known brand.

use vstd::prelude::*;

use crate::matching::{best_brand, best_match, covers, covers_brand, pair_views};
use crate::model::{BrandRow, ProductRow, ProviderProductRow, ProviderRow};
use crate::text::{chars_of, string_of, trim, trim_chars};

verus! {

/// The id of the last brand named exactly `name`.
pub open spec fn brand_id_named(brands: Seq<BrandRow>, name: Seq<char>) -> Option<Seq<char>>
    decreases brands.len(),
{
    if brands.len() == 0 {
        None
    } else if brands.last().name@ == name {
        Some(brands.last().id@)
    } else {
        brand_id_named(brands.drop_last(), name)
    }
}

/// For the last canonical product with id `pid`: the id of the brand named
/// as its trimmed brand (if any). `None` when no product has that id.
pub open spec fn product_brand(
    products: Seq<ProductRow>,
    brands: Seq<BrandRow>,
    pid: Seq<char>,
) -> Option<Option<Seq<char>>>
    decreases products.len(),
{
    if products.len() == 0 {
        None
    } else if products.last().id@ == pid {
        Some(brand_id_named(brands, trim(products.last().brand@)))
    } else {
        product_brand(products.drop_last(), brands, pid)
    }
}

/// `o` when it holds a non-empty string, else `None` (the store reports
/// unset relations as `""`).
pub open spec fn non_empty_opt(o: Option<Seq<char>>) -> Option<Seq<char>> {
    match o {
        Some(s) => if s.len() > 0 {
            Some(s)
        } else {
            None
        },
        None => None,
    }
}

/// The brand candidates: `(id, name)` of every brand, in order.
pub open spec fn brand_candidates(brands: Seq<BrandRow>) -> Seq<(Seq<char>, Seq<char>)> {
    brands.map_values(|b: BrandRow| (b.id@, b.name@))
}

/// The brand a provider product gets: its linked product's brand when it
/// is linked (authoritative, possibly none); otherwise the best fuzzy brand
/// match of its name.
pub open spec fn resolved_brand(
    pp: ProviderProductRow,
    products: Seq<ProductRow>,
    brands: Seq<BrandRow>,
) -> Option<Seq<char>> {
    match non_empty_opt(pp@.product_id) {
        Some(pid) => match product_brand(products, brands, pid) {
            Some(b) => b,
            None => None,
        },
        None => match best_brand(pp@.name, brand_candidates(brands)) {
            Some(i) => Some(brand_candidates(brands)[i].0),
            None => None,
        },
    }
}

/// How a provider product got its brand.
#[derive(PartialEq, Eq, Structural, Debug, Clone, Copy)]
pub enum BrandSource {
    /// From its linked canonical product.
    Product,
    /// By fuzzy brand coverage of its name.
    Fuzzy,
    /// No brand.
    Unmatched,
}

/// Result of one brand-matching run.
pub struct BrandMatchSummary {
    /// Provider products considered.
    pub provider_products: usize,
    /// Matched through a linked canonical product's brand.
    pub matched_from_product: usize,
    /// Matched by fuzzy brand coverage.
    pub matched_by_fuzzy: usize,
    /// Left without a brand.
    pub unmatched: usize,
    /// Provider products whose `brand_id` is written (changed).
    pub updated: usize,
}

/// A `brand_id` write: set the provider product's brand (or clear it).
pub struct BrandLink {
    /// The provider product record id.
    pub provider_product_id: String,
    /// The brand to store, `None` to clear it.
    pub brand_id: Option<String>,
}

/// The brand-matching plan for `pps` as plain values: the five counters
/// (provider products, from product, fuzzy, unmatched, updated) and the
/// writes, in order.
pub open spec fn brand_plan(
    pps: Seq<ProviderProductRow>,
    products: Seq<ProductRow>,
    brands: Seq<BrandRow>,
) -> ((nat, nat, nat, nat, nat), Seq<(Seq<char>, Option<Seq<char>>)>)
    decreases pps.len(),
{
    if pps.len() == 0 {
        ((0, 0, 0, 0, 0), seq![])
    } else {
        let (c, w) = brand_plan(pps.drop_last(), products, brands);
        let pp = pps.last();
        let target = resolved_brand(pp, products, brands);
        let linked = non_empty_opt(pp@.product_id).is_some();
        let changed = target != non_empty_opt(pp@.brand_id);
        let c2 = (
            c.0 + 1,
            c.1 + if target.is_some() && linked {
                1nat
            } else {
                0
            },
            c.2 + if target.is_some() && !linked {
                1nat
            } else {
                0
            },
            c.3 + if target.is_none() {
                1nat
            } else {
                0
            },
            c.4 + if changed {
                1nat
            } else {
                0
            },
        );
        (c2, if changed {
            w.push((pp@.id, target))
        } else {
            w
        })
    }
}

/// The summary's counters as plain values.
pub open spec fn summary_counts(s: BrandMatchSummary) -> (nat, nat, nat, nat, nat) {
    (
        s.provider_products as nat,
        s.matched_from_product as nat,
        s.matched_by_fuzzy as nat,
        s.unmatched as nat,
        s.updated as nat,
    )
}

pub open spec fn link_views(v: Seq<BrandLink>) -> Seq<(Seq<char>, Option<Seq<char>>)> {
    v.map_values(|l: BrandLink| (l.provider_product_id@, crate::model::opt_view(l.brand_id)))
}

fn str_eq(a: &str, b: &[char]) -> (r: bool)
    ensures
        r == (a@ == b@),
{
    let ac = chars_of(a);
    if ac.len() != b.len() {
        return false;
    }
    for k in 0..ac.len()
        invariant
            ac@ == a@,
            ac@.len() == b@.len(),
            forall|m: int| 0 <= m < k ==> ac@[m] == b@[m],
    {
        if ac[k] != b[k] {
            return false;
        }
    }
    assert(ac@ =~= b@);
    true
}

/// The id of the last brand named exactly `name`.
fn find_brand_id(brands: &Vec<BrandRow>, name: &[char]) -> (r: Option<String>)
    ensures
        crate::model::opt_view(r) == brand_id_named(brands@, name@),
{
    let mut k = brands.len();
    assert(brands@.take(k as int) =~= brands@);
    while k > 0
        invariant
            k <= brands@.len(),
            brand_id_named(brands@, name@) == brand_id_named(brands@.take(k as int), name@),
        decreases k,
    {
        assert(brands@.take(k as int).drop_last() =~= brands@.take(k - 1));
        assert(brands@.take(k as int).last() == brands@[k - 1]);
        if str_eq(brands[k - 1].name.as_str(), name) {
            return Some(brands[k - 1].id.clone());
        }
        k = k - 1;
    }
    None
}

/// The brand id of the last product with id `pid` (see [`product_brand`]).
fn find_product_brand(products: &Vec<ProductRow>, brands: &Vec<BrandRow>, pid: &[char]) -> (r:
    Option<Option<String>>)
    ensures
        match r {
            Some(b) => product_brand(products@, brands@, pid@) == Some(crate::model::opt_view(b)),
            None => product_brand(products@, brands@, pid@).is_none(),
        },
{
    let mut k = products.len();
    assert(products@.take(k as int) =~= products@);
    while k > 0
        invariant
            k <= products@.len(),
            product_brand(products@, brands@, pid@) == product_brand(
                products@.take(k as int),
                brands@,
                pid@,
            ),
        decreases k,
    {
        assert(products@.take(k as int).drop_last() =~= products@.take(k - 1));
        assert(products@.take(k as int).last() == products@[k - 1]);
        if str_eq(products[k - 1].id.as_str(), pid) {
            let b = trim_chars(&chars_of(products[k - 1].brand.as_str()));
            return Some(find_brand_id(brands, &b));
        }
        k = k - 1;
    }
    None
}

/// The non-empty string held by `o`, as characters.
fn non_empty_chars(o: &Option<String>) -> (r: Option<Vec<char>>)
    ensures
        match r {
            Some(v) => non_empty_opt(crate::model::opt_view(*o)) == Some(v@),
            None => non_empty_opt(crate::model::opt_view(*o)).is_none(),
        },
{
    match o {
        Some(s) => {
            let cs = chars_of(s.as_str());
            if cs.len() > 0 {
                Some(cs)
            } else {
                None
            }
        },
        None => None,
    }
}

/// The `(id, name)` pairs of the brands.
fn candidates_of(brands: &Vec<BrandRow>) -> (r: Vec<(String, String)>)
    ensures
        pair_views(r@) == brand_candidates(brands@),
{
    let mut out: Vec<(String, String)> = Vec::new();
    for k in 0..brands.len()
        invariant
            out@.len() == k,
            forall|m: int|
                0 <= m < k ==> (#[trigger] out@[m]).0@ == brands@[m].id@ && out@[m].1@
                    == brands@[m].name@,
    {
        let id = brands[k].id.clone();
        let name = brands[k].name.clone();
        out.push((id, name));
    }
    assert(pair_views(out@) =~= brand_candidates(brands@));
    out
}

/// The brand a provider product gets (see [`resolved_brand`]).
pub fn resolve_brand(
    pp: &ProviderProductRow,
    products: &Vec<ProductRow>,
    brands: &Vec<BrandRow>,
    candidates: &Vec<(String, String)>,
) -> (r: Option<String>)
    requires
        pair_views(candidates@) == brand_candidates(brands@),
    ensures
        crate::model::opt_view(r) == resolved_brand(*pp, products@, brands@),
{
    match non_empty_chars(&pp.product_id) {
        Some(pid) => match find_product_brand(products, brands, &pid) {
            Some(b) => b,
            None => None,
        },
        None => match best_match(pp.name.as_str(), candidates) {
            Some(i) => {
                assert(pair_views(candidates@)[i as int].0 == candidates@[i as int].0@);
                Some(candidates[i].0.clone())
            },
            None => None,
        },
    }
}

fn opt_eq(a: &Option<String>, b: &Option<Vec<char>>) -> (r: bool)
    ensures
        r == (crate::model::opt_view(*a) == match b {
            Some(v) => Some(v@),
            None => None::<Seq<char>>,
        }),
{
    match (a, b) {
        (Some(x), Some(y)) => str_eq(x.as_str(), y.as_slice()),
        (None, None) => true,
        _ => false,
    }
}

/// Assigns a brand to every provider product. A provider product linked
/// to a canonical product (non-empty `product_id`) takes that product's
/// brand: the last brand named as the product's trimmed brand, or none.
/// The others get the best fuzzy match of their name among the brands
/// (every brand token in the name; longest brand name wins). Returns the
/// counts and the `brand_id` writes, in order: one for every provider
/// product whose brand differs from its stored `brand_id` (an empty stored
/// id counts as none).
pub fn match_brands(
    provider_products: &Vec<ProviderProductRow>,
    products: &Vec<ProductRow>,
    brands: &Vec<BrandRow>,
) -> (r: (BrandMatchSummary, Vec<BrandLink>))
    ensures
        summary_counts(r.0) == brand_plan(provider_products@, products@, brands@).0,
        link_views(r.1@) == brand_plan(provider_products@, products@, brands@).1,
{
    let candidates = candidates_of(brands);
    let mut s = BrandMatchSummary {
        provider_products: 0,
        matched_from_product: 0,
        matched_by_fuzzy: 0,
        unmatched: 0,
        updated: 0,
    };
    let mut links: Vec<BrandLink> = Vec::new();
    for k in 0..provider_products.len()
        invariant
            pair_views(candidates@) == brand_candidates(brands@),
            summary_counts(s) == brand_plan(provider_products@.take(k as int), products@, brands@).0,
            link_views(links@) == brand_plan(provider_products@.take(k as int), products@, brands@).1,
            s.provider_products == k,
            s.matched_from_product <= k,
            s.matched_by_fuzzy <= k,
            s.unmatched <= k,
            s.updated <= k,
    {
        let pp = &provider_products[k];
        let ghost pre = provider_products@.take(k as int);
        assert(provider_products@.take(k + 1).drop_last() =~= pre);
        assert(provider_products@.take(k + 1).last() == *pp);
        let target = resolve_brand(pp, products, brands, &candidates);
        let linked = non_empty_chars(&pp.product_id).is_some();
        let current = non_empty_chars(&pp.brand_id);
        let same = opt_eq(&target, &current);
        s.provider_products = s.provider_products + 1;
        match &target {
            Some(_) => {
                if linked {
                    s.matched_from_product = s.matched_from_product + 1;
                } else {
                    s.matched_by_fuzzy = s.matched_by_fuzzy + 1;
                }
            },
            None => {
                s.unmatched = s.unmatched + 1;
            },
        }
        if !same {
            s.updated = s.updated + 1;
            let ghost old_links = links@;
            links.push(BrandLink { provider_product_id: pp.id.clone(), brand_id: target });
            assert(link_views(links@) =~= link_views(old_links).push(
                (pp@.id, resolved_brand(*pp, products@, brands@)),
            ));
        }
    }
    assert(provider_products@.take(provider_products.len() as int) =~= provider_products@);
    (s, links)
}


/// A provider product whose stored name is missing the brand of its linked
/// canonical product.
pub struct MissingBrandRow {
    /// The provider product record id.
    pub provider_product_id: String,
    /// The provider record id.
    pub provider_id: String,
    /// The provider's hostname.
    pub provider_domain: String,
    /// The stored provider product name.
    pub name: String,
    /// The linked canonical product id.
    pub product_id: String,
    /// The canonical product's brand, absent from `name`.
    pub brand: String,
}

/// Outcome of one missing-brand report.
pub struct MissingBrandReport {
    /// Provider products with a `product_id` link.
    pub matched: usize,
    /// The subset whose name is missing the linked product's brand.
    pub affected: Vec<MissingBrandRow>,
}

pub type MissingView = (Seq<char>, Seq<char>, Seq<char>, Seq<char>, Seq<char>, Seq<char>);

pub open spec fn missing_view(r: MissingBrandRow) -> MissingView {
    (r.provider_product_id@, r.provider_id@, r.provider_domain@, r.name@, r.product_id@, r.brand@)
}

pub open spec fn missing_views(v: Seq<MissingBrandRow>) -> Seq<MissingView> {
    v.map_values(|r: MissingBrandRow| missing_view(r))
}

/// The trimmed brand of the last canonical product with id `pid`.
pub open spec fn brand_of_product(products: Seq<ProductRow>, pid: Seq<char>) -> Option<Seq<char>>
    decreases products.len(),
{
    if products.len() == 0 {
        None
    } else if products.last().id@ == pid {
        Some(trim(products.last().brand@))
    } else {
        brand_of_product(products.drop_last(), pid)
    }
}

/// The domain of the last provider with id `id`, empty when none.
pub open spec fn domain_of(providers: Seq<ProviderRow>, id: Seq<char>) -> Seq<char>
    decreases providers.len(),
{
    if providers.len() == 0 {
        seq![]
    } else if providers.last().id@ == id {
        providers.last().domain@
    } else {
        domain_of(providers.drop_last(), id)
    }
}

/// The report for `pps`: how many are linked, and, in order, the linked ones
/// whose product has a non-empty brand that their name does not cover.
pub open spec fn missing_plan(
    pps: Seq<ProviderProductRow>,
    products: Seq<ProductRow>,
    providers: Seq<ProviderRow>,
) -> (nat, Seq<MissingView>)
    decreases pps.len(),
{
    if pps.len() == 0 {
        (0, seq![])
    } else {
        let (m, a) = missing_plan(pps.drop_last(), products, providers);
        let pp = pps.last();
        match non_empty_opt(pp@.product_id) {
            None => (m, a),
            Some(pid) => match brand_of_product(products, pid) {
                None => (m + 1, a),
                Some(brand) => if brand.len() == 0 || covers(pp@.name, brand) {
                    (m + 1, a)
                } else {
                    (
                        m + 1,
                        a.push(
                            (
                                pp@.id,
                                pp@.provider_id,
                                domain_of(providers, pp@.provider_id),
                                pp@.name,
                                pid,
                                brand,
                            ),
                        ),
                    )
                },
            },
        }
    }
}

fn find_product_brand_name(products: &Vec<ProductRow>, pid: &[char]) -> (r: Option<Vec<char>>)
    ensures
        match r {
            Some(v) => brand_of_product(products@, pid@) == Some(v@),
            None => brand_of_product(products@, pid@).is_none(),
        },
{
    let mut k = products.len();
    assert(products@.take(k as int) =~= products@);
    while k > 0
        invariant
            k <= products@.len(),
            brand_of_product(products@, pid@) == brand_of_product(products@.take(k as int), pid@),
        decreases k,
    {
        assert(products@.take(k as int).drop_last() =~= products@.take(k - 1));
        assert(products@.take(k as int).last() == products@[k - 1]);
        if str_eq(products[k - 1].id.as_str(), pid) {
            return Some(trim_chars(&chars_of(products[k - 1].brand.as_str())));
        }
        k = k - 1;
    }
    None
}

fn find_domain(providers: &Vec<ProviderRow>, id: &str) -> (r: String)
    ensures
        r@ == domain_of(providers@, id@),
{
    let idc = chars_of(id);
    let mut k = providers.len();
    assert(providers@.take(k as int) =~= providers@);
    while k > 0
        invariant
            k <= providers@.len(),
            idc@ == id@,
            domain_of(providers@, id@) == domain_of(providers@.take(k as int), id@),
        decreases k,
    {
        assert(providers@.take(k as int).drop_last() =~= providers@.take(k - 1));
        assert(providers@.take(k as int).last() == providers@[k - 1]);
        if str_eq(providers[k - 1].id.as_str(), &idc) {
            return providers[k - 1].domain.clone();
        }
        k = k - 1;
    }
    String::new()
}

/// Lists provider products linked to a canonical product whose stored name
/// does not contain that product's brand. A link is a non-empty
/// `product_id`; the brand is the trimmed brand of the last product with
/// that id; a link to an unknown product, an empty brand, or a name that
/// holds every token of the brand (coverage 1.0) is not reported. The
/// provider's domain is that of the last provider with the row's
/// `provider_id`, empty when there is none.
pub fn missing_brands(
    provider_products: &Vec<ProviderProductRow>,
    products: &Vec<ProductRow>,
    providers: &Vec<ProviderRow>,
) -> (r: MissingBrandReport)
    ensures
        r.matched as nat == missing_plan(provider_products@, products@, providers@).0,
        missing_views(r.affected@) == missing_plan(provider_products@, products@, providers@).1,
{
    let mut affected: Vec<MissingBrandRow> = Vec::new();
    let mut matched: usize = 0;
    for k in 0..provider_products.len()
        invariant
            matched as nat == missing_plan(provider_products@.take(k as int), products@, providers@).0,
            missing_views(affected@) == missing_plan(
                provider_products@.take(k as int),
                products@,
                providers@,
            ).1,
            matched <= k,
    {
        let pp = &provider_products[k];
        let ghost pre = provider_products@.take(k as int);
        assert(provider_products@.take(k + 1).drop_last() =~= pre);
        assert(provider_products@.take(k + 1).last() == *pp);
        match non_empty_chars(&pp.product_id) {
            None => {},
            Some(pid) => {
                matched = matched + 1;
                match find_product_brand_name(products, &pid) {
                    None => {},
                    Some(brand) => {
                        let bs = string_of(&brand);
                        if brand.len() == 0 || covers_brand(pp.name.as_str(), bs.as_str()) {
                        } else {
                            let row = MissingBrandRow {
                                provider_product_id: pp.id.clone(),
                                provider_id: pp.provider_id.clone(),
                                provider_domain: find_domain(providers, pp.provider_id.as_str()),
                                name: pp.name.clone(),
                                product_id: string_of(&pid),
                                brand: bs,
                            };
                            let ghost old_a = affected@;
                            affected.push(row);
                            assert(missing_views(affected@) =~= missing_views(old_a).push(
                                missing_view(row),
                            ));
                        }
                    },
                }
            },
        }
    }
    assert(provider_products@.take(provider_products.len() as int) =~= provider_products@);
    MissingBrandReport { matched, affected }
}

/// The known brands: the trimmed non-empty brand names, then the trimmed
/// non-empty brands of the canonical products.
pub open spec fn known_brands(brands: Seq<BrandRow>, products: Seq<ProductRow>) -> Seq<Seq<char>> {
    brands.map_values(|b: BrandRow| trim(b.name@)).filter(|n: Seq<char>| n.len() > 0)
        + products.map_values(|p: ProductRow| trim(p.brand@)).filter(|n: Seq<char>| n.len() > 0)
}

/// Whether no known brand is covered by `name`.
pub open spec fn has_no_brand(name: Seq<char>, known: Seq<Seq<char>>) -> bool {
    forall|k: int| 0 <= k < known.len() ==> !covers(name, #[trigger] known[k])
}

/// The rows whose name covers none of the `known` brands, in order; none
/// at all when no brand is known.
pub open spec fn unbranded_rows(pps: Seq<ProviderProductRow>, known: Seq<Seq<char>>) -> Seq<ProviderProductRow> {
    if known.len() == 0 {
        seq![]
    } else {
        pps.filter(|pp: ProviderProductRow| has_no_brand(pp@.name, known))
    }
}

pub open spec fn pp_views(v: Seq<ProviderProductRow>) -> Seq<crate::model::ProviderProductView> {
    v.map_values(|p: ProviderProductRow| p@)
}

fn known_brand_list(brands: &Vec<BrandRow>, products: &Vec<ProductRow>) -> (r: Vec<String>)
    ensures
        r@.map_values(|s: String| s@) == known_brands(brands@, products@),
{
    let mut out: Vec<String> = Vec::new();
    let ghost bn = brands@.map_values(|b: BrandRow| trim(b.name@));
    let ghost pb = products@.map_values(|p: ProductRow| trim(p.brand@));
    for k in 0..brands.len()
        invariant
            bn == brands@.map_values(|b: BrandRow| trim(b.name@)),
            out@.map_values(|s: String| s@) == bn.take(k as int).filter(|n: Seq<char>| n.len() > 0),
    {
        let t = trim_chars(&chars_of(brands[k].name.as_str()));
        assert(bn.take(k + 1) =~= bn.take(k as int).push(t@));
        proof {
            crate::text::lemma_filter_push(bn.take(k as int), t@, |n: Seq<char>| n.len() > 0);
        }
        if t.len() > 0 {
            let ghost o = out@;
            out.push(string_of(&t));
            assert(out@.map_values(|s: String| s@) =~= o.map_values(|s: String| s@).push(t@));
        }
    }
    assert(bn.take(brands.len() as int) =~= bn);
    let ghost head = out@.map_values(|s: String| s@);
    for k in 0..products.len()
        invariant
            pb == products@.map_values(|p: ProductRow| trim(p.brand@)),
            out@.map_values(|s: String| s@) == head + pb.take(k as int).filter(
                |n: Seq<char>| n.len() > 0,
            ),
    {
        let t = trim_chars(&chars_of(products[k].brand.as_str()));
        assert(pb.take(k + 1) =~= pb.take(k as int).push(t@));
        proof {
            crate::text::lemma_filter_push(pb.take(k as int), t@, |n: Seq<char>| n.len() > 0);
        }
        if t.len() > 0 {
            let ghost o = out@;
            out.push(string_of(&t));
            assert(out@.map_values(|s: String| s@) =~= o.map_values(|s: String| s@).push(t@));
        }
    }
    assert(pb.take(products.len() as int) =~= pb);
    out
}

/// Every provider product whose name contains no known brand, in order. A
/// brand is in a name when all its normalized tokens occur in it
/// (coverage 1.0); the known brands are the brand table's names and the
/// canonical products' brands, trimmed, empty ones skipped. With no known
/// brand at all, nothing is returned.
pub fn unbranded_products(
    provider_products: &Vec<ProviderProductRow>,
    products: &Vec<ProductRow>,
    brands: &Vec<BrandRow>,
) -> (r: Vec<ProviderProductRow>)
    ensures
        pp_views(r@) == pp_views(unbranded_rows(provider_products@, known_brands(brands@, products@))),
{
    let known = known_brand_list(brands, products);
    let ghost kv = known_brands(brands@, products@);
    let mut out: Vec<ProviderProductRow> = Vec::new();
    if known.len() == 0 {
        return out;
    }
    let ghost pred = |pp: ProviderProductRow| has_no_brand(pp@.name, kv);
    for k in 0..provider_products.len()
        invariant
            known@.map_values(|s: String| s@) == kv,
            pred == (|pp: ProviderProductRow| has_no_brand(pp@.name, kv)),
            pp_views(out@) == pp_views(provider_products@.take(k as int).filter(pred)),
    {
        let pp = &provider_products[k];
        let ghost pre = provider_products@.take(k as int);
        assert(provider_products@.take(k + 1) =~= pre.push(*pp));
        proof {
            crate::text::lemma_filter_push(pre, *pp, pred);
        }
        let mut none = true;
        for j in 0..known.len()
            invariant
                known@.map_values(|s: String| s@) == kv,
                none == forall|m: int| 0 <= m < j ==> !covers(pp@.name, #[trigger] kv[m]),
        {
            assert(kv[j as int] == known@[j as int]@);
            if covers_brand(pp.name.as_str(), known[j].as_str()) {
                none = false;
            }
        }
        if none {
            let ghost o = out@;
            out.push(pp.duplicate());
            assert(pp_views(out@) =~= pp_views(o).push(pp@));
            assert(pp_views(provider_products@.take(k + 1).filter(pred)) =~= pp_views(
                pre.filter(pred),
            ).push(pp@));
        }
    }
    assert(provider_products@.take(provider_products.len() as int) =~= provider_products@);
    out
}

proof fn lemma_filter_stronger<A>(s: Seq<A>, p1: spec_fn(A) -> bool, p2: spec_fn(A) -> bool)
    requires
        forall|x: A| #[trigger] p2(x) ==> p1(x),
    ensures
        s.filter(p2) == s.filter(p1).filter(p2),
    decreases s.len(),
{
    if s.len() > 0 {
        let u = s.drop_last();
        let x = s.last();
        assert(s =~= u.push(x));
        lemma_filter_stronger(u, p1, p2);
        crate::text::lemma_filter_push(u, x, p2);
        crate::text::lemma_filter_push(u, x, p1);
        if p1(x) {
            crate::text::lemma_filter_push(u.filter(p1), x, p2);
        }
    } else {
        assert(s.filter(p2) =~= Seq::<A>::empty());
        assert(s.filter(p1) =~= Seq::<A>::empty());
        assert(s.filter(p1).filter(p2) =~= Seq::<A>::empty());
    }
}

/// Adding brands never adds unbranded rows: when the brand table `more`
/// holds every row of `brands` (and any others, anywhere), the unbranded
/// rows are those found with `brands` that still cover none of the known
/// brands, a subsequence of them, as long as some brand was known before.
pub proof fn lemma_more_brands_fewer_unbranded(
    pps: Seq<ProviderProductRow>,
    products: Seq<ProductRow>,
    brands: Seq<BrandRow>,
    more: Seq<BrandRow>,
)
    requires
        known_brands(brands, products).len() > 0,
        forall|i: int| 0 <= i < brands.len() ==> more.contains(#[trigger] brands[i]),
    ensures
        ({
            let k1 = known_brands(brands, products);
            let k2 = known_brands(more, products);
            unbranded_rows(pps, k2) == unbranded_rows(pps, k1).filter(
                |pp: ProviderProductRow| has_no_brand(pp@.name, k2),
            )
        }),
{
    let k1 = known_brands(brands, products);
    let k2 = known_brands(more, products);
    let tb = |b: BrandRow| trim(b.name@);
    let tp = |p: ProductRow| trim(p.brand@);
    let ne = |n: Seq<char>| n.len() > 0;
    let b1 = brands.map_values(tb).filter(ne);
    let b2 = more.map_values(tb).filter(ne);
    let pb = products.map_values(tp).filter(ne);
    assert(k1 == b1 + pb);
    assert(k2 == b2 + pb);
    assert forall|x: Seq<char>| k1.contains(x) implies k2.contains(x) by {
        let i = choose|i: int| 0 <= i < k1.len() && k1[i] == x;
        if i < b1.len() {
            assert(b1.contains(x));
            brands.map_values(tb).lemma_filter_contains_rev(ne, x);
            let j = choose|j: int| 0 <= j < brands.map_values(tb).len() && brands.map_values(tb)[j] == x;
            assert(more.contains(brands[j]));
            let m = choose|m: int| 0 <= m < more.len() && more[m] == brands[j];
            assert(more.map_values(tb)[m] == x);
            more.map_values(tb).lemma_filter_contains(ne, m);
            let l = choose|l: int| 0 <= l < b2.len() && b2[l] == x;
            assert(k2[l] == x);
        } else {
            assert(k2[i + (b2.len() - b1.len())] == pb[i - b1.len()]);
        }
    }
    assert(k2.len() > 0) by {
        assert(k1.contains(k1[0]));
        let j = choose|j: int| 0 <= j < k2.len() && k2[j] == k1[0];
    }
    let p1 = |pp: ProviderProductRow| has_no_brand(pp@.name, k1);
    let p2 = |pp: ProviderProductRow| has_no_brand(pp@.name, k2);
    assert forall|pp: ProviderProductRow| #[trigger] p2(pp) implies p1(pp) by {
        assert forall|k: int| 0 <= k < k1.len() implies !covers(pp@.name, #[trigger] k1[k]) by {
            assert(k1.contains(k1[k]));
            let j = choose|j: int| 0 <= j < k2.len() && k2[j] == k1[k];
            assert(!covers(pp@.name, k2[j]));
        }
    }
    lemma_filter_stronger(pps, p1, p2);
}

/// Whether `after` is `before` once its brand writes are made: every row
/// the same but for its `brand_id`, which now holds the row's resolved
/// brand (a row that was not written held it already).
pub open spec fn brands_written(
    before: Seq<ProviderProductRow>,
    after: Seq<ProviderProductRow>,
    products: Seq<ProductRow>,
    brands: Seq<BrandRow>,
) -> bool {
    &&& after.len() == before.len()
    &&& forall|i: int|
        0 <= i < before.len() ==> {
            &&& (#[trigger] after[i])@.id == before[i]@.id
            &&& after[i]@.provider_id == before[i]@.provider_id
            &&& after[i]@.name == before[i]@.name
            &&& after[i]@.product_id == before[i]@.product_id
            &&& non_empty_opt(after[i]@.brand_id) == resolved_brand(before[i], products, brands)
        }
}

/// A second brand-matching run right after the first writes nothing: once
/// the first run's writes are made, the plan has no write and no update,
/// and the same counts of products matched from their link, by fuzzy
/// match, and left unmatched.
pub proof fn lemma_match_brands_settles(
    before: Seq<ProviderProductRow>,
    after: Seq<ProviderProductRow>,
    products: Seq<ProductRow>,
    brands: Seq<BrandRow>,
)
    requires
        brands_written(before, after, products, brands),
    ensures
        ({
            let c1 = brand_plan(before, products, brands).0;
            let (c2, w2) = brand_plan(after, products, brands);
            &&& w2 == Seq::<(Seq<char>, Option<Seq<char>>)>::empty()
            &&& c2 == (c1.0, c1.1, c1.2, c1.3, 0nat)
        }),
    decreases before.len(),
{
    if before.len() > 0 {
        let b = before.drop_last();
        let a = after.drop_last();
        assert forall|i: int| 0 <= i < b.len() implies {
            &&& (#[trigger] a[i])@.id == b[i]@.id
            &&& a[i]@.provider_id == b[i]@.provider_id
            &&& a[i]@.name == b[i]@.name
            &&& a[i]@.product_id == b[i]@.product_id
            &&& non_empty_opt(a[i]@.brand_id) == resolved_brand(b[i], products, brands)
        } by {
            assert(a[i] == after[i] && b[i] == before[i]);
        }
        lemma_match_brands_settles(b, a, products, brands);
        let n = before.len() - 1;
        assert(after.last() == after[n] && before.last() == before[n]);
        assert(resolved_brand(after[n], products, brands) == resolved_brand(before[n], products, brands));
    }
}

} // verus!
