//! Detecting the product price grid of an e-commerce page and extracting
//! its products, without a browser.
//!
//! Amounts are carried as plain decimal text (`1234.56`), which
//! `str::parse::<f64>` reads.

use vstd::prelude::*;

use crate::cards::{extract_products, opt_string, products_of};
use crate::dom::{attr, classes, is_element, parse, parsed_document, Dom, NodeView};
use crate::grid::{entries_view, find_price_divs, price_divs};
use crate::model::opt_view;
use crate::ranking::{ranked, ranked_containers};
use crate::text::{chars_of, string_of};

verus! {

/// A detected product.
pub struct Product {
    /// Display name, possibly enriched with the size.
    pub name: String,
    /// The price text verbatim.
    pub price_text: String,
    /// The price amount as plain decimal text.
    pub price: String,
    /// The product card's link, when one was found.
    pub url: Option<String>,
    /// Deduplicated image URLs in the card.
    pub images: Vec<String>,
    /// Best-effort currency code (`ARS`, `USD`, ...), when detectable.
    pub currency: Option<String>,
}

impl Default for Product {
    fn default() -> (r: Self)
        ensures
            r.name@.len() == 0,
            r.price_text@.len() == 0,
            r.price@.len() == 0,
            r.url.is_none(),
            r.images@.len() == 0,
            r.currency.is_none(),
    {
        Product {
            name: String::new(),
            price_text: String::new(),
            price: String::new(),
            url: None,
            images: Vec::new(),
            currency: None,
        }
    }
}

/// A product as plain values.
pub struct ProductView {
    pub name: Seq<char>,
    pub price_text: Seq<char>,
    pub price: Seq<char>,
    pub url: Option<Seq<char>>,
    pub images: Seq<Seq<char>>,
    pub currency: Option<Seq<char>>,
}

pub open spec fn product_view(p: Product) -> ProductView {
    ProductView {
        name: p.name@,
        price_text: p.price_text@,
        price: p.price@,
        url: opt_view(p.url),
        images: p.images@.map_values(|s: String| s@),
        currency: opt_view(p.currency),
    }
}

pub open spec fn products_view(v: Seq<Product>) -> Seq<ProductView> {
    v.map_values(|p: Product| product_view(p))
}

/// The grid container that was selected for the detection.
pub struct Container {
    /// The element's CSS classes.
    pub classes: Vec<String>,
    /// The element's `id` attribute, when present.
    pub id: Option<String>,
    /// Number of direct element children of the container.
    pub child_count: usize,
}

/// A container as plain values: classes, `id`, element children.
pub open spec fn container_view(c: Container) -> (Seq<Seq<char>>, Option<Seq<char>>, nat) {
    (c.classes@.map_values(|s: String| s@), opt_view(c.id), c.child_count as nat)
}

/// The result of running [`detect_grid`] over a page.
pub struct Detection {
    /// The container that grouped the prices into a grid.
    pub container: Container,
    /// One product per detected card.
    pub products: Vec<Product>,
}

/// The number of element children of `i`.
pub open spec fn element_children(d: Seq<NodeView>, i: int) -> nat {
    d[i].children.filter(|c: usize| is_element(d, c as int)).len()
}

/// What a page's grid is: none when no `div` holds two price elements;
/// otherwise the best ranked container (its classes, `id` and number of
/// element children) and the products of its cards.
pub open spec fn detection(d: Seq<NodeView>) -> Option<
    ((Seq<Seq<char>>, Option<Seq<char>>, nat), Seq<ProductView>),
> {
    let pd = price_divs(d);
    let r = ranked(d, pd);
    if r.len() == 0 {
        None
    } else {
        Some(
            (
                (classes(d, r[0].0), attr(d, r[0].0, "id"@), element_children(d, r[0].0)),
                products_of(d, r[0].0, pd),
            ),
        )
    }
}

pub open spec fn detection_view(r: Option<Detection>) -> Option<
    ((Seq<Seq<char>>, Option<Seq<char>>, nat), Seq<ProductView>),
> {
    match r {
        Some(x) => Some((container_view(x.container), products_view(x.products@))),
        None => None,
    }
}

/// The number of element children of `i`.
fn count_element_children(dom: &Dom, i: usize) -> (r: usize)
    requires
        i < dom.view_nodes().len(),
    ensures
        r == element_children(dom.view_nodes(), i as int),
{
    let ghost d = dom.view_nodes();
    let cs = dom.children(i);
    let ghost p = |c: usize| is_element(d, c as int);
    let mut count: usize = 0;
    for k in 0..cs.len()
        invariant
            d == dom.view_nodes(),
            cs@ == d[i as int].children,
            p == (|c: usize| is_element(d, c as int)),
            count == cs@.take(k as int).filter(p).len(),
            count <= k,
    {
        proof {
            assert(cs@.take(k + 1) =~= cs@.take(k as int).push(cs@[k as int]));
            crate::text::lemma_filter_push(cs@.take(k as int), cs@[k as int], p);
        }
        if dom.is_element(cs[k]) {
            count = count + 1;
        }
    }
    assert(cs@.take(cs.len() as int) =~= cs@);
    count
}

/// The selected container of `dom`: element `id`'s classes, `id`
/// attribute and number of element children.
fn build_container(dom: &Dom, id: usize) -> (r: Container)
    requires
        id < dom.view_nodes().len(),
    ensures
        container_view(r) == (classes(dom.view_nodes(), id as int), attr(dom.view_nodes(), id as int, "id"@), element_children(dom.view_nodes(), id as int)),
{
    Container {
        classes: dom.classes(id),
        id: opt_string(dom.attr(id, "id")),
        child_count: count_element_children(dom, id),
    }
}

/// Detects the product grid of a parsed page (see [`detection`]).
pub fn detect_in(dom: &Dom) -> (r: Option<Detection>)
    ensures
        detection_view(r) == detection(dom.view_nodes()),
{
    let pd = find_price_divs(dom);
    let ranked = ranked_containers(dom, &pd);
    if ranked.len() == 0 {
        return None;
    }
    let (id, _, _) = ranked[0];
    proof {
        crate::ranking::lemma_ranked_valid(dom.view_nodes(), entries_view(pd@));
    }
    let container = build_container(dom, id);
    let products = extract_products(dom, id, &pd);
    Some(Detection { container, products })
}

/// Detects the product price grid in `source` and extracts its products
/// (see [`detection`]). Returns `None` when no credible grid is found.
pub fn detect_grid(source: &str) -> (r: Option<Detection>)
    ensures
        detection_view(r) == detection(parsed_document(source@)),
{
    let dom = parse(source);
    detect_in(&dom)
}


/// A candidate product container, as ranked by the detector.
pub struct ContainerCandidate {
    /// The element's CSS classes.
    pub classes: Vec<String>,
    /// The element's `id` attribute, when present.
    pub id: Option<String>,
    /// Price elements inside it.
    pub price_count: usize,
    /// `div` elements inside it, itself included.
    pub div_count: usize,
    /// Whether [`detect_grid`] picks it.
    pub selected: bool,
}

/// A candidate as plain values.
pub open spec fn candidate_view(c: ContainerCandidate) -> (Seq<Seq<char>>, Option<Seq<char>>, nat, nat, bool) {
    (c.classes@.map_values(|s: String| s@), opt_view(c.id), c.price_count as nat, c.div_count as nat, c.selected)
}

/// Every candidate container of a page, best first: its classes, `id`,
/// price and `div` counts, and whether it is the one picked (the first).
pub open spec fn diagnosis(d: Seq<NodeView>) -> Seq<(Seq<Seq<char>>, Option<Seq<char>>, nat, nat, bool)> {
    let r = ranked(d, price_divs(d));
    r.map_values(
        |x: (int, nat, nat)| (classes(d, x.0), attr(d, x.0, "id"@), x.1, x.2, x.0 == r[0].0),
    )
}

/// Ranks every candidate product container in `source` (see
/// [`diagnosis`]); the `selected` flag marks the one [`detect_grid`] picks.
/// Useful for diagnosing why a grid on a whole page resolves to the wrong
/// container.
pub fn diagnose_containers(source: &str) -> (r: Vec<ContainerCandidate>)
    ensures
        r@.map_values(|c: ContainerCandidate| candidate_view(c)) == diagnosis(parsed_document(source@)),
{
    let dom = parse(source);
    let ghost d = dom.view_nodes();
    let pd = find_price_divs(&dom);
    let order = ranked_containers(&dom, &pd);
    let ghost rv = crate::ranking::cands_view(order@);
    let mut out: Vec<ContainerCandidate> = Vec::new();
    for k in 0..order.len()
        invariant
            d == dom.view_nodes(),
            rv == crate::ranking::cands_view(order@),
            rv == ranked(d, price_divs(d)),
            out@.map_values(|c: ContainerCandidate| candidate_view(c)) == rv.take(k as int).map_values(
                |x: (int, nat, nat)| (classes(d, x.0), attr(d, x.0, "id"@), x.1, x.2, x.0 == rv[0].0),
            ),
    {
        let (id, p, dv) = order[k];
        let c = ContainerCandidate {
            classes: dom.classes(id),
            id: opt_string(dom.attr(id, "id")),
            price_count: p,
            div_count: dv,
            selected: id == order[0].0,
        };
        let ghost o = out@.map_values(|c: ContainerCandidate| candidate_view(c));
        out.push(c);
        assert(rv.take(k + 1) =~= rv.take(k as int).push(rv[k as int]));
        assert(out@.map_values(|c: ContainerCandidate| candidate_view(c)) =~= o.push(candidate_view(c)));
    }
    assert(rv.take(order.len() as int) =~= rv);
    out
}

/// The candidate marked selected is the container the grid detection
/// picks: a page has a grid exactly when it has a candidate, the first
/// candidate is selected, and its classes and `id` are those of the
/// detected container.
pub proof fn lemma_selected_is_detected(d: Seq<NodeView>)
    ensures
        detection(d) is Some <==> diagnosis(d).len() > 0,
        diagnosis(d).len() > 0 ==> diagnosis(d)[0].4 && diagnosis(d)[0].0 == detection(d).unwrap().0.0
            && diagnosis(d)[0].1 == detection(d).unwrap().0.1,
{
}

} // verus!
