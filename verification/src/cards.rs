//! Turning the price elements inside the chosen container into products:
//! one per card, with its name, current price, link, images and currency.

use vstd::prelude::*;

use crate::detect::{product_view, Product, ProductView};
use crate::dom::{ancestors, attr, class_contains, classes, has_sub, occurs_in, is_element, is_tag, preorder, text_content, valid, Dom, NodeView};
use crate::grid::{entries_view, holds, prices_present, PriceList};
use crate::names::{
    anchor_label_of, is_anchor, is_name_anchor, is_name_anchor_at, largest_block, largest_block_of, opt_chars,
    structured_name, structured_name_of, trimmed_attr, trimmed_attr_of, vec_eq,
};
use crate::prices::{classify, classify_chars, find_first, price_view, Price};
use crate::size::{enrich_name, enriched_name, find_size, find_size_chars, is_placeholder_href, placeholder_href};
use crate::text::{chars_of, collapse, collapse_whitespace, string_of, trim, trim_chars};
use crate::unicode::{lowercase, to_lowercase, to_uppercase, uppercase};

verus! {

/// The parent of `i`, when it has one that indexes a node.
pub open spec fn parent_of(d: Seq<NodeView>, i: int) -> Option<int> {
    if valid(d, i) {
        match d[i].parent {
            Some(p) => if valid(d, p as int) {
                Some(p as int)
            } else {
                None
            },
            None => None,
        }
    } else {
        None
    }
}

/// A wrapper that lists cards: `ul`, `ol`, `tbody`, `table`, or an element
/// with `role="list"`.
pub open spec fn is_list_wrapper(d: Seq<NodeView>, n: int) -> bool {
    is_tag(d, n, "ul"@) || is_tag(d, n, "ol"@) || is_tag(d, n, "tbody"@) || is_tag(d, n, "table"@)
        || attr(d, n, "role"@) == Some("list"@)
}

/// Climbs from `node` (reached from `child`) towards `container`, at most
/// `fuel` steps: the card is the container's child on the way, or the node
/// below it when that child is a list wrapper; `child` when the climb ends
/// elsewhere.
pub open spec fn card_walk(d: Seq<NodeView>, node: int, child: int, container: int, fuel: nat) -> int
    decreases fuel,
{
    if fuel == 0 {
        child
    } else {
        match parent_of(d, node) {
            None => child,
            Some(p) => if p == container {
                if is_list_wrapper(d, node) {
                    child
                } else {
                    node
                }
            } else {
                card_walk(d, p, node, container, (fuel - 1) as nat)
            },
        }
    }
}

/// The card of price element `id` inside `container`.
pub open spec fn card_of(d: Seq<NodeView>, id: int, container: int) -> int {
    card_walk(d, id, id, container, d.len())
}

/// Climbs from `node` towards `container` looking for a name: the first
/// structured name on the way, else the longest name-like block seen
/// (strictly longer blocks replace `best`).
pub open spec fn guess_walk(d: Seq<NodeView>, node: int, container: int, best: Seq<char>, fuel: nat) -> Seq<
    char,
>
    decreases fuel,
{
    if fuel == 0 {
        best
    } else if structured_name(d, node) is Some {
        structured_name(d, node).unwrap()
    } else {
        let b = match largest_block(d, node) {
            Some(t) => if t.len() > best.len() {
                t
            } else {
                best
            },
            None => best,
        };
        match parent_of(d, node) {
            None => b,
            Some(p) => if p == container {
                b
            } else {
                guess_walk(d, p, container, b, (fuel - 1) as nat)
            },
        }
    }
}

/// The name guessed for price element `id` inside `container`.
pub open spec fn guess_name(d: Seq<NodeView>, id: int, container: int) -> Seq<char> {
    guess_walk(d, id, container, seq![], d.len())
}

/// An element marked as the current price: `itemprop="price"` or
/// `data-price-type="finalPrice"`.
pub open spec fn is_current_price(d: Seq<NodeView>, n: int) -> bool {
    is_element(d, n) && (attr(d, n, "itemprop"@) == Some("price"@) || attr(d, n, "data-price-type"@)
        == Some("finalPrice"@))
}

/// The last price of the first current-price element among `s[k..]` whose
/// text holds prices.
pub open spec fn current_price_from(d: Seq<NodeView>, s: Seq<int>, k: int) -> Option<(Seq<char>, Seq<char>)>
    decreases s.len() - k,
{
    if k < 0 || k >= s.len() {
        None
    } else if is_current_price(d, s[k]) && classify(text_content(d, s[k])) is Some {
        Some(classify(text_content(d, s[k])).unwrap().last())
    } else {
        current_price_from(d, s, k + 1)
    }
}

/// The current price marked under `id`, if any.
pub open spec fn current_price(d: Seq<NodeView>, id: int) -> Option<(Seq<char>, Seq<char>)> {
    current_price_from(d, preorder(d, id), 0)
}

/// The size offered by a SKU selector option `n` (an element with a class
/// containing `skuSelectorItem`), read from its collapsed text.
pub open spec fn sku_size_of(d: Seq<NodeView>, n: int) -> Option<Seq<char>> {
    if is_element(d, n) && class_contains(d, n, "skuSelectorItem"@) {
        find_size(collapse(text_content(d, n)))
    } else {
        None
    }
}

/// The size of the first selected SKU option among `s[k..]`.
pub open spec fn selected_sku_from(d: Seq<NodeView>, s: Seq<int>, k: int) -> Option<Seq<char>>
    decreases s.len() - k,
{
    if k < 0 || k >= s.len() {
        None
    } else if sku_size_of(d, s[k]) is Some && class_contains(d, s[k], "selected"@) {
        sku_size_of(d, s[k])
    } else {
        selected_sku_from(d, s, k + 1)
    }
}

/// The size of the first SKU option with a size among `s[k..]`.
pub open spec fn any_sku_from(d: Seq<NodeView>, s: Seq<int>, k: int) -> Option<Seq<char>>
    decreases s.len() - k,
{
    if k < 0 || k >= s.len() {
        None
    } else if sku_size_of(d, s[k]) is Some {
        sku_size_of(d, s[k])
    } else {
        any_sku_from(d, s, k + 1)
    }
}

/// The size from the card's SKU selector: the selected option first, else
/// the first option with a size.
pub open spec fn sku_size(d: Seq<NodeView>, card: int) -> Option<Seq<char>> {
    let s = preorder(d, card);
    if selected_sku_from(d, s, 0) is Some {
        selected_sku_from(d, s, 0)
    } else {
        any_sku_from(d, s, 0)
    }
}

/// The trimmed `href` of link `n`.
pub open spec fn href_of(d: Seq<NodeView>, n: int) -> Option<Seq<char>> {
    if is_anchor(d, n) {
        match attr(d, n, "href"@) {
            Some(h) => Some(trim(h)),
            None => None,
        }
    } else {
        None
    }
}

/// A link to a page: an `href` that is neither blank nor a placeholder.
pub open spec fn usable_link(d: Seq<NodeView>, n: int) -> bool {
    href_of(d, n) is Some && href_of(d, n).unwrap().len() > 0 && !placeholder_href(
        href_of(d, n).unwrap(),
    )
}

/// Whether link `n` carries text of its own.
pub open spec fn anchor_has_text(d: Seq<NodeView>, n: int) -> bool {
    collapse(text_content(d, n)).len() > 0
}

/// What the link search looks for: product-name links (0), links with
/// text (1), or any link (2).
pub open spec fn link_wanted(d: Seq<NodeView>, n: int, kind: int) -> bool {
    usable_link(d, n) && if kind == 0 {
        is_name_anchor(d, n)
    } else if kind == 1 {
        anchor_has_text(d, n)
    } else {
        true
    }
}

/// The `href` of the first wanted link among `s[k..]`.
pub open spec fn link_from(d: Seq<NodeView>, s: Seq<int>, k: int, kind: int) -> Option<Seq<char>>
    decreases s.len() - k,
{
    if k < 0 || k >= s.len() {
        None
    } else if link_wanted(d, s[k], kind) {
        href_of(d, s[k])
    } else {
        link_from(d, s, k + 1, kind)
    }
}

/// The product link of a card: the first product-name link, else the first
/// link with text, else the first link (placeholders and blank links never
/// count).
pub open spec fn product_link(d: Seq<NodeView>, card: int) -> Option<Seq<char>> {
    let s = preorder(d, card);
    if link_from(d, s, 0, 0) is Some {
        link_from(d, s, 0, 0)
    } else if link_from(d, s, 0, 1) is Some {
        link_from(d, s, 0, 1)
    } else {
        link_from(d, s, 0, 2)
    }
}

/// The trimmed `src` of image `n`, when not blank.
pub open spec fn img_src(d: Seq<NodeView>, n: int) -> Option<Seq<char>> {
    if is_tag(d, n, "img"@) {
        trimmed_attr(d, n, "src"@)
    } else {
        None
    }
}

/// The image sources among `s[..k]`, first occurrences only, in order.
pub open spec fn images_upto(d: Seq<NodeView>, s: Seq<int>, k: int) -> Seq<Seq<char>>
    decreases k,
{
    if k <= 0 || k > s.len() {
        seq![]
    } else {
        let r = images_upto(d, s, k - 1);
        match img_src(d, s[k - 1]) {
            Some(x) => if r.contains(x) {
                r
            } else {
                r.push(x)
            },
            None => r,
        }
    }
}

/// The images of a card.
pub open spec fn card_images(d: Seq<NodeView>, card: int) -> Seq<Seq<char>> {
    let s = preorder(d, card);
    images_upto(d, s, s.len() as int)
}

/// The currency that an upper-cased text names: the first of USD (`US$`,
/// `U$S`, `USD`), ARS (`AR$`, `ARS`), EUR (`€`, `EUR`), GBP (`£`, `GBP`)
/// and BRL (`R$`, `BRL`) whose marker it contains.
pub open spec fn currency_code(t: Seq<char>) -> Option<Seq<char>> {
    if has_sub(t, "US$"@) || has_sub(t, "U$S"@) || has_sub(t, "USD"@) {
        Some("USD"@)
    } else if has_sub(t, "AR$"@) || has_sub(t, "ARS"@) {
        Some("ARS"@)
    } else if has_sub(t, "\u{20ac}"@) || has_sub(t, "EUR"@) {
        Some("EUR"@)
    } else if has_sub(t, "\u{a3}"@) || has_sub(t, "GBP"@) {
        Some("GBP"@)
    } else if has_sub(t, "R$"@) || has_sub(t, "BRL"@) {
        Some("BRL"@)
    } else {
        None
    }
}

/// The currency read from an upper-cased text, by its markers in order of
/// precedence: `US$`, `U$S` or `USD` give USD; else `AR$` or `ARS` give ARS;
/// else the sign `€` or `EUR` give EUR; else `£` or `GBP` give GBP; else
/// `R$` or `BRL` give BRL; a text with none of them names no currency.
pub proof fn lemma_currency_markers(t: Seq<char>)
    ensures
        ({
            let usd = occurs_in(t, "US$"@) || occurs_in(t, "U$S"@) || occurs_in(t, "USD"@);
            let ars = occurs_in(t, "AR$"@) || occurs_in(t, "ARS"@);
            let eur = t.contains('\u{20ac}') || occurs_in(t, "EUR"@);
            let gbp = t.contains('\u{a3}') || occurs_in(t, "GBP"@);
            let brl = occurs_in(t, "R$"@) || occurs_in(t, "BRL"@);
            &&& usd ==> currency_code(t) == Some("USD"@)
            &&& !usd && ars ==> currency_code(t) == Some("ARS"@)
            &&& !usd && !ars && eur ==> currency_code(t) == Some("EUR"@)
            &&& !usd && !ars && !eur && gbp ==> currency_code(t) == Some("GBP"@)
            &&& !usd && !ars && !eur && !gbp && brl ==> currency_code(t) == Some("BRL"@)
            &&& !usd && !ars && !eur && !gbp && !brl ==> currency_code(t).is_none()
        }),
{
    reveal_strlit("\u{20ac}");
    reveal_strlit("\u{a3}");
    assert("\u{20ac}"@ =~= seq!['\u{20ac}']);
    assert("\u{a3}"@ =~= seq!['\u{a3}']);
    crate::dom::lemma_has_sub_occurs(t, "US$"@);
    crate::dom::lemma_has_sub_occurs(t, "U$S"@);
    crate::dom::lemma_has_sub_occurs(t, "USD"@);
    crate::dom::lemma_has_sub_occurs(t, "AR$"@);
    crate::dom::lemma_has_sub_occurs(t, "ARS"@);
    crate::dom::lemma_has_sub_occurs(t, "EUR"@);
    crate::dom::lemma_has_sub_occurs(t, "GBP"@);
    crate::dom::lemma_has_sub_occurs(t, "R$"@);
    crate::dom::lemma_has_sub_occurs(t, "BRL"@);
    crate::dom::lemma_has_sub_occurs(t, seq!['\u{20ac}']);
    crate::dom::lemma_has_sub_occurs(t, seq!['\u{a3}']);
    if t.contains('\u{20ac}') {
        crate::dom::lemma_char_occurs(t, '\u{20ac}');
    } else {
        assert forall|i: int| 0 <= i <= t.len() implies !seq!['\u{20ac}'].is_prefix_of(#[trigger] t.skip(i)) by {
            if seq!['\u{20ac}'].is_prefix_of(t.skip(i)) {
                assert(seq!['\u{20ac}'] =~= t.skip(i).subrange(0, 1));
                assert(t.skip(i).subrange(0, 1)[0] == t[i]);
                assert(t[i] == '\u{20ac}');
                assert(t.contains('\u{20ac}'));
            }
        }
    }
    if t.contains('\u{a3}') {
        crate::dom::lemma_char_occurs(t, '\u{a3}');
    } else {
        assert forall|i: int| 0 <= i <= t.len() implies !seq!['\u{a3}'].is_prefix_of(#[trigger] t.skip(i)) by {
            if seq!['\u{a3}'].is_prefix_of(t.skip(i)) {
                assert(seq!['\u{a3}'] =~= t.skip(i).subrange(0, 1));
                assert(t.skip(i).subrange(0, 1)[0] == t[i]);
                assert(t[i] == '\u{a3}');
                assert(t.contains('\u{a3}'));
            }
        }
    }
}

/// The currency of a card, read from its upper-cased text.
pub open spec fn card_currency(d: Seq<NodeView>, card: int) -> Option<Seq<char>> {
    currency_code(uppercase(text_content(d, card)))
}

/// The index of the first card of `r` with key `key`, or -1.
pub open spec fn card_index(r: Seq<(int, int, PriceList)>, key: int) -> int
    decreases r.len(),
{
    if r.len() == 0 {
        -1
    } else {
        let j = card_index(r.drop_last(), key);
        if j >= 0 {
            j
        } else if r.last().0 == key {
            r.len() - 1
        } else {
            -1
        }
    }
}

/// The cards of the first `k` price elements of `e` that lie inside
/// `container`, as `(card, price element, prices)`: in order of first
/// appearance, each keeping the price element with the most prices (the
/// earliest on ties).
pub open spec fn cards_upto(d: Seq<NodeView>, container: int, e: Seq<(int, PriceList)>, k: int) -> Seq<
    (int, int, PriceList),
>
    decreases k,
{
    if k <= 0 || k > e.len() {
        seq![]
    } else {
        let r = cards_upto(d, container, e, k - 1);
        let id = e[k - 1].0;
        let ps = e[k - 1].1;
        if !ancestors(d, id).contains(container) {
            r
        } else {
            let key = card_of(d, id, container);
            let j = card_index(r, key);
            if j >= 0 {
                if ps.len() > r[j].2.len() {
                    r.update(j, (key, id, ps))
                } else {
                    r
                }
            } else {
                r.push((key, id, ps))
            }
        }
    }
}

/// An element that names the brand of a card: one with the class `brand`,
/// or with a class containing `productBrandName`.
pub open spec fn is_brand_element(d: Seq<NodeView>, n: int) -> bool {
    is_element(d, n) && (classes(d, n).contains("brand"@) || class_contains(d, n, "productBrandName"@))
}

/// The collapsed text of the first brand element among `s[k..]` whose text
/// is not blank.
pub open spec fn brand_from(d: Seq<NodeView>, s: Seq<int>, k: int) -> Option<Seq<char>>
    decreases s.len() - k,
{
    if k < 0 || k >= s.len() {
        None
    } else if is_brand_element(d, s[k]) && collapse(text_content(d, s[k])).len() > 0 {
        Some(collapse(text_content(d, s[k])))
    } else {
        brand_from(d, s, k + 1)
    }
}

/// The brand a card names, if any.
pub open spec fn card_brand(d: Seq<NodeView>, card: int) -> Option<Seq<char>> {
    brand_from(d, preorder(d, card), 0)
}

/// `name` with the card's brand put in front, unless the name already
/// contains it (ignoring case).
pub open spec fn with_brand(name: Seq<char>, brand: Option<Seq<char>>) -> Seq<char> {
    match brand {
        Some(b) => if has_sub(lowercase(name), lowercase(b)) {
            name
        } else {
            b + seq![' '] + name
        },
        None => name,
    }
}

/// The product of one card: its current price (the marked one, else the
/// last price of its price element), its name (guessed, enriched with the
/// size, and headed by the card's brand), link, images and currency.
pub open spec fn product_of(d: Seq<NodeView>, container: int, card: (int, int, PriceList)) -> ProductView {
    let id = card.1;
    let price = match current_price(d, id) {
        Some(p) => p,
        None => card.2.last(),
    };
    let c = card_of(d, id, container);
    let url = product_link(d, c);
    ProductView {
        name: with_brand(
            enriched_name(
                guess_name(d, id, container),
                sku_size(d, c),
                match url {
                    Some(u) => u,
                    None => seq![],
                },
            ),
            card_brand(d, c),
        ),
        price_text: price.1,
        price: price.0,
        url,
        images: card_images(d, c),
        currency: card_currency(d, c),
    }
}

/// The products of the price elements `e` inside `container`, one per card.
pub open spec fn products_of(d: Seq<NodeView>, container: int, e: Seq<(int, PriceList)>) -> Seq<ProductView> {
    cards_upto(d, container, e, e.len() as int).map_values(
        |c: (int, int, PriceList)| product_of(d, container, c),
    )
}


/// Whether `n` is a card-list wrapper (see [`is_list_wrapper`]).
fn is_list_wrapper_at(dom: &Dom, n: usize) -> (r: bool)
    ensures
        r == is_list_wrapper(dom.view_nodes(), n as int),
{
    if dom.is_tag(n, "ul") || dom.is_tag(n, "ol") || dom.is_tag(n, "tbody") || dom.is_tag(n, "table") {
        return true;
    }
    match dom.attr(n, "role") {
        Some(v) => vec_eq(&v, &chars_of("list")),
        None => false,
    }
}

/// The parent of `i` (see [`parent_of`]).
fn parent_at(dom: &Dom, i: usize) -> (r: Option<usize>)
    ensures
        match r {
            Some(p) => parent_of(dom.view_nodes(), i as int) == Some(p as int) && p < dom.view_nodes().len(),
            None => parent_of(dom.view_nodes(), i as int).is_none(),
        },
{
    if i >= dom.len() {
        return None;
    }
    dom.parent(i)
}

/// The card of price element `id` inside `container` (see [`card_of`]).
pub fn card_of_at(dom: &Dom, id: usize, container: usize) -> (r: usize)
    ensures
        r as int == card_of(dom.view_nodes(), id as int, container as int),
{
    let ghost d = dom.view_nodes();
    let mut node = id;
    let mut child = id;
    let mut fuel = dom.len();
    while fuel > 0
        invariant
            d == dom.view_nodes(),
            card_of(d, id as int, container as int) == card_walk(d, node as int, child as int, container as int, fuel as nat),
        decreases fuel,
    {
        match parent_at(dom, node) {
            None => {
                return child;
            },
            Some(p) => {
                if p == container {
                    if is_list_wrapper_at(dom, node) {
                        return child;
                    }
                    return node;
                }
                child = node;
                node = p;
                fuel = fuel - 1;
            },
        }
    }
    child
}

/// The name guessed for price element `id` inside `container` (see
/// [`guess_name`]).
pub fn guess_name_at(dom: &Dom, id: usize, container: usize) -> (r: Vec<char>)
    ensures
        r@ == guess_name(dom.view_nodes(), id as int, container as int),
{
    let ghost d = dom.view_nodes();
    let mut node = id;
    let mut best: Vec<char> = Vec::new();
    let mut fuel = dom.len();
    while fuel > 0
        invariant
            d == dom.view_nodes(),
            guess_name(d, id as int, container as int) == guess_walk(d, node as int, container as int, best@, fuel as nat),
        decreases fuel,
    {
        match structured_name_of(dom, node) {
            Some(name) => {
                return name;
            },
            None => {},
        }
        match largest_block_of(dom, node) {
            Some(b) => {
                if b.len() > best.len() {
                    best = b;
                }
            },
            None => {},
        }
        match parent_at(dom, node) {
            None => {
                return best;
            },
            Some(p) => {
                if p == container {
                    return best;
                }
                node = p;
                fuel = fuel - 1;
            },
        }
    }
    best
}

/// Whether `n` is marked as the current price.
fn is_current_price_at(dom: &Dom, n: usize) -> (r: bool)
    ensures
        r == is_current_price(dom.view_nodes(), n as int),
{
    if !dom.is_element(n) {
        return false;
    }
    let a = match dom.attr(n, "itemprop") {
        Some(v) => vec_eq(&v, &chars_of("price")),
        None => false,
    };
    if a {
        return true;
    }
    match dom.attr(n, "data-price-type") {
        Some(v) => vec_eq(&v, &chars_of("finalPrice")),
        None => false,
    }
}

/// A copy of `p`.
fn copy_price(p: &Price) -> (r: Price)
    ensures
        price_view(r) == price_view(*p),
{
    Price { value: p.value.clone(), text: p.text.clone() }
}

/// The current price marked under `id` (see [`current_price`]).
pub fn current_price_at(dom: &Dom, id: usize) -> (r: Option<Price>)
    ensures
        match r {
            Some(p) => current_price(dom.view_nodes(), id as int) == Some(price_view(p)),
            None => current_price(dom.view_nodes(), id as int).is_none(),
        },
{
    let ghost d = dom.view_nodes();
    let s = dom.preorder(id);
    let ghost sv = s@.map_values(|x: usize| x as int);
    for k in 0..s.len()
        invariant
            d == dom.view_nodes(),
            sv == s@.map_values(|x: usize| x as int),
            sv == preorder(d, id as int),
            current_price_from(d, sv, 0) == current_price_from(d, sv, k as int),
    {
        let n = s[k];
        assert(sv[k as int] == n as int);
        if is_current_price_at(dom, n) {
            let t = dom.text_content(n);
            match classify_chars(&t) {
                Some(ps) => {
                    assert(ps@.len() > 0);
                    let last = copy_price(&ps[ps.len() - 1]);
                    assert(crate::prices::prices_view(ps@).last() == price_view(ps@[ps@.len() - 1]));
                    return Some(last);
                },
                None => {},
            }
        }
    }
    None
}

/// The SKU size of option `n` (see [`sku_size_of`]).
fn sku_size_at(dom: &Dom, n: usize) -> (r: Option<Vec<char>>)
    ensures
        opt_chars(r) == sku_size_of(dom.view_nodes(), n as int),
{
    if dom.is_element(n) && dom.class_contains(n, "skuSelectorItem") {
        find_size_chars(&collapse_whitespace(&dom.text_content(n)))
    } else {
        None
    }
}

/// The size from the card's SKU selector (see [`sku_size`]).
pub fn sku_size_at_card(dom: &Dom, card: usize) -> (r: Option<Vec<char>>)
    ensures
        opt_chars(r) == sku_size(dom.view_nodes(), card as int),
{
    let ghost d = dom.view_nodes();
    let s = dom.preorder(card);
    let ghost sv = s@.map_values(|x: usize| x as int);
    let mut first: Option<Vec<char>> = None;
    for k in 0..s.len()
        invariant
            d == dom.view_nodes(),
            sv == s@.map_values(|x: usize| x as int),
            sv == preorder(d, card as int),
            selected_sku_from(d, sv, 0) == selected_sku_from(d, sv, k as int),
            first.is_none() ==> any_sku_from(d, sv, 0) == any_sku_from(d, sv, k as int),
            first.is_some() ==> opt_chars(first) == any_sku_from(d, sv, 0),
    {
        let n = s[k];
        assert(sv[k as int] == n as int);
        match sku_size_at(dom, n) {
            Some(size) => {
                if dom.class_contains(n, "selected") {
                    return Some(size);
                }
                if first.is_none() {
                    first = Some(size);
                }
            },
            None => {},
        }
    }
    first
}

/// The trimmed `href` of link `n` (see [`href_of`]).
fn href_at(dom: &Dom, n: usize) -> (r: Option<Vec<char>>)
    ensures
        opt_chars(r) == href_of(dom.view_nodes(), n as int),
{
    if !dom.is_tag(n, "a") {
        return None;
    }
    match dom.attr(n, "href") {
        Some(h) => Some(trim_chars(&h)),
        None => None,
    }
}

/// Whether the link search of `kind` wants `n`, with its `href`.
fn wanted_link_at(dom: &Dom, n: usize, kind: u8) -> (r: Option<Vec<char>>)
    ensures
        match r {
            Some(h) => link_wanted(dom.view_nodes(), n as int, kind as int) && href_of(dom.view_nodes(), n as int)
                == Some(h@),
            None => !link_wanted(dom.view_nodes(), n as int, kind as int),
        },
{
    let h = match href_at(dom, n) {
        Some(h) => h,
        None => {
            return None;
        },
    };
    if h.len() == 0 || is_placeholder_href(&string_of(&h)) {
        return None;
    }
    let ok = if kind == 0 {
        is_name_anchor_at(dom, n)
    } else if kind == 1 {
        collapse_whitespace(&dom.text_content(n)).len() > 0
    } else {
        true
    };
    if ok {
        Some(h)
    } else {
        None
    }
}

/// The `href` of the first link of `kind` among `s`.
fn first_link(dom: &Dom, s: &Vec<usize>, kind: u8) -> (r: Option<Vec<char>>)
    ensures
        opt_chars(r) == link_from(dom.view_nodes(), s@.map_values(|x: usize| x as int), 0, kind as int),
{
    let ghost d = dom.view_nodes();
    let ghost sv = s@.map_values(|x: usize| x as int);
    for k in 0..s.len()
        invariant
            d == dom.view_nodes(),
            sv == s@.map_values(|x: usize| x as int),
            link_from(d, sv, 0, kind as int) == link_from(d, sv, k as int, kind as int),
    {
        let n = s[k];
        assert(sv[k as int] == n as int);
        match wanted_link_at(dom, n, kind) {
            Some(h) => {
                return Some(h);
            },
            None => {},
        }
    }
    None
}

/// The product link of a card (see [`product_link`]).
pub fn product_link_at(dom: &Dom, card: usize) -> (r: Option<Vec<char>>)
    ensures
        opt_chars(r) == product_link(dom.view_nodes(), card as int),
{
    let s = dom.preorder(card);
    match first_link(dom, &s, 0) {
        Some(h) => {
            return Some(h);
        },
        None => {},
    }
    match first_link(dom, &s, 1) {
        Some(h) => {
            return Some(h);
        },
        None => {},
    }
    first_link(dom, &s, 2)
}

/// The images of a card (see [`card_images`]).
pub fn card_images_at(dom: &Dom, card: usize) -> (r: Vec<String>)
    ensures
        r@.map_values(|x: String| x@) == card_images(dom.view_nodes(), card as int),
{
    let ghost d = dom.view_nodes();
    let s = dom.preorder(card);
    let ghost sv = s@.map_values(|x: usize| x as int);
    let mut out: Vec<String> = Vec::new();
    for k in 0..s.len()
        invariant
            d == dom.view_nodes(),
            sv == s@.map_values(|x: usize| x as int),
            sv == preorder(d, card as int),
            out@.map_values(|x: String| x@) == images_upto(d, sv, k as int),
    {
        let n = s[k];
        assert(sv[k as int] == n as int);
        let ghost ov = out@.map_values(|x: String| x@);
        let src = if dom.is_tag(n, "img") {
            trimmed_attr_of(dom, n, "src")
        } else {
            None
        };
        match src {
            Some(v) => {
                let x = string_of(&v);
                let mut seen = false;
                for j in 0..out.len()
                    invariant
                        ov == out@.map_values(|x: String| x@),
                        ov.len() == out@.len(),
                        seen == exists|i: int| 0 <= i < j && ov[i] == x@,
                {
                    assert(ov[j as int] == out@[j as int]@);
                    if out[j] == x {
                        seen = true;
                    }
                }
                proof {
                    if ov.contains(x@) {
                        let i = choose|i: int| 0 <= i < ov.len() && ov[i] == x@;
                        assert(exists|i: int| 0 <= i < out@.len() && ov[i] == x@);
                    }
                }
                if !seen {
                    out.push(x);
                    assert(out@.map_values(|x: String| x@) =~= ov.push(v@));
                }
            },
            None => {},
        }
    }
    out
}

/// Whether `t` contains the characters of `p`.
fn contains_str(t: &Vec<char>, p: &str) -> (r: bool)
    ensures
        r == has_sub(t@, p@),
{
    let pc = chars_of(p);
    find_first(t, &pc).is_some()
}

/// The currency of a card (see [`card_currency`]).
pub fn card_currency_at(dom: &Dom, card: usize) -> (r: Option<String>)
    ensures
        match r {
            Some(c) => card_currency(dom.view_nodes(), card as int) == Some(c@),
            None => card_currency(dom.view_nodes(), card as int).is_none(),
        },
        ({
            let t = uppercase(text_content(dom.view_nodes(), card as int));
            t.contains('\u{20ac}') && !occurs_in(t, "US$"@) && !occurs_in(t, "U$S"@) && !occurs_in(t, "USD"@)
                && !occurs_in(t, "AR$"@) && !occurs_in(t, "ARS"@) ==> (r matches Some(c) && c@ == "EUR"@)
        }),
{
    proof {
        lemma_currency_markers(uppercase(text_content(dom.view_nodes(), card as int)));
    }
    let text = string_of(&dom.text_content(card));
    let up = to_uppercase(text.as_str());
    let t = chars_of(up.as_str());
    if contains_str(&t, "US$") || contains_str(&t, "U$S") || contains_str(&t, "USD") {
        Some("USD".to_string())
    } else if contains_str(&t, "AR$") || contains_str(&t, "ARS") {
        Some("ARS".to_string())
    } else if contains_str(&t, "\u{20ac}") || contains_str(&t, "EUR") {
        Some("EUR".to_string())
    } else if contains_str(&t, "\u{a3}") || contains_str(&t, "GBP") {
        Some("GBP".to_string())
    } else if contains_str(&t, "R$") || contains_str(&t, "BRL") {
        Some("BRL".to_string())
    } else {
        None
    }
}


/// Whether element `n` has the class `name`.
fn has_class(dom: &Dom, n: usize, name: &str) -> (r: bool)
    ensures
        r == classes(dom.view_nodes(), n as int).contains(name@),
{
    let cs = dom.classes(n);
    let ghost cv = cs@.map_values(|c: String| c@);
    let want = name.to_string();
    for k in 0..cs.len()
        invariant
            cv == cs@.map_values(|c: String| c@),
            cv == classes(dom.view_nodes(), n as int),
            want@ == name@,
            forall|j: int| 0 <= j < k ==> cv[j] != name@,
    {
        assert(cv[k as int] == cs@[k as int]@);
        if cs[k] == want {
            assert(cv[k as int] == name@);
            return true;
        }
    }
    false
}

/// The brand a card names (see [`card_brand`]).
pub fn card_brand_at(dom: &Dom, card: usize) -> (r: Option<Vec<char>>)
    ensures
        opt_chars(r) == card_brand(dom.view_nodes(), card as int),
{
    let ghost d = dom.view_nodes();
    let s = dom.preorder(card);
    let ghost sv = s@.map_values(|x: usize| x as int);
    for k in 0..s.len()
        invariant
            d == dom.view_nodes(),
            sv == s@.map_values(|x: usize| x as int),
            sv == preorder(d, card as int),
            brand_from(d, sv, 0) == brand_from(d, sv, k as int),
    {
        let n = s[k];
        assert(sv[k as int] == n as int);
        if dom.is_element(n) && (has_class(dom, n, "brand") || dom.class_contains(n, "productBrandName")) {
            let t = collapse_whitespace(&dom.text_content(n));
            if t.len() > 0 {
                return Some(t);
            }
        }
    }
    None
}

/// `name` headed by `brand` (see [`with_brand`]).
pub fn prepend_brand(name: String, brand: Option<Vec<char>>) -> (r: String)
    ensures
        r@ == with_brand(name@, opt_chars(brand)),
{
    match brand {
        Some(b) => {
            let bs = string_of(&b);
            let ln = chars_of(to_lowercase(name.as_str()).as_str());
            let lb = chars_of(to_lowercase(bs.as_str()).as_str());
            if find_first(&ln, &lb).is_some() {
                name
            } else {
                let mut out = b;
                out.push(' ');
                let nc = chars_of(name.as_str());
                let ghost o = out@;
                for k in 0..nc.len()
                    invariant
                        out@ == o + nc@.take(k as int),
                {
                    out.push(nc[k]);
                    assert(out@ =~= o + nc@.take(k + 1));
                }
                assert(nc@.take(nc@.len() as int) =~= nc@);
                assert(out@ =~= b@ + seq![' '] + name@);
                string_of(&out)
            }
        },
        None => name,
    }
}

/// A string from optional characters.
pub(crate) fn opt_string(o: Option<Vec<char>>) -> (r: Option<String>)
    ensures
        crate::model::opt_view(r) == opt_chars(o),
{
    match o {
        Some(v) => Some(string_of(&v)),
        None => None,
    }
}

/// Cards as plain values: each card is a key and the index of its price
/// element in `pd`.
pub open spec fn cards_view(c: Seq<(usize, usize)>, pd: Seq<(usize, Vec<Price>)>) -> Seq<(int, int, PriceList)> {
    c.map_values(
        |x: (usize, usize)| (x.0 as int, pd[x.1 as int].0 as int, crate::prices::prices_view(pd[x.1 as int].1@)),
    )
}

pub proof fn lemma_card_index(r: Seq<(int, int, PriceList)>, key: int)
    ensures
        -1 <= card_index(r, key) < r.len(),
        card_index(r, key) >= 0 ==> r[card_index(r, key)].0 == key,
        card_index(r, key) < 0 ==> forall|j: int| 0 <= j < r.len() ==> (#[trigger] r[j]).0 != key,
        card_index(r, key) >= 0 ==> forall|j: int| 0 <= j < card_index(r, key) ==> (#[trigger] r[j]).0 != key,
    decreases r.len(),
{
    if r.len() > 0 {
        let s = r.drop_last();
        lemma_card_index(s, key);
        assert forall|j: int| 0 <= j < s.len() implies #[trigger] r[j] == s[j] by {}
    }
}

pub proof fn lemma_cards_present(d: Seq<NodeView>, container: int, e: Seq<(int, PriceList)>, k: int)
    requires
        prices_present(e),
    ensures
        forall|j: int| 0 <= j < cards_upto(d, container, e, k).len() ==> (#[trigger] cards_upto(d, container, e, k)[j]).2.len() > 0,
    decreases k,
{
    if k > 0 && k <= e.len() {
        lemma_cards_present(d, container, e, k - 1);
        lemma_card_index(cards_upto(d, container, e, k - 1), card_of(d, e[k - 1].0, container));
    }
}

/// The cards of the price elements `pd` inside `container` (see
/// [`cards_upto`]).
fn cards_in(dom: &Dom, container: usize, pd: &Vec<(usize, Vec<Price>)>) -> (r: Vec<(usize, usize)>)
    ensures
        cards_view(r@, pd@) == cards_upto(dom.view_nodes(), container as int, entries_view(pd@), pd@.len() as int),
        forall|j: int| 0 <= j < r@.len() ==> (#[trigger] r@[j]).1 < pd@.len(),
{
    let ghost d = dom.view_nodes();
    let ghost e = entries_view(pd@);
    let mut cards: Vec<(usize, usize)> = Vec::new();
    for k in 0..pd.len()
        invariant
            d == dom.view_nodes(),
            e == entries_view(pd@),
            cards_view(cards@, pd@) == cards_upto(d, container as int, e, k as int),
            forall|j: int| 0 <= j < cards@.len() ==> (#[trigger] cards@[j]).1 < k,
    {
        let id = pd[k].0;
        assert(e[k as int].0 == id as int);
        assert(e[k as int].1 == crate::prices::prices_view(pd@[k as int].1@));
        let anc = dom.ancestors(id);
        let ghost cv = cards_view(cards@, pd@);
        if holds(&anc, container) {
            let key = card_of_at(dom, id, container);
            proof {
                lemma_card_index(cv, key as int);
            }
            let mut j: usize = 0;
            while j < cards.len() && cards[j].0 != key
                invariant
                    cv == cards_view(cards@, pd@),
                    cv.len() == cards@.len(),
                    j <= cards@.len(),
                    forall|i: int| 0 <= i < j ==> (#[trigger] cv[i]).0 != key,
                decreases cards@.len() - j,
            {
                assert(cv[j as int].0 == cards@[j as int].0 as int);
                j = j + 1;
            }
            let found = if j < cards.len() {
                assert(cv[j as int].0 == cards@[j as int].0 as int);
                Some(j)
            } else {
                None
            };
            match found {
                Some(j) => {
                    assert(card_index(cv, key as int) == j as int);
                    let b = cards[j].1;
                    if pd[k].1.len() > pd[b].1.len() {
                        cards.set(j, (key, k));
                        assert(cards_view(cards@, pd@) =~= cv.update(j as int, (key as int, id as int, e[k as int].1)));
                    }
                },
                None => {
                    assert(card_index(cv, key as int) == -1);
                    cards.push((key, k));
                    assert(cards_view(cards@, pd@) =~= cv.push((key as int, id as int, e[k as int].1)));
                },
            }
        }
    }
    cards
}

/// The product of card `(key, j)` (see [`product_of`]).
fn product_at(dom: &Dom, container: usize, pd: &Vec<(usize, Vec<Price>)>, j: usize) -> (r: Product)
    requires
        j < pd@.len(),
        pd@[j as int].1@.len() > 0,
    ensures
        product_view(r) == product_of(
            dom.view_nodes(),
            container as int,
            (card_of(dom.view_nodes(), pd@[j as int].0 as int, container as int), pd@[j as int].0 as int, crate::prices::prices_view(pd@[j as int].1@)),
        ),
{
    let id = pd[j].0;
    let ps = &pd[j].1;
    let price = match current_price_at(dom, id) {
        Some(p) => p,
        None => {
            assert(crate::prices::prices_view(ps@).last() == price_view(ps@[ps@.len() - 1]));
            copy_price(&ps[ps.len() - 1])
        },
    };
    let c = card_of_at(dom, id, container);
    let url = product_link_at(dom, c);
    let guessed = string_of(&guess_name_at(dom, id, container));
    let sku = opt_string(sku_size_at_card(dom, c));
    let url_text = match &url {
        Some(u) => string_of(u),
        None => String::new(),
    };
    let name = prepend_brand(enrich_name(guessed.as_str(), sku, url_text.as_str()), card_brand_at(dom, c));
    Product {
        name,
        price_text: price.text,
        price: price.value,
        url: opt_string(url),
        images: card_images_at(dom, c),
        currency: card_currency_at(dom, c),
    }
}

/// The products of the price elements `pd` inside `container`, one per card
/// (see [`products_of`]).
pub fn extract_products(dom: &Dom, container: usize, pd: &Vec<(usize, Vec<Price>)>) -> (r: Vec<Product>)
    requires
        prices_present(entries_view(pd@)),
    ensures
        crate::detect::products_view(r@) == products_of(dom.view_nodes(), container as int, entries_view(pd@)),
{
    let ghost d = dom.view_nodes();
    let ghost e = entries_view(pd@);
    let cards = cards_in(dom, container, pd);
    let ghost cv = cards_view(cards@, pd@);
    proof {
        lemma_cards_present(d, container as int, e, e.len() as int);
    }
    let mut out: Vec<Product> = Vec::new();
    for i in 0..cards.len()
        invariant
            d == dom.view_nodes(),
            e == entries_view(pd@),
            cv == cards_view(cards@, pd@),
            cv == cards_upto(d, container as int, e, e.len() as int),
            forall|j: int| 0 <= j < cards@.len() ==> (#[trigger] cards@[j]).1 < pd@.len(),
            forall|j: int| 0 <= j < cv.len() ==> (#[trigger] cv[j]).2.len() > 0,
            crate::detect::products_view(out@) == cv.take(i as int).map_values(
                |c: (int, int, PriceList)| product_of(d, container as int, c),
            ),
    {
        let (_, j) = cards[i];
        assert(cv[i as int] == (cards@[i as int].0 as int, pd@[j as int].0 as int, crate::prices::prices_view(pd@[j as int].1@)));
        assert(cv[i as int].2.len() > 0);
        let p = product_at(dom, container, pd, j);
        assert(cards@[i as int].0 as int == card_of(d, pd@[j as int].0 as int, container as int)) by {
            lemma_card_keys(d, container as int, e, e.len() as int);
        }
        let ghost o = crate::detect::products_view(out@);
        out.push(p);
        assert(cv.take(i + 1) =~= cv.take(i as int).push(cv[i as int]));
        assert(crate::detect::products_view(out@) =~= o.push(product_view(p)));
    }
    assert(cv.take(cards.len() as int) =~= cv);
    out
}

pub proof fn lemma_card_keys(d: Seq<NodeView>, container: int, e: Seq<(int, PriceList)>, k: int)
    ensures
        forall|j: int|
            0 <= j < cards_upto(d, container, e, k).len() ==> (#[trigger] cards_upto(d, container, e, k)[j]).0
                == card_of(d, cards_upto(d, container, e, k)[j].1, container),
    decreases k,
{
    if k > 0 && k <= e.len() {
        lemma_card_keys(d, container, e, k - 1);
        lemma_card_index(cards_upto(d, container, e, k - 1), card_of(d, e[k - 1].0, container));
    }
}

/// The images of a card are listed once each: no image source occurs twice.
pub proof fn lemma_card_images_distinct(d: Seq<NodeView>, card: int)
    ensures
        card_images(d, card).no_duplicates(),
{
    let s = preorder(d, card);
    lemma_images_upto_distinct(d, s, s.len() as int);
}

proof fn lemma_images_upto_distinct(d: Seq<NodeView>, s: Seq<int>, k: int)
    ensures
        images_upto(d, s, k).no_duplicates(),
    decreases k,
{
    if k > 0 && k <= s.len() {
        lemma_images_upto_distinct(d, s, k - 1);
        let r = images_upto(d, s, k - 1);
        match img_src(d, s[k - 1]) {
            Some(x) => {
                if !r.contains(x) {
                    let t = r.push(x);
                    assert forall|i: int, j: int| 0 <= i < t.len() && 0 <= j < t.len() && i != j implies t[i]
                        != t[j] by {
                        if i < r.len() && j < r.len() {
                            assert(t[i] == r[i] && t[j] == r[j]);
                        } else if i < r.len() {
                            assert(t[i] == r[i]);
                            assert(r.contains(r[i]));
                        } else {
                            assert(t[j] == r[j]);
                            assert(r.contains(r[j]));
                        }
                    }
                }
            },
            None => {},
        }
    }
}

/// One product per card: the cards found in `container` are distinct, and
/// every price element inside `container` has its card among them.
pub proof fn lemma_one_product_per_card(d: Seq<NodeView>, container: int, e: Seq<(int, PriceList)>)
    ensures
        products_of(d, container, e).len() == cards_upto(d, container, e, e.len() as int).len(),
        forall|i: int, j: int|
            0 <= i < j < cards_upto(d, container, e, e.len() as int).len() ==> (#[trigger] cards_upto(
                d,
                container,
                e,
                e.len() as int,
            )[i]).0 != (#[trigger] cards_upto(d, container, e, e.len() as int)[j]).0,
        forall|k: int|
            0 <= k < e.len() && ancestors(d, (#[trigger] e[k]).0).contains(container) ==> exists|j: int|
                0 <= j < cards_upto(d, container, e, e.len() as int).len() && (#[trigger] cards_upto(
                    d,
                    container,
                    e,
                    e.len() as int,
                )[j]).0 == card_of(d, e[k].0, container),
{
    lemma_cards_distinct(d, container, e, e.len() as int);
}

proof fn lemma_cards_distinct(d: Seq<NodeView>, container: int, e: Seq<(int, PriceList)>, k: int)
    requires
        0 <= k <= e.len(),
    ensures
        forall|i: int, j: int|
            0 <= i < j < cards_upto(d, container, e, k).len() ==> (#[trigger] cards_upto(d, container, e, k)[i]).0
                != (#[trigger] cards_upto(d, container, e, k)[j]).0,
        forall|m: int|
            0 <= m < k && ancestors(d, (#[trigger] e[m]).0).contains(container) ==> exists|j: int|
                0 <= j < cards_upto(d, container, e, k).len() && (#[trigger] cards_upto(d, container, e, k)[j]).0
                    == card_of(d, e[m].0, container),
    decreases k,
{
    if k > 0 {
        lemma_cards_distinct(d, container, e, k - 1);
        let r = cards_upto(d, container, e, k - 1);
        let c = cards_upto(d, container, e, k);
        let id = e[k - 1].0;
        if ancestors(d, id).contains(container) {
            let key = card_of(d, id, container);
            lemma_card_index(r, key);
            let j0 = card_index(r, key);
            assert(c.len() >= r.len());
            assert forall|i: int| 0 <= i < r.len() implies (#[trigger] c[i]).0 == r[i].0 by {}
            assert forall|m: int|
                0 <= m < k && ancestors(d, (#[trigger] e[m]).0).contains(container) implies exists|j: int|
                0 <= j < c.len() && (#[trigger] c[j]).0 == card_of(d, e[m].0, container) by {
                if m < k - 1 {
                    let j = choose|j: int| 0 <= j < r.len() && (#[trigger] r[j]).0 == card_of(d, e[m].0, container);
                    assert(c[j].0 == r[j].0);
                } else if j0 >= 0 {
                    assert(c[j0].0 == key);
                } else {
                    assert(c[r.len() as int].0 == key);
                }
            }
            assert forall|i: int, j: int| 0 <= i < j < c.len() implies (#[trigger] c[i]).0 != (#[trigger] c[j]).0 by {
                if j < r.len() {
                    assert(c[i].0 == r[i].0 && c[j].0 == r[j].0);
                } else {
                    assert(c[i].0 == r[i].0);
                }
            }
        }
    }
}

} // verus!
