//! Telling a product's name from the markup of its card: the label of a
//! product-name link, of any link or image, or else the longest block of
//! text that is not a price.

use vstd::prelude::*;

use crate::dom::{attr, class_contains, is_tag, is_text, node_text, preorder, text_content, Dom, NodeView};
use crate::prices::{contains_confident_price, has_sep, tokens};
use crate::text::{collapse, collapse_whitespace, trim, trim_chars};
use crate::unicode::{alphabetic, is_alphabetic};

verus! {

/// Optional characters as plain values.
pub open spec fn opt_chars(o: Option<Vec<char>>) -> Option<Seq<char>> {
    match o {
        Some(v) => Some(v@),
        None => None,
    }
}

/// Whether `t` holds a confident price (a number token with a separator).
pub open spec fn confident(t: Seq<char>) -> bool {
    exists|k: int| 0 <= k < tokens(t).len() && has_sep(#[trigger] tokens(t)[k])
}

/// Whether node `n` is an `a` element.
pub open spec fn is_anchor(d: Seq<NodeView>, n: int) -> bool {
    is_tag(d, n, "a"@)
}

/// A product-name link: an `a` with `data-role="product-item-name"` or a
/// class containing `product-item-name`.
pub open spec fn is_name_anchor(d: Seq<NodeView>, n: int) -> bool {
    is_anchor(d, n) && (attr(d, n, "data-role"@) == Some("product-item-name"@) || class_contains(
        d,
        n,
        "product-item-name"@,
    ))
}

/// Attribute `name` of `n`, trimmed, when it is not blank.
pub open spec fn trimmed_attr(d: Seq<NodeView>, n: int, name: Seq<char>) -> Option<Seq<char>> {
    match attr(d, n, name) {
        Some(t) => if trim(t).len() > 0 {
            Some(trim(t))
        } else {
            None
        },
        None => None,
    }
}

/// The label of a link: its `title`, else its `aria-label` (trimmed, when
/// not blank), else its collapsed text when that is not blank and holds no
/// confident price.
pub open spec fn anchor_label(d: Seq<NodeView>, n: int) -> Option<Seq<char>> {
    if trimmed_attr(d, n, "title"@) is Some {
        trimmed_attr(d, n, "title"@)
    } else if trimmed_attr(d, n, "aria-label"@) is Some {
        trimmed_attr(d, n, "aria-label"@)
    } else {
        let t = collapse(text_content(d, n));
        if t.len() > 0 && !confident(t) {
            Some(t)
        } else {
            None
        }
    }
}

/// The label of the first product-name link among `s[k..]` that has one.
pub open spec fn name_anchor_label_from(d: Seq<NodeView>, s: Seq<int>, k: int) -> Option<Seq<char>>
    decreases s.len() - k,
{
    if k < 0 || k >= s.len() {
        None
    } else if is_name_anchor(d, s[k]) && anchor_label(d, s[k]) is Some {
        anchor_label(d, s[k])
    } else {
        name_anchor_label_from(d, s, k + 1)
    }
}

/// The label of a link (see [`anchor_label`]) or the trimmed `alt` of an
/// image.
pub open spec fn node_label(d: Seq<NodeView>, n: int) -> Option<Seq<char>> {
    if is_anchor(d, n) {
        anchor_label(d, n)
    } else if is_tag(d, n, "img"@) {
        trimmed_attr(d, n, "alt"@)
    } else {
        None
    }
}

/// The first label among the nodes `s[k..]`.
pub open spec fn label_from(d: Seq<NodeView>, s: Seq<int>, k: int) -> Option<Seq<char>>
    decreases s.len() - k,
{
    if k < 0 || k >= s.len() {
        None
    } else if node_label(d, s[k]) is Some {
        node_label(d, s[k])
    } else {
        label_from(d, s, k + 1)
    }
}

/// The name the markup under `node` gives: the label of its first labelled
/// product-name link, else the first label of any link or image.
pub open spec fn structured_name(d: Seq<NodeView>, node: int) -> Option<Seq<char>> {
    let s = preorder(d, node);
    if name_anchor_label_from(d, s, 0) is Some {
        name_anchor_label_from(d, s, 0)
    } else {
        label_from(d, s, 0)
    }
}

/// A block of text that can be a name: not blank, no confident price, and
/// at least one alphabetic character.
pub open spec fn name_like(t: Seq<char>) -> bool {
    t.len() > 0 && !confident(t) && exists|k: int| 0 <= k < t.len() && alphabetic(#[trigger] t[k])
}

/// The longest name-like text node (collapsed) among `s[..k]`, the first of
/// equal length; empty when there is none.
pub open spec fn best_block_upto(d: Seq<NodeView>, s: Seq<int>, k: int) -> Seq<char>
    decreases k,
{
    if k <= 0 || k > s.len() {
        seq![]
    } else {
        let b = best_block_upto(d, s, k - 1);
        let t = collapse(node_text(d, s[k - 1]));
        if is_text(d, s[k - 1]) && name_like(t) && t.len() > b.len() {
            t
        } else {
            b
        }
    }
}

/// The longest name-like block of text under `node`.
pub open spec fn largest_block(d: Seq<NodeView>, node: int) -> Option<Seq<char>> {
    let s = preorder(d, node);
    let b = best_block_upto(d, s, s.len() as int);
    if b.len() == 0 {
        None
    } else {
        Some(b)
    }
}

/// Whether the markup under `node` names a product: it has a structured
/// name, or a name-like block of at least six characters.
pub open spec fn is_named(d: Seq<NodeView>, node: int) -> bool {
    structured_name(d, node) is Some || match largest_block(d, node) {
        Some(b) => b.len() >= 6,
        None => false,
    }
}

/// Attribute `name` of `n`, trimmed, when it is not blank.
pub fn trimmed_attr_of(dom: &Dom, n: usize, name: &str) -> (r: Option<Vec<char>>)
    ensures
        opt_chars(r) == trimmed_attr(dom.view_nodes(), n as int, name@),
{
    match dom.attr(n, name) {
        Some(v) => {
            let t = trim_chars(&v);
            if t.len() > 0 {
                Some(t)
            } else {
                None
            }
        },
        None => None,
    }
}

/// The label of link `n` (see [`anchor_label`]).
pub fn anchor_label_of(dom: &Dom, n: usize) -> (r: Option<Vec<char>>)
    ensures
        opt_chars(r) == anchor_label(dom.view_nodes(), n as int),
{
    match trimmed_attr_of(dom, n, "title") {
        Some(t) => {
            return Some(t);
        },
        None => {},
    }
    match trimmed_attr_of(dom, n, "aria-label") {
        Some(t) => {
            return Some(t);
        },
        None => {},
    }
    let t = collapse_whitespace(&dom.text_content(n));
    if t.len() > 0 && !contains_confident_price(&t) {
        Some(t)
    } else {
        None
    }
}

/// Whether `n` is a product-name link.
pub fn is_name_anchor_at(dom: &Dom, n: usize) -> (r: bool)
    ensures
        r == is_name_anchor(dom.view_nodes(), n as int),
{
    if !dom.is_tag(n, "a") {
        return false;
    }
    let role = match dom.attr(n, "data-role") {
        Some(v) => {
            let want = crate::text::chars_of("product-item-name");
            vec_eq(&v, &want)
        },
        None => false,
    };
    role || dom.class_contains(n, "product-item-name")
}

/// Whether two character vectors are equal.
pub fn vec_eq(a: &Vec<char>, b: &Vec<char>) -> (r: bool)
    ensures
        r == (a@ == b@),
{
    if a.len() != b.len() {
        return false;
    }
    for k in 0..a.len()
        invariant
            a@.len() == b@.len(),
            forall|j: int| 0 <= j < k ==> a@[j] == b@[j],
    {
        if a[k] != b[k] {
            return false;
        }
    }
    assert(a@ =~= b@);
    true
}

/// The label of `n` (see [`node_label`]).
fn node_label_of(dom: &Dom, n: usize) -> (r: Option<Vec<char>>)
    ensures
        opt_chars(r) == node_label(dom.view_nodes(), n as int),
{
    if dom.is_tag(n, "a") {
        anchor_label_of(dom, n)
    } else if dom.is_tag(n, "img") {
        trimmed_attr_of(dom, n, "alt")
    } else {
        None
    }
}

/// The name the markup under `node` gives (see [`structured_name`]).
pub fn structured_name_of(dom: &Dom, node: usize) -> (r: Option<Vec<char>>)
    ensures
        opt_chars(r) == structured_name(dom.view_nodes(), node as int),
{
    let ghost d = dom.view_nodes();
    let s = dom.preorder(node);
    let ghost sv = s@.map_values(|x: usize| x as int);
    for k in 0..s.len()
        invariant
            d == dom.view_nodes(),
            sv == s@.map_values(|x: usize| x as int),
            sv == preorder(d, node as int),
            name_anchor_label_from(d, sv, 0) == name_anchor_label_from(d, sv, k as int),
    {
        let n = s[k];
        assert(sv[k as int] == n as int);
        if is_name_anchor_at(dom, n) {
            match anchor_label_of(dom, n) {
                Some(l) => {
                    return Some(l);
                },
                None => {},
            }
        }
    }
    for k in 0..s.len()
        invariant
            d == dom.view_nodes(),
            sv == s@.map_values(|x: usize| x as int),
            sv == preorder(d, node as int),
            name_anchor_label_from(d, sv, 0).is_none(),
            label_from(d, sv, 0) == label_from(d, sv, k as int),
    {
        let n = s[k];
        assert(sv[k as int] == n as int);
        match node_label_of(dom, n) {
            Some(l) => {
                return Some(l);
            },
            None => {},
        }
    }
    None
}

/// Whether `t` is name-like (see [`name_like`]).
fn name_like_chars(t: &Vec<char>) -> (r: bool)
    ensures
        r == name_like(t@),
{
    if t.len() == 0 || contains_confident_price(t) {
        return false;
    }
    for k in 0..t.len()
        invariant
            t@.len() > 0,
            !confident(t@),
            forall|j: int| 0 <= j < k ==> !alphabetic(#[trigger] t@[j]),
    {
        if is_alphabetic(t[k]) {
            return true;
        }
    }
    false
}

/// The longest name-like block of text under `node` (see
/// [`largest_block`]).
pub fn largest_block_of(dom: &Dom, node: usize) -> (r: Option<Vec<char>>)
    ensures
        opt_chars(r) == largest_block(dom.view_nodes(), node as int),
{
    let ghost d = dom.view_nodes();
    let s = dom.preorder(node);
    let ghost sv = s@.map_values(|x: usize| x as int);
    let mut best: Vec<char> = Vec::new();
    for k in 0..s.len()
        invariant
            d == dom.view_nodes(),
            sv == s@.map_values(|x: usize| x as int),
            sv == preorder(d, node as int),
            best@ == best_block_upto(d, sv, k as int),
    {
        let n = s[k];
        assert(sv[k as int] == n as int);
        if dom.is_text(n) {
            let t = collapse_whitespace(&dom.node_text(n));
            if name_like_chars(&t) && t.len() > best.len() {
                best = t;
            }
        }
    }
    if best.len() == 0 {
        None
    } else {
        Some(best)
    }
}

/// Whether the markup under `node` names a product (see [`is_named`]).
pub fn is_named_at(dom: &Dom, node: usize) -> (r: bool)
    ensures
        r == is_named(dom.view_nodes(), node as int),
{
    if structured_name_of(dom, node).is_some() {
        return true;
    }
    match largest_block_of(dom, node) {
        Some(b) => b.len() >= 6,
        None => false,
    }
}

} // verus!
