//! Use case: proposing canonical products from unmatched provider products.

use vstd::prelude::*;

use crate::brands::{brand_candidates, non_empty_opt};
use crate::matching::{best_brand, best_match, full_name, full_name_of, pair_views};
use crate::model::{BrandRow, ProductRow, ProviderProductRow};
use crate::text::{
    chars_of, collapse, collapse_whitespace, is_digit, join_space, lemma_filter_push,
    lower_ascii, seq_views, split_words, string_of, to_ascii_lower, trim, trim_chars, words,
};
use crate::unicode::{lowercase, to_lowercase};

verus! {

/// `name` without the words that equal, lower-cased, a word of the
/// lower-cased brand; the remaining words joined by one space.
pub open spec fn strip_brand_of(name: Seq<char>, brand: Seq<char>) -> Seq<char> {
    let bw = words(lowercase(brand));
    join_space(words(name).filter(|w: Seq<char>| !bw.contains(lowercase(w))))
}

/// Whether every character of `w` is an ASCII digit (and `w` is not empty).
pub open spec fn all_digits(w: Seq<char>) -> bool {
    w.len() > 0 && forall|k: int| 0 <= k < w.len() ==> is_digit(#[trigger] w[k])
}

/// ASCII lower-casing of a sequence.
pub open spec fn ascii_lower(s: Seq<char>) -> Seq<char> {
    s.map_values(|c: char| lower_ascii(c))
}

/// The size at the end of `s` and what precedes it. A trailing number
/// `N`, `Nml` or `N ml` (any ASCII case of `ml`) is the size, normalized to
/// `N ml`, and the words before it, joined by one space, are the rest.
/// Without such an ending, `s` is returned as it is, without size.
pub open spec fn split_size_of(s: Seq<char>) -> (Seq<char>, Option<Seq<char>>) {
    let ws = words(s);
    let n = ws.len();
    if n >= 1 && all_digits(ws[n - 1]) {
        (join_space(ws.take(n - 1)), Some(ws[n - 1] + " ml"@))
    } else if n >= 1 && ws[n - 1].len() > 2 && all_digits(ws[n - 1].take(ws[n - 1].len() - 2))
        && ascii_lower(ws[n - 1].skip(ws[n - 1].len() - 2)) == "ml"@ {
        (join_space(ws.take(n - 1)), Some(ws[n - 1].take(ws[n - 1].len() - 2) + " ml"@))
    } else if n >= 2 && ascii_lower(ws[n - 1]) == "ml"@ && all_digits(ws[n - 2]) {
        (join_space(ws.take(n - 2)), Some(ws[n - 2] + " ml"@))
    } else {
        (s, None)
    }
}

fn chars_eq(a: &[char], b: &[char]) -> (r: bool)
    ensures
        r == (a@ == b@),
{
    if a.len() != b.len() {
        return false;
    }
    for k in 0..a.len()
        invariant
            a@.len() == b@.len(),
            forall|m: int| 0 <= m < k ==> a@[m] == b@[m],
    {
        if a[k] != b[k] {
            return false;
        }
    }
    assert(a@ =~= b@);
    true
}

fn vec_contains(ws: &Vec<Vec<char>>, w: &[char]) -> (r: bool)
    ensures
        r == seq_views(ws@).contains(w@),
{
    for k in 0..ws.len()
        invariant
            forall|m: int| 0 <= m < k ==> seq_views(ws@)[m] != w@,
    {
        if chars_eq(ws[k].as_slice(), w) {
            assert(seq_views(ws@)[k as int] == w@);
            return true;
        }
    }
    false
}

fn join_words(ws: &Vec<Vec<char>>, count: usize) -> (r: Vec<char>)
    requires
        count <= ws@.len(),
    ensures
        r@ == join_space(seq_views(ws@).take(count as int)),
{
    let mut out: Vec<char> = Vec::new();
    for i in 0..count
        invariant
            count <= ws@.len(),
            out@ == join_space(seq_views(ws@).take(i as int)),
    {
        let ghost pre = seq_views(ws@).take(i as int);
        let ghost nxt = seq_views(ws@).take(i + 1);
        assert(nxt.drop_last() =~= pre);
        if i > 0 {
            out.push(' ');
        }
        let w = &ws[i];
        let ghost o = out@;
        for k in 0..w.len()
            invariant
                out@ == o + w@.take(k as int),
        {
            out.push(w[k]);
            assert(out@ =~= o + w@.take(k + 1));
        }
        assert(w@.take(w@.len() as int) =~= w@);
        assert(out@ =~= join_space(nxt));
    }
    out
}

/// `name` without the brand's words (see [`strip_brand_of`]).
pub fn strip_brand(name: &str, brand: &str) -> (r: String)
    ensures
        r@ == strip_brand_of(name@, brand@),
{
    let lb = to_lowercase(brand);
    let bw = split_words(&chars_of(lb.as_str()));
    let ws = split_words(&chars_of(name));
    let ghost bwv = words(lowercase(brand@));
    let ghost pred = |w: Seq<char>| !bwv.contains(lowercase(w));
    let mut kept: Vec<Vec<char>> = Vec::new();
    for k in 0..ws.len()
        invariant
            seq_views(bw@) == bwv,
            pred == (|w: Seq<char>| !bwv.contains(lowercase(w))),
            seq_views(kept@) == seq_views(ws@).take(k as int).filter(pred),
    {
        let ghost pre = seq_views(ws@).take(k as int);
        assert(seq_views(ws@).take(k + 1) =~= pre.push(ws@[k as int]@));
        proof {
            lemma_filter_push(pre, ws@[k as int]@, pred);
        }
        let w = string_of(ws[k].as_slice());
        let lw = to_lowercase(w.as_str());
        let lwc = chars_of(lw.as_str());
        if !vec_contains(&bw, &lwc) {
            let ghost o = kept@;
            let mut copy: Vec<char> = Vec::new();
            let src = &ws[k];
            for m in 0..src.len()
                invariant
                    copy@ == src@.take(m as int),
            {
                copy.push(src[m]);
                assert(copy@ =~= src@.take(m + 1));
            }
            assert(src@.take(src@.len() as int) =~= src@);
            kept.push(copy);
            assert(seq_views(kept@) =~= seq_views(o).push(ws@[k as int]@));
        }
    }
    assert(seq_views(ws@).take(ws.len() as int) =~= seq_views(ws@));
    let n = kept.len();
    let out = join_words(&kept, n);
    assert(seq_views(kept@).take(n as int) =~= seq_views(kept@));
    string_of(&out)
}

fn all_ascii_digits(w: &[char], upto: usize) -> (r: bool)
    requires
        upto <= w@.len(),
    ensures
        r == all_digits(w@.take(upto as int)),
{
    if upto == 0 {
        return false;
    }
    for k in 0..upto
        invariant
            upto <= w@.len(),
            forall|m: int| 0 <= m < k ==> is_digit(#[trigger] w@[m]),
    {
        if !(w[k] >= '0' && w[k] <= '9') {
            assert(!is_digit(w@.take(upto as int)[k as int]));
            return false;
        }
    }
    assert forall|m: int| 0 <= m < upto implies is_digit(#[trigger] w@.take(upto as int)[m]) by {
        assert(w@.take(upto as int)[m] == w@[m]);
    }
    true
}

fn is_ml(w: &[char], from: usize) -> (r: bool)
    requires
        from <= w@.len(),
    ensures
        r == (ascii_lower(w@.skip(from as int)) == "ml"@),
{
    proof {
        reveal_strlit("ml");
    }
    if w.len() - from != 2 {
        proof {
            if ascii_lower(w@.skip(from as int)) == "ml"@ {
                assert(ascii_lower(w@.skip(from as int)).len() == 2);
            }
        }
        return false;
    }
    let a = to_ascii_lower(w[from]);
    let b = to_ascii_lower(w[from + 1]);
    let r = a == 'm' && b == 'l';
    proof {
        let l = ascii_lower(w@.skip(from as int));
        assert(l[0] == a && l[1] == b);
        if r {
            assert(l =~= "ml"@);
        } else if l == "ml"@ {
            assert("ml"@[0] == 'm' && "ml"@[1] == 'l');
        }
    }
    r
}

fn with_ml(digits: &[char], upto: usize) -> (r: Vec<char>)
    requires
        upto <= digits@.len(),
    ensures
        r@ == digits@.take(upto as int) + " ml"@,
{
    proof {
        reveal_strlit(" ml");
    }
    let mut out: Vec<char> = Vec::new();
    for k in 0..upto
        invariant
            upto <= digits@.len(),
            out@ == digits@.take(k as int),
    {
        out.push(digits[k]);
        assert(out@ =~= digits@.take(k + 1));
    }
    out.push(' ');
    out.push('m');
    out.push('l');
    assert(out@ =~= digits@.take(upto as int) + " ml"@);
    out
}

/// Splits a trailing size off `s` (see [`split_size_of`]).
pub fn split_size(s: &[char]) -> (r: (Vec<char>, Option<Vec<char>>))
    ensures
        r.0@ == split_size_of(s@).0,
        match r.1 {
            Some(v) => split_size_of(s@).1 == Some(v@),
            None => split_size_of(s@).1.is_none(),
        },
{
    let ws = split_words(s);
    let n = ws.len();
    let ghost wv = words(s@);
    assert(seq_views(ws@) == wv);
    if n >= 1 {
        let last = &ws[n - 1];
        assert(last@ == wv[n - 1]);
        assert(last@.take(last@.len() as int) =~= last@);
        if all_ascii_digits(last.as_slice(), last.len()) {
            let rest = join_words(&ws, n - 1);
            return (rest, Some(with_ml(last.as_slice(), last.len())));
        }
        if last.len() > 2 && all_ascii_digits(last.as_slice(), last.len() - 2) && is_ml(
            last.as_slice(),
            last.len() - 2,
        ) {
            let rest = join_words(&ws, n - 1);
            return (rest, Some(with_ml(last.as_slice(), last.len() - 2)));
        }
        if n >= 2 {
            let prev = &ws[n - 2];
            assert(prev@ == wv[n - 2]);
            assert(prev@.take(prev@.len() as int) =~= prev@);
            assert(last@.skip(0) =~= last@);
            if is_ml(last.as_slice(), 0) && all_ascii_digits(prev.as_slice(), prev.len()) {
                let rest = join_words(&ws, n - 2);
                return (rest, Some(with_ml(prev.as_slice(), prev.len())));
            }
        }
    }
    let mut copy: Vec<char> = Vec::new();
    for k in 0..s.len()
        invariant
            copy@ == s@.take(k as int),
    {
        copy.push(s[k]);
        assert(copy@ =~= s@.take(k + 1));
    }
    assert(s@.take(s.len() as int) =~= s@);
    (copy, None)
}


/// A canonical product proposed from an unmatched provider product.
pub struct ProposedProduct {
    /// The provider product record id this came from.
    pub provider_product_id: String,
    /// The trimmed scraped name.
    pub source_name: String,
    /// The guessed brand (empty when none matched).
    pub brand: String,
    /// The product name without brand and size.
    pub product_name: String,
    /// The size (e.g. `100 ml`), empty when none was detected.
    pub size: String,
    /// The full display name (brand + product_name + size).
    pub name: String,
}

pub type ProposalView = (Seq<char>, Seq<char>, Seq<char>, Seq<char>, Seq<char>, Seq<char>);

pub open spec fn proposal_view(p: ProposedProduct) -> ProposalView {
    (p.provider_product_id@, p.source_name@, p.brand@, p.product_name@, p.size@, p.name@)
}

pub open spec fn proposal_views(v: Seq<ProposedProduct>) -> Seq<ProposalView> {
    v.map_values(|p: ProposedProduct| proposal_view(p))
}

/// The deduplication key of a proposal: brand, product name and size,
/// ASCII lower-cased.
pub type ProposalKey = (Seq<char>, Seq<char>, Seq<char>);

/// The names of the existing products, their whitespace collapsed and ASCII
/// lower-cased.
pub open spec fn existing_names(products: Seq<ProductRow>) -> Seq<Seq<char>> {
    products.map_values(|p: ProductRow| ascii_lower(collapse(p.name@)))
}

/// The proposal built from one provider product before deduplication, or
/// `None` when it is linked, its trimmed name is empty, or what is left
/// after removing brand and size is empty. The brand is the best brand
/// match of the trimmed name (empty when none); its words are removed from
/// the name, a trailing size is split off, and the trimmed rest is the
/// product name.
pub open spec fn candidate_proposal(pp: ProviderProductRow, cands: Seq<(Seq<char>, Seq<char>)>) -> Option<
    ProposalView,
> {
    let name = trim(pp@.name);
    if non_empty_opt(pp@.product_id).is_some() || name.len() == 0 {
        None
    } else {
        let brand = match best_brand(name, cands) {
            Some(i) => cands[i].1,
            None => seq![],
        };
        let without_brand = if brand.len() == 0 {
            name
        } else {
            strip_brand_of(name, brand)
        };
        let split = split_size_of(without_brand);
        let product_name = trim(split.0);
        let size = match split.1 {
            Some(z) => z,
            None => seq![],
        };
        if product_name.len() == 0 {
            None
        } else {
            let b = trim(brand);
            Some((pp@.id, name, b, product_name, size, full_name_of(b, product_name, size)))
        }
    }
}

pub open spec fn key_of(p: ProposalView) -> ProposalKey {
    (ascii_lower(p.2), ascii_lower(p.3), ascii_lower(p.4))
}

/// The proposals for `pps` with the keys seen so far: a candidate proposal
/// is dropped when its full name (ASCII lower-cased) is an existing
/// product's name, or when an earlier proposal had the same key.
pub open spec fn proposals_of(
    pps: Seq<ProviderProductRow>,
    cands: Seq<(Seq<char>, Seq<char>)>,
    existing: Seq<Seq<char>>,
) -> (Seq<ProposalView>, Seq<ProposalKey>)
    decreases pps.len(),
{
    if pps.len() == 0 {
        (seq![], seq![])
    } else {
        let (ps, seen) = proposals_of(pps.drop_last(), cands, existing);
        match candidate_proposal(pps.last(), cands) {
            None => (ps, seen),
            Some(p) => if existing.contains(ascii_lower(p.5)) || seen.contains(key_of(p)) {
                (ps, seen)
            } else {
                (ps.push(p), seen.push(key_of(p)))
            },
        }
    }
}

fn ascii_lowered(s: &[char]) -> (r: Vec<char>)
    ensures
        r@ == ascii_lower(s@),
{
    let mut out: Vec<char> = Vec::new();
    for k in 0..s.len()
        invariant
            out@ == ascii_lower(s@.take(k as int)),
    {
        out.push(to_ascii_lower(s[k]));
        assert(out@ =~= ascii_lower(s@.take(k + 1)));
    }
    assert(s@.take(s.len() as int) =~= s@);
    out
}

fn key_eq(a: &(Vec<char>, Vec<char>, Vec<char>), b: &(Vec<char>, Vec<char>, Vec<char>)) -> (r: bool)
    ensures
        r == ((a.0@, a.1@, a.2@) == (b.0@, b.1@, b.2@)),
{
    chars_eq(a.0.as_slice(), b.0.as_slice()) && chars_eq(a.1.as_slice(), b.1.as_slice())
        && chars_eq(a.2.as_slice(), b.2.as_slice())
}

pub open spec fn key_views(v: Seq<(Vec<char>, Vec<char>, Vec<char>)>) -> Seq<ProposalKey> {
    v.map_values(|k: (Vec<char>, Vec<char>, Vec<char>)| (k.0@, k.1@, k.2@))
}

/// The proposal for one provider product before deduplication (see
/// [`candidate_proposal`]).
fn propose_one(pp: &ProviderProductRow, candidates: &Vec<(String, String)>) -> (r: Option<
    ProposedProduct,
>)
    ensures
        match r {
            Some(p) => candidate_proposal(*pp, pair_views(candidates@)) == Some(proposal_view(p)),
            None => candidate_proposal(*pp, pair_views(candidates@)).is_none(),
        },
{
    let linked = match &pp.product_id {
        Some(s) => s.as_str().unicode_len() > 0,
        None => false,
    };
    let name = trim_chars(&chars_of(pp.name.as_str()));
    if linked || name.len() == 0 {
        return None;
    }
    let name_s = string_of(&name);
    let brand: String = match best_match(name_s.as_str(), candidates) {
        Some(i) => {
            assert(pair_views(candidates@)[i as int].1 == candidates@[i as int].1@);
            candidates[i].1.clone()
        },
        None => String::new(),
    };
    let without_brand: Vec<char> = if brand.as_str().unicode_len() == 0 {
        name
    } else {
        chars_of(strip_brand(name_s.as_str(), brand.as_str()).as_str())
    };
    let (rest, size) = split_size(&without_brand);
    let product_name = trim_chars(&rest);
    if product_name.len() == 0 {
        return None;
    }
    let b = trim_chars(&chars_of(brand.as_str()));
    let size_v: Vec<char> = match size {
        Some(z) => z,
        None => Vec::new(),
    };
    let bs = string_of(&b);
    let pn = string_of(&product_name);
    let zs = string_of(&size_v);
    let full = full_name(bs.as_str(), pn.as_str(), zs.as_str());
    proof {
        crate::text::lemma_trim_idempotent(b@);
        crate::text::lemma_trim_idempotent(product_name@);
    }
    Some(
        ProposedProduct {
            provider_product_id: pp.id.clone(),
            source_name: name_s,
            brand: bs,
            product_name: pn,
            size: zs,
            name: full,
        },
    )
}

/// Builds one canonical-product proposal per unmatched provider product
/// (empty `product_id`) whose name splits into a usable product name. The
/// brand is guessed from the brand table (all brand tokens must appear in
/// the name), the size comes from a trailing number (normalized to `N
/// ml`), and the rest becomes the product name. Proposals whose full name
/// already exists in `products` (compared with whitespace collapsed, ASCII
/// case-insensitively) and repeats of an earlier proposal (same brand,
/// product name and size, ASCII case-insensitively) are dropped.
pub fn propose_unmatched(
    provider_products: &Vec<ProviderProductRow>,
    products: &Vec<ProductRow>,
    brands: &Vec<BrandRow>,
) -> (r: Vec<ProposedProduct>)
    ensures
        proposal_views(r@) == proposals_of(
            provider_products@,
            brand_candidates(brands@),
            existing_names(products@),
        ).0,
{
    let mut candidates: Vec<(String, String)> = Vec::new();
    for k in 0..brands.len()
        invariant
            candidates@.len() == k,
            forall|m: int|
                0 <= m < k ==> (#[trigger] candidates@[m]).0@ == brands@[m].id@ && candidates@[m].1@
                    == brands@[m].name@,
    {
        let id = brands[k].id.clone();
        let nm = brands[k].name.clone();
        candidates.push((id, nm));
    }
    assert(pair_views(candidates@) =~= brand_candidates(brands@));
    let ghost ex = existing_names(products@);
    let mut existing: Vec<Vec<char>> = Vec::new();
    for k in 0..products.len()
        invariant
            ex == existing_names(products@),
            seq_views(existing@) == ex.take(k as int),
    {
        let c = collapse_whitespace(&chars_of(products[k].name.as_str()));
        let l = ascii_lowered(&c);
        let ghost o = existing@;
        assert(ex[k as int] == l@);
        existing.push(l);
        assert(seq_views(existing@) =~= seq_views(o).push(l@));
        assert(ex.take(k + 1) =~= ex.take(k as int).push(ex[k as int]));
    }
    assert(ex.take(products.len() as int) =~= ex);
    let ghost cv = brand_candidates(brands@);
    let mut seen: Vec<(Vec<char>, Vec<char>, Vec<char>)> = Vec::new();
    let mut out: Vec<ProposedProduct> = Vec::new();
    for k in 0..provider_products.len()
        invariant
            cv == pair_views(candidates@),
            seq_views(existing@) == ex,
            proposal_views(out@) == proposals_of(provider_products@.take(k as int), cv, ex).0,
            key_views(seen@) == proposals_of(provider_products@.take(k as int), cv, ex).1,
    {
        let pp = &provider_products[k];
        let ghost pre = provider_products@.take(k as int);
        assert(provider_products@.take(k + 1).drop_last() =~= pre);
        assert(provider_products@.take(k + 1).last() == *pp);
        match propose_one(pp, &candidates) {
            None => {},
            Some(p) => {
                let full_l = ascii_lowered(&chars_of(p.name.as_str()));
                if vec_contains(&existing, &full_l) {
                } else {
                    let key = (
                        ascii_lowered(&chars_of(p.brand.as_str())),
                        ascii_lowered(&chars_of(p.product_name.as_str())),
                        ascii_lowered(&chars_of(p.size.as_str())),
                    );
                    let mut dup = false;
                    for j in 0..seen.len()
                        invariant
                            dup == exists|m: int|
                                0 <= m < j && #[trigger] key_views(seen@)[m] == (key.0@, key.1@, key.2@),
                    {
                        assert(key_views(seen@)[j as int] == (seen@[j as int].0@, seen@[j as int].1@, seen@[j as int].2@));
                        if key_eq(&seen[j], &key) {
                            dup = true;
                        }
                    }
                    proof {
                        let kv = (key.0@, key.1@, key.2@);
                        if key_views(seen@).contains(kv) {
                            let m = choose|m: int| 0 <= m < key_views(seen@).len() && key_views(seen@)[m] == kv;
                            assert(dup);
                        }
                    }
                    if !dup {
                        let ghost os = seen@;
                        let ghost oo = out@;
                        seen.push(key);
                        out.push(p);
                        assert(key_views(seen@) =~= key_views(os).push(key_of(proposal_view(p))));
                        assert(proposal_views(out@) =~= proposal_views(oo).push(proposal_view(p)));
                    }
                }
            },
        }
    }
    assert(provider_products@.take(provider_products.len() as int) =~= provider_products@);
    out
}

/// The proposals are new and distinct: no proposal's full name (ASCII
/// lower-cased) is among the existing names, no two proposals share a key,
/// and the keys kept are those of the proposals.
pub proof fn lemma_proposals_distinct(
    pps: Seq<ProviderProductRow>,
    cands: Seq<(Seq<char>, Seq<char>)>,
    existing: Seq<Seq<char>>,
)
    ensures
        proposals_of(pps, cands, existing).1 == proposals_of(pps, cands, existing).0.map_values(
            |p: ProposalView| key_of(p),
        ),
        forall|i: int|
            0 <= i < proposals_of(pps, cands, existing).0.len() ==> !existing.contains(
                ascii_lower((#[trigger] proposals_of(pps, cands, existing).0[i]).5),
            ),
        forall|i: int, j: int|
            0 <= i < j < proposals_of(pps, cands, existing).0.len() ==> key_of(
                #[trigger] proposals_of(pps, cands, existing).0[i],
            ) != key_of(#[trigger] proposals_of(pps, cands, existing).0[j]),
    decreases pps.len(),
{
    if pps.len() > 0 {
        lemma_proposals_distinct(pps.drop_last(), cands, existing);
        let (ps, seen) = proposals_of(pps.drop_last(), cands, existing);
        match candidate_proposal(pps.last(), cands) {
            None => {},
            Some(p) => {
                if !(existing.contains(ascii_lower(p.5)) || seen.contains(key_of(p))) {
                    let q = ps.push(p);
                    assert(seen.push(key_of(p)) =~= q.map_values(|x: ProposalView| key_of(x)));
                    assert forall|i: int| 0 <= i < ps.len() implies key_of(#[trigger] q[i]) != key_of(p) by {
                        assert(q[i] == ps[i]);
                        assert(seen[i] == key_of(ps[i]));
                    }
                    assert forall|i: int| 0 <= i < q.len() implies !existing.contains(
                        ascii_lower((#[trigger] q[i]).5),
                    ) by {
                        if i < ps.len() {
                            assert(q[i] == ps[i]);
                        }
                    }
                    assert forall|i: int, j: int| 0 <= i < j < q.len() implies key_of(#[trigger] q[i]) != key_of(
                        #[trigger] q[j],
                    ) by {
                        if j < ps.len() {
                            assert(q[i] == ps[i] && q[j] == ps[j]);
                        } else {
                            assert(q[j] == p);
                        }
                    }
                }
            },
        }
    } else {
        assert(seq![].map_values(|p: ProposalView| key_of(p)) =~= Seq::<ProposalKey>::empty());
    }
}

} // verus!
