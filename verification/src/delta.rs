//! Telling new products from those already captured in a session: each
//! product has a key over all of its fields, and a product is new while its
//! key has not been seen.

use vstd::prelude::*;

use crate::detect::{product_view, Product, ProductView};
use crate::matching::{sort_lex, sort_tokens, vviews};
use crate::model::{copy_opt, opt_view};
use crate::text::{chars_of, string_of};

verus! {

/// Words joined by single commas.
pub open spec fn join_commas(ws: Seq<Seq<char>>) -> Seq<char>
    decreases ws.len(),
{
    if ws.len() == 0 {
        seq![]
    } else if ws.len() == 1 {
        ws[0]
    } else {
        join_commas(ws.drop_last()) + seq![','] + ws.last()
    }
}

/// The identity key of a product: name, price text, price, link (empty
/// when none), images in sorted order joined by commas, and currency (empty
/// when none), separated by `|`. Two products with the same key are the
/// same for delta purposes; the order of the images does not matter.
pub open spec fn key_of(p: ProductView) -> Seq<char> {
    p.name + seq!['|'] + p.price_text + seq!['|'] + p.price + seq!['|'] + match p.url {
        Some(u) => u,
        None => seq![],
    } + seq!['|'] + join_commas(sort_lex(p.images)) + seq!['|'] + match p.currency {
        Some(c) => c,
        None => seq![],
    }
}

/// Appends the characters of `s`.
fn push_str(out: &mut Vec<char>, s: &str)
    ensures
        final(out)@ == old(out)@ + s@,
{
    let cs = chars_of(s);
    let ghost o = out@;
    for k in 0..cs.len()
        invariant
            out@ == o + cs@.take(k as int),
    {
        out.push(cs[k]);
        assert(out@ =~= o + cs@.take(k + 1));
    }
    assert(cs@.take(cs.len() as int) =~= cs@);
}

impl Product {
    /// The identity key of this product (see [`key_of`]).
    pub fn delta_key(&self) -> (r: String)
        ensures
            r@ == key_of(product_view(*self)),
    {
        let mut imgs: Vec<Vec<char>> = Vec::new();
        for k in 0..self.images.len()
            invariant
                vviews(imgs@) == self.images@.take(k as int).map_values(|s: String| s@),
        {
            let ghost o = vviews(imgs@);
            imgs.push(chars_of(self.images[k].as_str()));
            assert(self.images@.take(k + 1) =~= self.images@.take(k as int).push(self.images@[k as int]));
            assert(vviews(imgs@) =~= o.push(self.images@[k as int]@));
        }
        assert(self.images@.take(self.images.len() as int) =~= self.images@);
        let sorted = sort_tokens(imgs);
        let ghost sv = vviews(sorted@);
        let mut out: Vec<char> = Vec::new();
        push_str(&mut out, self.name.as_str());
        out.push('|');
        push_str(&mut out, self.price_text.as_str());
        out.push('|');
        push_str(&mut out, self.price.as_str());
        out.push('|');
        match &self.url {
            Some(u) => push_str(&mut out, u.as_str()),
            None => {},
        }
        out.push('|');
        let ghost before = out@;
        for i in 0..sorted.len()
            invariant
                sv == vviews(sorted@),
                out@ == before + join_commas(sv.take(i as int)),
        {
            assert(sv.take(i + 1).drop_last() =~= sv.take(i as int));
            if i > 0 {
                out.push(',');
            }
            let s = string_of(sorted[i].as_slice());
            push_str(&mut out, s.as_str());
            assert(out@ =~= before + join_commas(sv.take(i + 1)));
        }
        assert(sv.take(sorted.len() as int) =~= sv);
        out.push('|');
        match &self.currency {
            Some(c) => push_str(&mut out, c.as_str()),
            None => {},
        }
        assert(out@ =~= key_of(product_view(*self)));
        string_of(&out)
    }

    /// A copy of this product.
    pub fn duplicate(&self) -> (r: Product)
        ensures
            product_view(r) == product_view(*self),
    {
        let mut images: Vec<String> = Vec::new();
        for k in 0..self.images.len()
            invariant
                images@.map_values(|s: String| s@) == self.images@.take(k as int).map_values(|s: String| s@),
        {
            let ghost o = images@.map_values(|s: String| s@);
            images.push(self.images[k].clone());
            assert(self.images@.take(k + 1) =~= self.images@.take(k as int).push(self.images@[k as int]));
            assert(images@.map_values(|s: String| s@) =~= o.push(self.images@[k as int]@));
        }
        assert(self.images@.take(self.images.len() as int) =~= self.images@);
        Product {
            name: self.name.clone(),
            price_text: self.price_text.clone(),
            price: self.price.clone(),
            url: copy_opt(&self.url),
            images,
            currency: copy_opt(&self.currency),
        }
    }
}

/// The keys already seen in a session.
pub struct SeenProducts {
    keys: Vec<String>,
}

impl View for SeenProducts {
    type V = Set<Seq<char>>;

    closed spec fn view(&self) -> Set<Seq<char>> {
        self.keys@.map_values(|k: String| k@).to_set()
    }
}

impl SeenProducts {
    /// No key seen yet.
    pub fn new() -> (r: Self)
        ensures
            r@ == Set::<Seq<char>>::empty(),
    {
        let r = SeenProducts { keys: Vec::new() };
        assert(r@ =~= Set::<Seq<char>>::empty());
        r
    }

    /// Whether `key` was seen.
    pub fn contains(&self, key: &String) -> (r: bool)
        ensures
            r == self@.contains(key@),
    {
        let ghost kv = self.keys@.map_values(|k: String| k@);
        for i in 0..self.keys.len()
            invariant
                kv == self.keys@.map_values(|k: String| k@),
                forall|j: int| 0 <= j < i ==> kv[j] != key@,
        {
            assert(kv[i as int] == self.keys@[i as int]@);
            if self.keys[i] == *key {
                assert(kv.contains(key@));
                return true;
            }
        }
        assert(!kv.to_set().contains(key@)) by {
            if kv.to_set().contains(key@) {
                assert(kv.contains(key@));
            }
        }
        false
    }

    /// Marks `key` as seen; returns whether it was new.
    pub fn insert(&mut self, key: String) -> (r: bool)
        ensures
            r == !old(self)@.contains(key@),
            final(self)@ == old(self)@.insert(key@),
    {
        if self.contains(&key) {
            assert(old(self)@.insert(key@) =~= old(self)@);
            return false;
        }
        let ghost kv = self.keys@.map_values(|k: String| k@);
        let ghost kk = key@;
        self.keys.push(key);
        assert(self.keys@.map_values(|k: String| k@) =~= kv.push(kk));
        assert(kv.push(kk).to_set() =~= kv.to_set().insert(kk)) by {
            assert forall|x: Seq<char>| kv.push(kk).to_set().contains(x) <==> kv.to_set().insert(kk).contains(x) by {
                if kv.push(kk).contains(x) && x != kk {
                    let j = choose|j: int| 0 <= j < kv.len() + 1 && kv.push(kk)[j] == x;
                    assert(kv[j] == x);
                }
                if kv.contains(x) {
                    let j = choose|j: int| 0 <= j < kv.len() && kv[j] == x;
                    assert(kv.push(kk)[j] == x);
                }
                if x == kk {
                    assert(kv.push(kk)[kv.len() as int] == x);
                }
            }
        }
        true
    }

    /// Forgets `key` (so a product whose capture failed is new again).
    pub fn remove(&mut self, key: &String)
        ensures
            final(self)@ == old(self)@.remove(key@),
    {
        let ghost kv = key_views(self.keys@);
        let mut kept: Vec<String> = Vec::new();
        for i in 0..self.keys.len()
            invariant
                kv == key_views(self.keys@),
                forall|x: Seq<char>| #[trigger] key_views(kept@).contains(x) <==> (x != key@ && kv.take(
                    i as int,
                ).contains(x)),
        {
            assert(kv[i as int] == self.keys@[i as int]@);
            let ghost o = key_views(kept@);
            let ghost kt = kv.take(i as int);
            let ghost kn = kv.take(i + 1);
            assert(kn =~= kt.push(kv[i as int]));
            if self.keys[i] != *key {
                kept.push(self.keys[i].clone());
                assert(key_views(kept@) =~= o.push(kv[i as int]));
            }
            let ghost ko = key_views(kept@);
            assert(kv[i as int] == key@ ==> ko == o);
            assert(kv[i as int] != key@ ==> ko == o.push(kv[i as int]));
            assert forall|x: Seq<char>| #[trigger] ko.contains(x) <==> (x != key@ && kn.contains(x)) by {
                assert(o.contains(x) <==> (x != key@ && kt.contains(x)));
                assert(kn.contains(x) <==> (kt.contains(x) || x == kv[i as int])) by {
                    if kn.contains(x) && !kt.contains(x) {
                        let j = choose|j: int| 0 <= j < kn.len() && kn[j] == x;
                        if j < i {
                            assert(kt[j] == x);
                        } else {
                            assert(kn[j] == kv[i as int]);
                        }
                    }
                    if kt.contains(x) {
                        let j = choose|j: int| 0 <= j < kt.len() && kt[j] == x;
                        assert(kn[j] == x);
                    }
                    if x == kv[i as int] {
                        assert(kn[i as int] == x);
                    }
                }
                if kv[i as int] != key@ {
                    assert(ko.contains(x) <==> (o.contains(x) || x == kv[i as int])) by {
                        if ko.contains(x) && !o.contains(x) {
                            let j = choose|j: int| 0 <= j < ko.len() && ko[j] == x;
                            if j < o.len() {
                                assert(o[j] == x);
                            }
                        }
                        if o.contains(x) {
                            let j = choose|j: int| 0 <= j < o.len() && o[j] == x;
                            assert(ko[j] == x);
                        }
                        if x == kv[i as int] {
                            assert(ko[o.len() as int] == x);
                        }
                    }
                }
            }
        }
        assert(kv.take(self.keys.len() as int) =~= kv);
        self.keys = kept;
        assert(self@ =~= old(self)@.remove(key@)) by {
            assert forall|x: Seq<char>| self@.contains(x) <==> old(self)@.remove(key@).contains(x) by {
                assert(self@.contains(x) == key_views(self.keys@).contains(x));
                assert(old(self)@.contains(x) == kv.contains(x));
            }
        }
    }
}

/// The keys of `v` as plain values.
pub open spec fn key_views(v: Seq<String>) -> Seq<Seq<char>> {
    v.map_values(|k: String| k@)
}

/// The products among `products[..k]` whose key was new at their turn,
/// given the keys seen before.
pub open spec fn delta_upto(products: Seq<ProductView>, seen: Set<Seq<char>>, k: int) -> (Seq<ProductView>, Set<Seq<char>>)
    decreases k,
{
    if k <= 0 || k > products.len() {
        (seq![], seen)
    } else {
        let (d, s) = delta_upto(products, seen, k - 1);
        let key = key_of(products[k - 1]);
        if s.contains(key) {
            (d, s)
        } else {
            (d.push(products[k - 1]), s.insert(key))
        }
    }
}

/// Returns only the products not seen yet (by key), in order, marking
/// their keys as seen; a product repeated within `products` counts once.
pub fn product_delta(products: &Vec<Product>, seen: &mut SeenProducts) -> (r: Vec<Product>)
    ensures
        ({
            let pv = products@.map_values(|p: Product| product_view(p));
            &&& r@.map_values(|p: Product| product_view(p)) == delta_upto(pv, old(seen)@, pv.len() as int).0
            &&& final(seen)@ == delta_upto(pv, old(seen)@, pv.len() as int).1
        }),
{
    let ghost pv = products@.map_values(|p: Product| product_view(p));
    let ghost s0 = seen@;
    let mut out: Vec<Product> = Vec::new();
    for k in 0..products.len()
        invariant
            pv == products@.map_values(|p: Product| product_view(p)),
            s0 == old(seen)@,
            out@.map_values(|p: Product| product_view(p)) == delta_upto(pv, s0, k as int).0,
            seen@ == delta_upto(pv, s0, k as int).1,
    {
        let key = products[k].delta_key();
        assert(pv[k as int] == product_view(products@[k as int]));
        if seen.insert(key) {
            let ghost o = out@.map_values(|p: Product| product_view(p));
            out.push(products[k].duplicate());
            assert(out@.map_values(|p: Product| product_view(p)) =~= o.push(pv[k as int]));
        }
    }
    out
}

/// The keys of `products[..k]`.
pub open spec fn keys_upto(products: Seq<ProductView>, k: int) -> Set<Seq<char>>
    decreases k,
{
    if k <= 0 || k > products.len() {
        Set::empty()
    } else {
        keys_upto(products, k - 1).insert(key_of(products[k - 1]))
    }
}

/// The keys of a sequence of products, as a set.
pub open spec fn key_set(ps: Seq<ProductView>) -> Set<Seq<char>> {
    ps.map_values(|p: ProductView| key_of(p)).to_set()
}

pub(crate) proof fn lemma_key_set_push(ps: Seq<ProductView>, p: ProductView)
    ensures
        key_set(ps.push(p)) == key_set(ps).insert(key_of(p)),
{
    let a = ps.push(p).map_values(|q: ProductView| key_of(q));
    let b = ps.map_values(|q: ProductView| key_of(q));
    assert(a =~= b.push(key_of(p)));
    assert(a.to_set() =~= b.to_set().insert(key_of(p))) by {
        assert forall|x: Seq<char>| a.to_set().contains(x) <==> b.to_set().insert(key_of(p)).contains(x) by {
            if a.contains(x) && x != key_of(p) {
                let j = choose|j: int| 0 <= j < a.len() && a[j] == x;
                assert(b[j] == x);
            }
            if b.contains(x) {
                let j = choose|j: int| 0 <= j < b.len() && b[j] == x;
                assert(a[j] == x);
            }
            if x == key_of(p) {
                assert(a[b.len() as int] == x);
            }
        }
    }
}

/// After a delta, the seen keys are the keys seen before together with the
/// keys of every product handed in; the products handed out are exactly
/// one per key that was new, each with a key not seen before, no key twice.
pub proof fn lemma_delta_laws(products: Seq<ProductView>, seen: Set<Seq<char>>, k: int)
    requires
        0 <= k <= products.len(),
    ensures
        delta_upto(products, seen, k).1 == seen.union(keys_upto(products, k)),
        key_set(delta_upto(products, seen, k).0) == keys_upto(products, k).difference(seen),
        forall|i: int|
            0 <= i < delta_upto(products, seen, k).0.len() ==> !seen.contains(
                key_of(#[trigger] delta_upto(products, seen, k).0[i]),
            ),
        forall|i: int, j: int|
            0 <= i < j < delta_upto(products, seen, k).0.len() ==> key_of(
                #[trigger] delta_upto(products, seen, k).0[i],
            ) != key_of(#[trigger] delta_upto(products, seen, k).0[j]),
    decreases k,
{
    if k > 0 {
        lemma_delta_laws(products, seen, k - 1);
        let (d, s) = delta_upto(products, seen, k - 1);
        let key = key_of(products[k - 1]);
        assert(keys_upto(products, k) == keys_upto(products, k - 1).insert(key));
        if s.contains(key) {
            assert(seen.union(keys_upto(products, k)) =~= s);
            assert(keys_upto(products, k).difference(seen) =~= keys_upto(products, k - 1).difference(seen));
        } else {
            lemma_key_set_push(d, products[k - 1]);
            assert(s.insert(key) =~= seen.union(keys_upto(products, k)));
            assert(key_set(d).insert(key) =~= keys_upto(products, k).difference(seen));
            let d2 = d.push(products[k - 1]);
            assert forall|i: int| 0 <= i < d.len() implies key_of(#[trigger] d2[i]) != key by {
                assert(d2[i] == d[i]);
                let ks = d.map_values(|p: ProductView| key_of(p));
                assert(ks[i] == key_of(d[i]));
                assert(key_set(d).contains(key_of(d[i])));
            }
        }
    } else {
        assert(key_set(seq![]) =~= Set::<Seq<char>>::empty());
        assert(seen.union(Set::empty()) =~= seen);
        assert(Set::<Seq<char>>::empty().difference(seen) =~= Set::<Seq<char>>::empty());
    }
}

/// Handing the same products in a second time, with the keys the first call
/// left behind, hands nothing out and leaves the keys as they are.
pub proof fn lemma_delta_again_is_empty(products: Seq<ProductView>, seen: Set<Seq<char>>)
    ensures
        ({
            let after = delta_upto(products, seen, products.len() as int).1;
            &&& delta_upto(products, after, products.len() as int).0 == Seq::<ProductView>::empty()
            &&& delta_upto(products, after, products.len() as int).1 == after
        }),
{
    let n = products.len() as int;
    let after = delta_upto(products, seen, n).1;
    lemma_delta_laws(products, seen, n);
    lemma_delta_laws(products, after, n);
    let d = delta_upto(products, after, n).0;
    assert(keys_upto(products, n).difference(after) =~= Set::<Seq<char>>::empty());
    if d.len() > 0 {
        let ks = d.map_values(|p: ProductView| key_of(p));
        assert(ks[0] == key_of(d[0]));
        assert(key_set(d).contains(key_of(d[0])));
    }
    assert(d =~= Seq::<ProductView>::empty());
    assert(after.union(keys_upto(products, n)) =~= after);
}

/// Forgetting the keys of the products a delta handed out restores the keys
/// seen before it, so that a batch whose capture failed is new again.
pub proof fn lemma_delta_rollback(products: Seq<ProductView>, seen: Set<Seq<char>>)
    ensures
        ({
            let (d, after) = delta_upto(products, seen, products.len() as int);
            after.difference(key_set(d)) == seen
        }),
{
    let n = products.len() as int;
    lemma_delta_laws(products, seen, n);
    let (d, after) = delta_upto(products, seen, n);
    assert(after.difference(key_set(d)) =~= seen);
}

/// The order of a product's images does not matter to its key: two
/// products alike but for the order of their images have the same key.
pub proof fn lemma_key_ignores_image_order(p: ProductView, q: ProductView)
    requires
        p.name == q.name,
        p.price_text == q.price_text,
        p.price == q.price,
        p.url == q.url,
        p.currency == q.currency,
        p.images.to_multiset() == q.images.to_multiset(),
    ensures
        key_of(p) == key_of(q),
{
    crate::matching::lemma_sort_lex_permutation(p.images, q.images);
}

} // verus!
