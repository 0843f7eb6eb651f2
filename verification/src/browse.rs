//! The decisions of the interactive browsing session: when the page read
//! by a poll holds a new grid, and which products of the current grid are
//! new and go into the next capture.

use vstd::prelude::*;

use crate::delta::{delta_upto, key_of, key_set, lemma_key_set_push, product_delta, SeenProducts};
use crate::detect::{detect_grid, detection, detection_view, product_view, products_view, Container, Detection, Product, ProductView};
use crate::dom::parsed_document;
use crate::model::{copy_opt, opt_view};

verus! {

/// A detection as plain values: the container (classes, `id`, element
/// children) and the products.
pub type DetectionView = ((Seq<Seq<char>>, Option<Seq<char>>, nat), Seq<ProductView>);

/// The batch to capture from detection `d` given the keys `seen`: its
/// products whose key is new (see [`delta_upto`]), under the detection's
/// container (`keep_container`) or an empty one, with the batch size as the
/// number of children; `None` when no product is new.
pub open spec fn batch_of(d: DetectionView, seen: Set<Seq<char>>, keep_container: bool) -> Option<DetectionView> {
    let fresh = delta_upto(d.1, seen, d.1.len() as int).0;
    if fresh.len() == 0 {
        None
    } else if keep_container {
        Some(((d.0.0, d.0.1, fresh.len()), fresh))
    } else {
        Some(((seq![], None, fresh.len()), fresh))
    }
}

fn copy_strings(v: &Vec<String>) -> (r: Vec<String>)
    ensures
        r@.map_values(|s: String| s@) == v@.map_values(|s: String| s@),
{
    let mut out: Vec<String> = Vec::new();
    for k in 0..v.len()
        invariant
            out@.map_values(|s: String| s@) == v@.take(k as int).map_values(|s: String| s@),
    {
        let ghost o = out@.map_values(|s: String| s@);
        out.push(v[k].clone());
        assert(v@.take(k + 1) =~= v@.take(k as int).push(v@[k as int]));
        assert(out@.map_values(|s: String| s@) =~= o.push(v@[k as int]@));
    }
    assert(v@.take(v.len() as int) =~= v@);
    out
}

/// The products of `detection` not seen yet, as a batch to capture (see
/// [`batch_of`]); their keys are marked seen.
pub fn new_batch(detection: &Detection, seen: &mut SeenProducts, keep_container: bool) -> (r: Option<Detection>)
    ensures
        ({
            let d = detection_view(Some(*detection)).unwrap();
            &&& final(seen)@ == delta_upto(d.1, old(seen)@, d.1.len() as int).1
            &&& detection_view(r) == batch_of(d, old(seen)@, keep_container)
        }),
{
    let ghost pv = products_view(detection.products@);
    assert(pv =~= detection.products@.map_values(|p: Product| product_view(p)));
    let fresh = product_delta(&detection.products, seen);
    assert(products_view(fresh@) =~= fresh@.map_values(|p: Product| product_view(p)));
    if fresh.len() == 0 {
        return None;
    }
    let n = fresh.len();
    let container = if keep_container {
        Container {
            classes: copy_strings(&detection.container.classes),
            id: copy_opt(&detection.container.id),
            child_count: n,
        }
    } else {
        Container { classes: Vec::new(), id: None, child_count: n }
    };
    proof {
        if !keep_container {
            assert(container.classes@.map_values(|s: String| s@) =~= Seq::<Seq<char>>::empty());
        }
    }
    Some(Detection { container, products: fresh })
}

/// The state of a browsing session: the page source last read, the grid
/// last detected, and the keys of the products already captured.
pub struct BrowseState {
    last_source: Option<String>,
    detection: Option<Detection>,
    seen: SeenProducts,
}

impl View for BrowseState {
    /// `(last source, last grid, keys seen)`.
    type V = (Option<Seq<char>>, Option<DetectionView>, Set<Seq<char>>);

    closed spec fn view(&self) -> (Option<Seq<char>>, Option<DetectionView>, Set<Seq<char>>) {
        (opt_view(self.last_source), detection_view(self.detection), self.seen@)
    }
}

/// Whether a poll that read `source` read a page source different from the
/// last one.
pub open spec fn source_changed(last: Option<Seq<char>>, source: Option<Seq<char>>) -> bool {
    match source {
        Some(s) => last != Some(s),
        None => false,
    }
}

impl BrowseState {
    /// A session that has read nothing yet.
    pub fn new() -> (r: Self)
        ensures
            r@ == (None::<Seq<char>>, None::<DetectionView>, Set::<Seq<char>>::empty()),
    {
        BrowseState { last_source: None, detection: None, seen: SeenProducts::new() }
    }

    /// Takes in the page source a poll read (`None` when it could not be
    /// read). A source different from the last one is kept, and its grid,
    /// when it has one, replaces the last grid (a page without a grid keeps
    /// the last one). Returns the products of the current grid not captured
    /// yet, under its container (see [`batch_of`]), and marks them seen.
    pub fn refresh(&mut self, source: Option<String>) -> (r: Option<Detection>)
        ensures
            ({
                let src = opt_view(source);
                let changed = source_changed(old(self)@.0, src);
                let found = if changed {
                    detection(parsed_document(src.unwrap()))
                } else {
                    None
                };
                &&& final(self)@.0 == if changed {
                    src
                } else {
                    old(self)@.0
                }
                &&& final(self)@.1 == if found is Some {
                    found
                } else {
                    old(self)@.1
                }
                &&& match final(self)@.1 {
                    None => r is None && final(self)@.2 == old(self)@.2,
                    Some(d) => final(self)@.2 == delta_upto(d.1, old(self)@.2, d.1.len() as int).1
                        && detection_view(r) == batch_of(d, old(self)@.2, true),
                }
            }),
    {
        match source {
            Some(s) => {
                let same = match &self.last_source {
                    Some(l) => *l == s,
                    None => false,
                };
                if !same {
                    let found = detect_grid(s.as_str());
                    self.last_source = Some(s);
                    if found.is_some() {
                        self.detection = found;
                    }
                }
            },
            None => {},
        }
        match &self.detection {
            Some(d) => new_batch(d, &mut self.seen, true),
            None => None,
        }
    }

    /// Forgets the keys of `batch` (its capture could not be written), so
    /// that its products are captured again.
    pub fn forget(&mut self, batch: &Detection)
        ensures
            final(self)@ == (old(self)@.0, old(self)@.1, old(self)@.2.difference(
                key_set(products_view(batch.products@)),
            )),
    {
        let ghost s0 = self.seen@;
        let ghost pv = products_view(batch.products@);
        for k in 0..batch.products.len()
            invariant
                pv == products_view(batch.products@),
                self@.0 == old(self)@.0,
                self@.1 == old(self)@.1,
                s0 == old(self)@.2,
                self@.2 == s0.difference(key_set(pv.take(k as int))),
        {
            let key = batch.products[k].delta_key();
            self.seen.remove(&key);
            proof {
                assert(pv.take(k + 1) =~= pv.take(k as int).push(pv[k as int]));
                lemma_key_set_push(pv.take(k as int), pv[k as int]);
                assert(key@ == key_of(pv[k as int]));
                assert(s0.difference(key_set(pv.take(k as int))).remove(key@) =~= s0.difference(
                    key_set(pv.take(k + 1)),
                ));
            }
        }
        assert(pv.take(batch.products.len() as int) =~= pv);
    }
}

/// A batch holds only products not captured before, no key twice, and
/// after it every product of the grid counts as captured: the keys seen are
/// those seen before together with the keys of the grid's products.
pub proof fn lemma_batch_fresh(d: DetectionView, seen: Set<Seq<char>>, keep_container: bool)
    ensures
        delta_upto(d.1, seen, d.1.len() as int).1 == seen.union(crate::delta::keys_upto(d.1, d.1.len() as int)),
        batch_of(d, seen, keep_container) matches Some(b) ==> {
            &&& b.0.2 == b.1.len()
            &&& forall|i: int| 0 <= i < b.1.len() ==> !seen.contains(key_of(#[trigger] b.1[i]))
            &&& forall|i: int, j: int|
                0 <= i < j < b.1.len() ==> key_of(#[trigger] b.1[i]) != key_of(#[trigger] b.1[j])
        },
        batch_of(d, seen, keep_container) is None ==> crate::delta::keys_upto(d.1, d.1.len() as int).subset_of(seen),
{
    crate::delta::lemma_delta_laws(d.1, seen, d.1.len() as int);
    let fresh = delta_upto(d.1, seen, d.1.len() as int).0;
    if fresh.len() == 0 {
        assert(key_set(fresh) =~= Set::<Seq<char>>::empty());
        let ks = crate::delta::keys_upto(d.1, d.1.len() as int);
        assert forall|x: Seq<char>| ks.contains(x) implies seen.contains(x) by {
            if !seen.contains(x) {
                assert(ks.difference(seen).contains(x));
            }
        }
    }
}

} // verus!
