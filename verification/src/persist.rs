//! The decisions of saving a capture to the store: which provider-product
//! row a product goes to, which currency its price is recorded in, and how
//! its images are synchronized. The requests themselves are made outside
//! the library.

use vstd::prelude::*;

use crate::autoscrape::contains_str;
use crate::dom::has_sub;
use crate::model::{copy_opt, opt_view, MatchInsert};
use crate::text::chars_of;

verus! {

/// The currency a price is recorded in: the product's own, else the
/// provider's default, else empty.
pub fn price_currency(product: &Option<String>, provider_default: &Option<String>) -> (r: String)
    ensures
        r@ == match opt_view(*product) {
            Some(c) => c,
            None => match opt_view(*provider_default) {
                Some(d) => d,
                None => seq![],
            },
        },
{
    match product {
        Some(c) => c.clone(),
        None => match provider_default {
            Some(d) => d.clone(),
            None => String::new(),
        },
    }
}

/// The class recorded for a capture's container: its first class, or
/// empty.
pub fn container_class(classes: &Vec<String>) -> (r: String)
    ensures
        r@ == if classes@.len() > 0 {
            classes@[0]@
        } else {
            seq![]
        },
{
    if classes.len() > 0 {
        classes[0].clone()
    } else {
        String::new()
    }
}

/// Where a product's provider-product row comes from.
#[derive(Debug, PartialEq)]
pub enum RowChoice {
    /// The existing row with this id (its name matches).
    Existing(String),
    /// The row created earlier in the same capture for the same name.
    Repeated(String),
    /// No row yet: one is to be created.
    Create,
}

/// The id of the last `(name, id)` entry among `rows[..k]` named `name`.
pub open spec fn last_named(rows: Seq<(Seq<char>, Seq<char>)>, name: Seq<char>, k: int) -> Option<Seq<char>>
    decreases k,
{
    if k <= 0 || k > rows.len() {
        None
    } else if rows[k - 1].0 == name {
        Some(rows[k - 1].1)
    } else {
        last_named(rows, name, k - 1)
    }
}

pub open spec fn rows_view(v: Seq<(String, String)>) -> Seq<(Seq<char>, Seq<char>)> {
    v.map_values(|p: (String, String)| (p.0@, p.1@))
}

/// The id of the last entry of `rows` named `name`.
fn last_id_named(rows: &Vec<(String, String)>, name: &String) -> (r: Option<String>)
    ensures
        opt_view(r) == last_named(rows_view(rows@), name@, rows@.len() as int),
{
    let ghost rv = rows_view(rows@);
    let mut found: Option<String> = None;
    for k in 0..rows.len()
        invariant
            rv == rows_view(rows@),
            opt_view(found) == last_named(rv, name@, k as int),
    {
        assert(rv[k as int] == (rows@[k as int].0@, rows@[k as int].1@));
        if rows[k].0 == *name {
            found = Some(rows[k].1.clone());
        }
    }
    found
}

/// Which provider-product row a product named `name` goes to: an existing
/// row of the provider with that name (the last listed one, as a map keyed
/// by name keeps), else the row created earlier in this capture for that
/// name, else a new row. `existing` and `created` are `(name, id)` pairs.
pub fn choose_row(existing: &Vec<(String, String)>, created: &Vec<(String, String)>, name: &String) -> (r: RowChoice)
    ensures
        match last_named(rows_view(existing@), name@, existing@.len() as int) {
            Some(id) => r matches RowChoice::Existing(x) && x@ == id,
            None => match last_named(rows_view(created@), name@, created@.len() as int) {
                Some(id) => r matches RowChoice::Repeated(x) && x@ == id,
                None => r matches RowChoice::Create,
            },
        },
{
    match last_id_named(existing, name) {
        Some(id) => RowChoice::Existing(id),
        None => match last_id_named(created, name) {
            Some(id) => RowChoice::Repeated(id),
            None => RowChoice::Create,
        },
    }
}

/// One image row to write: its position, URL, whether it is the primary
/// image (position 0), and the id of the existing row for that URL, if any
/// (then the row is updated rather than created).
#[derive(Debug, PartialEq)]
pub struct ImageWrite {
    pub position: usize,
    pub url: String,
    pub is_primary: bool,
    pub existing_id: Option<String>,
}

/// The id of the first `(id, url)` row among `rows[k..]` with URL `url`.
pub open spec fn first_with_url(rows: Seq<(Seq<char>, Seq<char>)>, url: Seq<char>, k: int) -> Option<Seq<char>>
    decreases rows.len() - k,
{
    if k < 0 || k >= rows.len() {
        None
    } else if rows[k].1 == url {
        Some(rows[k].0)
    } else {
        first_with_url(rows, url, k + 1)
    }
}

/// An image write as plain values.
pub open spec fn write_view(w: ImageWrite) -> (nat, Seq<char>, bool, Option<Seq<char>>) {
    (w.position as nat, w.url@, w.is_primary, opt_view(w.existing_id))
}

/// The image sync of a provider product: one write per image of the
/// capture, in order, each matched to the first existing `(id, url)` row
/// with its URL; and the ids of the existing rows whose URL is no longer
/// among the images, in order (to delete).
pub fn image_plan(existing: &Vec<(String, String)>, images: &Vec<String>) -> (r: (Vec<ImageWrite>, Vec<String>))
    ensures
        r.0@.len() == images@.len(),
        forall|k: int|
            0 <= k < images@.len() ==> write_view(#[trigger] r.0@[k]) == (k as nat, images@[k]@, k == 0, first_with_url(
                rows_view(existing@),
                images@[k]@,
                0,
            )),
        r.1@.map_values(|s: String| s@) == rows_view(existing@).filter(
            |row: (Seq<char>, Seq<char>)| !images@.map_values(|s: String| s@).contains(row.1),
        ).map_values(|row: (Seq<char>, Seq<char>)| row.0),
{
    let ghost rv = rows_view(existing@);
    let ghost iv = images@.map_values(|s: String| s@);
    let mut writes: Vec<ImageWrite> = Vec::new();
    for k in 0..images.len()
        invariant
            rv == rows_view(existing@),
            writes@.len() == k,
            forall|j: int|
                0 <= j < k ==> write_view(#[trigger] writes@[j]) == (j as nat, images@[j]@, j == 0, first_with_url(
                    rv,
                    images@[j]@,
                    0,
                )),
    {
        let url = &images[k];
        let mut m: usize = 0;
        while m < existing.len() && existing[m].1 != *url
            invariant
                rv == rows_view(existing@),
                m <= existing@.len(),
                first_with_url(rv, url@, 0) == first_with_url(rv, url@, m as int),
            decreases existing@.len() - m,
        {
            assert(rv[m as int] == (existing@[m as int].0@, existing@[m as int].1@));
            m = m + 1;
        }
        let found = if m < existing.len() {
            assert(rv[m as int] == (existing@[m as int].0@, existing@[m as int].1@));
            Some(existing[m].0.clone())
        } else {
            None
        };
        writes.push(ImageWrite { position: k, url: url.clone(), is_primary: k == 0, existing_id: found });
    }
    let ghost p = |row: (Seq<char>, Seq<char>)| !iv.contains(row.1);
    let mut stale: Vec<String> = Vec::new();
    for k in 0..existing.len()
        invariant
            rv == rows_view(existing@),
            iv == images@.map_values(|s: String| s@),
            p == (|row: (Seq<char>, Seq<char>)| !iv.contains(row.1)),
            stale@.map_values(|s: String| s@) == rv.take(k as int).filter(p).map_values(
                |row: (Seq<char>, Seq<char>)| row.0,
            ),
    {
        assert(rv[k as int] == (existing@[k as int].0@, existing@[k as int].1@));
        proof {
            assert(rv.take(k + 1) =~= rv.take(k as int).push(rv[k as int]));
            crate::text::lemma_filter_push(rv.take(k as int), rv[k as int], p);
        }
        let mut present = false;
        for j in 0..images.len()
            invariant
                iv == images@.map_values(|s: String| s@),
                k < existing@.len(),
                present == exists|i: int| 0 <= i < j && iv[i] == existing@[k as int].1@,
        {
            assert(iv[j as int] == images@[j as int]@);
            if images[j] == existing[k].1 {
                present = true;
            }
        }
        proof {
            if iv.contains(rv[k as int].1) {
                let i = choose|i: int| 0 <= i < iv.len() && iv[i] == rv[k as int].1;
                assert(exists|i: int| 0 <= i < images@.len() && iv[i] == existing@[k as int].1@);
            }
        }
        let ghost o = stale@.map_values(|s: String| s@);
        let ghost f = rv.take(k as int).filter(p);
        if !present {
            stale.push(existing[k].0.clone());
            assert(stale@.map_values(|s: String| s@) =~= o.push(rv[k as int].0));
            assert(f.push(rv[k as int]).map_values(|row: (Seq<char>, Seq<char>)| row.0) =~= f.map_values(
                |row: (Seq<char>, Seq<char>)| row.0,
            ).push(rv[k as int].0));
        }
    }
    assert(rv.take(existing.len() as int) =~= rv);
    (writes, stale)
}

/// What the store's answer to writing a comparison row means: a success
/// status is a created row; a 400 whose body reports
/// `validation_not_unique` is a pair already stored (unique index), which
/// is not a failure; any other answer is a failure (`None`).
pub fn match_insert_outcome(status: u16, body: &str) -> (r: Option<MatchInsert>)
    ensures
        200 <= status < 300 ==> r == Some(MatchInsert::Created),
        !(200 <= status < 300) && status == 400 && has_sub(body@, "validation_not_unique"@) ==> r == Some(
            MatchInsert::AlreadyExists,
        ),
        !(200 <= status < 300) && !(status == 400 && has_sub(body@, "validation_not_unique"@)) ==> r.is_none(),
{
    if 200 <= status && status < 300 {
        return Some(MatchInsert::Created);
    }
    if status == 400 && contains_str(&chars_of(body), "validation_not_unique") {
        return Some(MatchInsert::AlreadyExists);
    }
    None
}

/// The price-row write for one product of a capture.
#[derive(Debug, PartialEq)]
pub enum PriceWrite {
    /// Create a new price row.
    Create,
    /// Update the row with this id (the same scrape already has one).
    Update(String),
    /// Write nothing: the last recorded price and currency are unchanged.
    Skip,
}

/// Which price write records a product's price: a provider product created
/// by this capture (`is_new`) always gets a new row; otherwise the row the
/// same scrape already has (`same_scrape`, its id) is updated; otherwise
/// nothing is written when the last recorded price and currency are the
/// same as now (`last_unchanged` is `Some(true)`; `None` when there is no
/// recorded price), and a new row is created when they changed or none was
/// recorded. The lookups behind `same_scrape` and `last_unchanged` are only
/// needed where the earlier conditions do not decide.
pub fn price_write(is_new: bool, same_scrape: Option<String>, last_unchanged: Option<bool>) -> (r: PriceWrite)
    ensures
        is_new ==> r == PriceWrite::Create,
        !is_new && same_scrape is Some ==> r == PriceWrite::Update(same_scrape->0),
        !is_new && same_scrape is None && last_unchanged == Some(true) ==> r == PriceWrite::Skip,
        !is_new && same_scrape is None && last_unchanged != Some(true) ==> r == PriceWrite::Create,
{
    if is_new {
        return PriceWrite::Create;
    }
    match same_scrape {
        Some(id) => PriceWrite::Update(id),
        None => match last_unchanged {
            Some(true) => PriceWrite::Skip,
            _ => PriceWrite::Create,
        },
    }
}

} // verus!
