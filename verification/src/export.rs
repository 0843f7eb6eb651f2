//! The catalogue exports for spreadsheets: canonical products and brands
//! as CSV, sorted by name ignoring case, with a UTF-8 byte-order mark so
//! spreadsheet programs detect the encoding.

use vstd::prelude::*;

use crate::matching::{lex_less, lex_lt};
use crate::model::{BrandRow, ProductRow};
use crate::text::{chars_of, string_of};
use crate::unicode::{lowercase, to_lowercase};

verus! {

/// Why an export could not be produced.
#[derive(PartialEq, Eq, Structural, Debug, Clone, Copy)]
pub enum ExportError {
    /// The CSV writer failed or produced text that is not UTF-8.
    Encoding,
}

/// The CSV text that `csv::Writer` (default settings) produces for
/// `records`, or `None` when writing fails.
pub uninterp spec fn csv_encoding(records: Seq<Seq<Seq<char>>>) -> Option<Seq<char>>;

pub open spec fn records_view(r: Seq<Vec<String>>) -> Seq<Seq<Seq<char>>> {
    r.map_values(|row: Vec<String>| row@.map_values(|s: String| s@))
}

/// Trusted: writes every record with `csv::Writer::write_record` into a
/// byte buffer, then `into_inner` and `String::from_utf8`. The contract
/// only names the result, a function of `records` alone.
#[verifier::external_body]
fn encode_csv(records: &Vec<Vec<String>>) -> (r: Option<String>)
    ensures
        match r {
            Some(t) => csv_encoding(records_view(records@)) == Some(t@),
            None => csv_encoding(records_view(records@)).is_none(),
        },
{
    let mut writer = csv::Writer::from_writer(Vec::new());
    for record in records {
        if writer.write_record(record).is_err() {
            return None;
        }
    }
    writer.into_inner().ok().and_then(|bytes| String::from_utf8(bytes).ok())
}

/// Where the row with key `keys[x]` goes among the ordered rows `s`: after
/// every row whose key is not greater.
pub open spec fn key_pos(keys: Seq<Seq<char>>, s: Seq<int>, x: int) -> int
    decreases s.len(),
{
    if s.len() == 0 {
        0
    } else if lex_lt(keys[x], keys[s.last()]) {
        key_pos(keys, s.drop_last(), x)
    } else {
        s.len() as int
    }
}

/// The first `k` row indices ordered by their keys, rows with equal keys in
/// their given order (a stable sort).
pub open spec fn order_upto(keys: Seq<Seq<char>>, k: int) -> Seq<int>
    decreases k,
{
    if k <= 0 {
        seq![]
    } else {
        let t = order_upto(keys, k - 1);
        let j = key_pos(keys, t, k - 1);
        t.take(j) + seq![k - 1] + t.skip(j)
    }
}

/// All row indices ordered by their keys, stably.
pub open spec fn ordered(keys: Seq<Seq<char>>) -> Seq<int> {
    order_upto(keys, keys.len() as int)
}

pub proof fn lemma_key_pos_bounds(keys: Seq<Seq<char>>, s: Seq<int>, x: int)
    ensures
        0 <= key_pos(keys, s, x) <= s.len(),
    decreases s.len(),
{
    if s.len() > 0 && lex_lt(keys[x], keys[s.last()]) {
        lemma_key_pos_bounds(keys, s.drop_last(), x);
    }
}

pub proof fn lemma_order_in_range(keys: Seq<Seq<char>>, k: int)
    requires
        0 <= k <= keys.len(),
    ensures
        order_upto(keys, k).len() == k,
        forall|i: int| 0 <= i < k ==> 0 <= #[trigger] order_upto(keys, k)[i] < k,
    decreases k,
{
    if k > 0 {
        lemma_order_in_range(keys, k - 1);
        let t = order_upto(keys, k - 1);
        lemma_key_pos_bounds(keys, t, k - 1);
        let j = key_pos(keys, t, k - 1);
        let r = order_upto(keys, k);
        assert forall|i: int| 0 <= i < k implies 0 <= #[trigger] r[i] < k by {
            if i < j {
                assert(r[i] == t[i]);
            } else if i > j {
                assert(r[i] == t[i - 1]);
            }
        }
    }
}

/// The row indices of `keys` ordered by key, stably (see [`ordered`]).
pub(crate) fn order_by_keys(keys: &Vec<Vec<char>>) -> (r: Vec<usize>)
    ensures
        r@.map_values(|i: usize| i as int) == ordered(keys@.map_values(|k: Vec<char>| k@)),
        forall|i: int| 0 <= i < r@.len() ==> (#[trigger] r@[i]) < keys@.len(),
{
    let ghost kv = keys@.map_values(|k: Vec<char>| k@);
    let mut order: Vec<usize> = Vec::new();
    for i in 0..keys.len()
        invariant
            kv == keys@.map_values(|k: Vec<char>| k@),
            kv.len() == keys@.len(),
            order@.map_values(|x: usize| x as int) == order_upto(kv, i as int),
            forall|m: int| 0 <= m < order@.len() ==> (#[trigger] order@[m]) < i,
    {
        let ghost t = order@.map_values(|x: usize| x as int);
        proof {
            lemma_order_in_range(kv, i as int);
        }
        let mut j = order.len();
        assert(t.take(j as int) =~= t);
        while j > 0 && lex_less(keys[i].as_slice(), keys[order[j - 1]].as_slice())
            invariant
                j <= order@.len(),
                t == order@.map_values(|x: usize| x as int),
                kv == keys@.map_values(|k: Vec<char>| k@),
                i < kv.len(),
                forall|m: int| 0 <= m < order@.len() ==> (#[trigger] order@[m]) < i,
                key_pos(kv, t, i as int) == key_pos(kv, t.take(j as int), i as int),
            decreases j,
        {
            assert(t.take(j as int).drop_last() =~= t.take(j - 1));
            assert(t.take(j as int).last() == t[j - 1]);
            assert(kv[order@[j - 1] as int] == keys@[order@[j - 1] as int]@);
            j = j - 1;
        }
        proof {
            if j > 0 {
                assert(t.take(j as int).last() == t[j - 1]);
                assert(kv[order@[j - 1] as int] == keys@[order@[j - 1] as int]@);
            }
        }
        order.insert(j, i);
        assert(order@.map_values(|x: usize| x as int) =~= t.take(j as int) + seq![i as int] + t.skip(
            j as int,
        ));
    }
    order
}

/// The lower-cased names of `names` (`str::to_lowercase`), in order.
pub(crate) fn lowered(names: &Vec<&String>) -> (r: Vec<Vec<char>>)
    ensures
        r@.map_values(|k: Vec<char>| k@) == names@.map_values(|n: &String| lowercase(n@)),
{
    let mut out: Vec<Vec<char>> = Vec::new();
    for i in 0..names.len()
        invariant
            out@.map_values(|k: Vec<char>| k@) == names@.take(i as int).map_values(|n: &String| lowercase(n@)),
    {
        let l = chars_of(to_lowercase(names[i].as_str()).as_str());
        let ghost o = out@.map_values(|k: Vec<char>| k@);
        out.push(l);
        assert(names@.take(i + 1) =~= names@.take(i as int).push(names@[i as int]));
        assert(out@.map_values(|k: Vec<char>| k@) =~= o.push(lowercase(names@[i as int]@)));
    }
    assert(names@.take(names.len() as int) =~= names@);
    out
}

/// A record of three fields.
fn row3(a: String, b: String, c: String) -> (r: Vec<String>)
    ensures
        r@.map_values(|s: String| s@) == seq![a@, b@, c@],
{
    let mut r: Vec<String> = Vec::new();
    r.push(a);
    r.push(b);
    r.push(c);
    assert(r@.map_values(|s: String| s@) =~= seq![a@, b@, c@]);
    r
}

/// A record of one field.
fn row1(a: String) -> (r: Vec<String>)
    ensures
        r@.map_values(|s: String| s@) == seq![a@],
{
    let mut r: Vec<String> = Vec::new();
    r.push(a);
    assert(r@.map_values(|s: String| s@) =~= seq![a@]);
    r
}

/// A byte-order mark followed by `text`.
fn with_bom(text: String) -> (r: String)
    ensures
        r@ == seq!['\u{feff}'] + text@,
{
    let mut out: Vec<char> = Vec::new();
    out.push('\u{feff}');
    let cs = chars_of(text.as_str());
    for k in 0..cs.len()
        invariant
            out@ == seq!['\u{feff}'] + cs@.take(k as int),
    {
        out.push(cs[k]);
        assert(out@ =~= seq!['\u{feff}'] + cs@.take(k + 1));
    }
    assert(cs@.take(cs.len() as int) =~= cs@);
    string_of(&out)
}

/// The product records of the export: the header, then `(brand,
/// product_name, size)` per product in name order (ignoring case).
pub open spec fn product_records(products: Seq<ProductRow>) -> Seq<Seq<Seq<char>>> {
    let keys = products.map_values(|p: ProductRow| lowercase(p.name@));
    seq![seq!["brand"@, "product_name"@, "size"@]] + ordered(keys).map_values(
        |i: int| seq![products[i].brand@, products[i].product_name@, products[i].size@],
    )
}

/// The records of the product export (see [`product_records`]).
pub fn product_csv_records(products: &Vec<ProductRow>) -> (r: Vec<Vec<String>>)
    ensures
        records_view(r@) == product_records(products@),
{
    let mut names: Vec<&String> = Vec::new();
    for i in 0..products.len()
        invariant
            names@.len() == i,
            forall|m: int| 0 <= m < i ==> (#[trigger] names@[m])@ == products@[m].name@,
    {
        names.push(&products[i].name);
    }
    assert(names@.map_values(|n: &String| lowercase(n@)) =~= products@.map_values(|p: ProductRow| lowercase(p.name@)));
    let keys = lowered(&names);
    let order = order_by_keys(&keys);
    let ghost ov = order@.map_values(|i: usize| i as int);
    let ghost pr = product_records(products@);
    let ghost keys_v = products@.map_values(|p: ProductRow| lowercase(p.name@));
    let mut records: Vec<Vec<String>> = Vec::new();
    let header = row3("brand".to_string(), "product_name".to_string(), "size".to_string());
    records.push(header);
    assert(records_view(records@) =~= pr.take(1));
    for k in 0..order.len()
        invariant
            ov == order@.map_values(|i: usize| i as int),
            ov == ordered(keys_v),
            keys_v == products@.map_values(|p: ProductRow| lowercase(p.name@)),
            pr == product_records(products@),
            pr.len() == order@.len() + 1,
            forall|i: int| 0 <= i < order@.len() ==> (#[trigger] order@[i]) < products@.len(),
            records_view(records@) == pr.take(k + 1),
    {
        let p = &products[order[k]];
        let row = row3(p.brand.clone(), p.product_name.clone(), p.size.clone());
        let ghost o = records_view(records@);
        records.push(row);
        assert(ordered(keys_v)[k as int] == order@[k as int] as int);
        assert(pr[k + 1] == seq![p.brand@, p.product_name@, p.size@]);
        assert(records_view(records@) =~= o.push(pr[k + 1]));
        assert(pr.take(k + 2) =~= pr.take(k + 1).push(pr[k + 1]));
    }
    assert(pr.take(order.len() + 1) =~= pr);
    records
}

/// The CSV export of the canonical products: a byte-order mark, then the
/// CSV text of [`product_records`].
pub fn products_to_csv(products: &Vec<ProductRow>) -> (r: Result<String, ExportError>)
    ensures
        match r {
            Ok(t) => csv_encoding(product_records(products@)) matches Some(c) && t@ == seq!['\u{feff}'] + c,
            Err(_) => csv_encoding(product_records(products@)).is_none(),
        },
{
    let records = product_csv_records(products);
    match encode_csv(&records) {
        Some(t) => Ok(with_bom(t)),
        None => Err(ExportError::Encoding),
    }
}

/// The brand records of the export: the header, then each brand name in
/// name order (ignoring case).
pub open spec fn brand_records(brands: Seq<BrandRow>) -> Seq<Seq<Seq<char>>> {
    let keys = brands.map_values(|b: BrandRow| lowercase(b.name@));
    seq![seq!["brand"@]] + ordered(keys).map_values(|i: int| seq![brands[i].name@])
}

/// The records of the brand export (see [`brand_records`]).
pub fn brand_csv_records(brands: &Vec<BrandRow>) -> (r: Vec<Vec<String>>)
    ensures
        records_view(r@) == brand_records(brands@),
{
    let mut names: Vec<&String> = Vec::new();
    for i in 0..brands.len()
        invariant
            names@.len() == i,
            forall|m: int| 0 <= m < i ==> (#[trigger] names@[m])@ == brands@[m].name@,
    {
        names.push(&brands[i].name);
    }
    assert(names@.map_values(|n: &String| lowercase(n@)) =~= brands@.map_values(|b: BrandRow| lowercase(b.name@)));
    let keys = lowered(&names);
    let order = order_by_keys(&keys);
    let ghost ov = order@.map_values(|i: usize| i as int);
    let ghost br = brand_records(brands@);
    let ghost keys_v = brands@.map_values(|b: BrandRow| lowercase(b.name@));
    let mut records: Vec<Vec<String>> = Vec::new();
    let header = row1("brand".to_string());
    records.push(header);
    assert(records_view(records@) =~= br.take(1));
    for k in 0..order.len()
        invariant
            ov == order@.map_values(|i: usize| i as int),
            ov == ordered(keys_v),
            keys_v == brands@.map_values(|b: BrandRow| lowercase(b.name@)),
            br == brand_records(brands@),
            br.len() == order@.len() + 1,
            forall|i: int| 0 <= i < order@.len() ==> (#[trigger] order@[i]) < brands@.len(),
            records_view(records@) == br.take(k + 1),
    {
        let b = &brands[order[k]];
        let row = row1(b.name.clone());
        let ghost o = records_view(records@);
        records.push(row);
        assert(ordered(keys_v)[k as int] == order@[k as int] as int);
        assert(br[k + 1] == seq![b.name@]);
        assert(records_view(records@) =~= o.push(br[k + 1]));
        assert(br.take(k + 2) =~= br.take(k + 1).push(br[k + 1]));
    }
    assert(br.take(order.len() + 1) =~= br);
    records
}

/// The CSV export of the canonical brands: a byte-order mark, then the CSV
/// text of [`brand_records`].
pub fn brands_to_csv(brands: &Vec<BrandRow>) -> (r: Result<String, ExportError>)
    ensures
        match r {
            Ok(t) => csv_encoding(brand_records(brands@)) matches Some(c) && t@ == seq!['\u{feff}'] + c,
            Err(_) => csv_encoding(brand_records(brands@)).is_none(),
        },
{
    let records = brand_csv_records(brands);
    match encode_csv(&records) {
        Some(t) => Ok(with_bom(t)),
        None => Err(ExportError::Encoding),
    }
}

proof fn lemma_key_pos_sorted(keys: Seq<Seq<char>>, t: Seq<int>, x: int)
    requires
        forall|i: int| 0 <= i < t.len() ==> 0 <= #[trigger] t[i] < keys.len(),
        0 <= x < keys.len(),
        forall|i: int, j: int| 0 <= i < j < t.len() ==> !lex_lt(keys[#[trigger] t[j]], keys[#[trigger] t[i]]),
    ensures
        forall|i: int| 0 <= i < key_pos(keys, t, x) ==> !lex_lt(keys[x], keys[#[trigger] t[i]]),
        forall|i: int| key_pos(keys, t, x) <= i < t.len() ==> lex_lt(keys[x], keys[#[trigger] t[i]]),
    decreases t.len(),
{
    if t.len() > 0 {
        let u = t.drop_last();
        assert forall|i: int, j: int| 0 <= i < j < u.len() implies !lex_lt(keys[#[trigger] u[j]], keys[#[trigger] u[i]]) by {
            assert(u[i] == t[i] && u[j] == t[j]);
        }
        assert forall|i: int| 0 <= i < u.len() implies 0 <= #[trigger] u[i] < keys.len() by {
            assert(u[i] == t[i]);
        }
        lemma_key_pos_sorted(keys, u, x);
        lemma_key_pos_bounds(keys, u, x);
        let l = keys[t[t.len() - 1]];
        if lex_lt(keys[x], l) {
            assert forall|i: int| 0 <= i < key_pos(keys, t, x) implies !lex_lt(keys[x], keys[#[trigger] t[i]]) by {
                assert(u[i] == t[i]);
            }
            assert forall|i: int| key_pos(keys, t, x) <= i < t.len() implies lex_lt(keys[x], keys[#[trigger] t[i]]) by {
                if i < u.len() {
                    assert(u[i] == t[i]);
                }
            }
        } else {
            assert forall|i: int| 0 <= i < t.len() implies !lex_lt(keys[x], keys[#[trigger] t[i]]) by {
                if i < t.len() - 1 {
                    assert(!lex_lt(l, keys[t[i]]));
                    crate::matching::lemma_lex_total(keys[x], l);
                    if lex_lt(keys[x], keys[t[i]]) && lex_lt(l, keys[x]) {
                        crate::matching::lemma_lex_transitive(l, keys[x], keys[t[i]]);
                    }
                }
            }
        }
    }
}

/// Rows are exported sorted: the order lists every row exactly once, and
/// no row comes after a row with a greater key.
pub proof fn lemma_ordered_sorted(keys: Seq<Seq<char>>)
    ensures
        ordered(keys).len() == keys.len(),
        ordered(keys).no_duplicates(),
        forall|i: int| 0 <= i < keys.len() ==> 0 <= #[trigger] ordered(keys)[i] < keys.len(),
        forall|i: int, j: int|
            0 <= i < j < keys.len() ==> !lex_lt(keys[#[trigger] ordered(keys)[j]], keys[#[trigger] ordered(keys)[i]]),
{
    lemma_order_sorted(keys, keys.len() as int);
}

proof fn lemma_order_sorted(keys: Seq<Seq<char>>, k: int)
    requires
        0 <= k <= keys.len(),
    ensures
        order_upto(keys, k).len() == k,
        order_upto(keys, k).no_duplicates(),
        forall|i: int| 0 <= i < k ==> 0 <= #[trigger] order_upto(keys, k)[i] < k,
        forall|i: int, j: int|
            0 <= i < j < k ==> !lex_lt(keys[#[trigger] order_upto(keys, k)[j]], keys[#[trigger] order_upto(keys, k)[i]]),
    decreases k,
{
    lemma_order_in_range(keys, k);
    if k > 0 {
        lemma_order_sorted(keys, k - 1);
        let t = order_upto(keys, k - 1);
        let x = k - 1;
        lemma_key_pos_bounds(keys, t, x);
        lemma_key_pos_sorted(keys, t, x);
        let j = key_pos(keys, t, x);
        let r = order_upto(keys, k);
        assert(r =~= t.insert(j, x));
        assert forall|a: int, b: int| 0 <= a < r.len() && 0 <= b < r.len() && a != b implies r[a] != r[b] by {
            if a != j && b != j {
                let ta = if a < j { a } else { a - 1 };
                let tb = if b < j { b } else { b - 1 };
                assert(r[a] == t[ta] && r[b] == t[tb]);
            } else if a == j {
                let tb = if b < j { b } else { b - 1 };
                assert(r[b] == t[tb]);
            } else {
                let ta = if a < j { a } else { a - 1 };
                assert(r[a] == t[ta]);
            }
        }
        assert forall|a: int, b: int| 0 <= a < b < k implies !lex_lt(keys[#[trigger] r[b]], keys[#[trigger] r[a]]) by {
            if b < j {
                assert(r[a] == t[a] && r[b] == t[b]);
            } else if b == j {
                assert(r[a] == t[a] && r[b] == x);
            } else if a == j {
                assert(r[a] == x && r[b] == t[b - 1]);
                crate::matching::lemma_lex_asymmetric(keys[x], keys[t[b - 1]]);
            } else if a < j {
                assert(r[a] == t[a] && r[b] == t[b - 1]);
            } else {
                assert(r[a] == t[a - 1] && r[b] == t[b - 1]);
            }
        }
    }
}

} // verus!
