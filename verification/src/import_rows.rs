//! Reading the catalogue CSV files: which rows become canonical products or
//! brands, and the store filters that find an existing one.

use vstd::prelude::*;

use crate::export::records_view;
use crate::http::{escape_filter, escaped};
use crate::matching::{full_name, full_name_of};
use crate::text::{chars_of, lower_ascii_seq, string_of, to_ascii_lower, trim, trim_chars};

verus! {

/// Field `i` of a record, trimmed (empty when the record is shorter).
pub open spec fn field(record: Seq<Seq<char>>, i: int) -> Seq<char> {
    if 0 <= i < record.len() {
        trim(record[i])
    } else {
        seq![]
    }
}

/// A canonical product read from a `brand,name,size` CSV row.
#[derive(Debug, PartialEq)]
pub struct ProductImport {
    pub brand: String,
    pub product_name: String,
    pub size: String,
    /// The full display name (brand + product name + size).
    pub name: String,
}

/// Field `i` of `record`, trimmed.
fn field_of(record: &Vec<String>, i: usize) -> (r: String)
    ensures
        r@ == field(record@.map_values(|s: String| s@), i as int),
{
    if i < record.len() {
        string_of(&trim_chars(&chars_of(record[i].as_str())))
    } else {
        String::new()
    }
}

/// The product a CSV row imports: its trimmed brand, product name and size,
/// with the full name; `None` (the row is skipped) when the product name is
/// empty.
pub fn product_import_row(record: &Vec<String>) -> (r: Option<ProductImport>)
    ensures
        ({
            let rv = record@.map_values(|s: String| s@);
            match r {
                Some(p) => field(rv, 1).len() > 0 && p.brand@ == field(rv, 0) && p.product_name@ == field(rv, 1)
                    && p.size@ == field(rv, 2) && p.name@ == full_name_of(field(rv, 0), field(rv, 1), field(rv, 2)),
                None => field(rv, 1).len() == 0,
            }
        }),
{
    let brand = field_of(record, 0);
    let product_name = field_of(record, 1);
    let size = field_of(record, 2);
    if product_name.as_str().is_empty() {
        return None;
    }
    let name = full_name(brand.as_str(), product_name.as_str(), size.as_str());
    Some(ProductImport { brand, product_name, size, name })
}

/// The brand a single-column CSV row imports: its trimmed value, unless it
/// is empty or the `brand` header (ASCII case ignored).
pub fn brand_import_row(record: &Vec<String>) -> (r: Option<String>)
    ensures
        ({
            let f = field(record@.map_values(|s: String| s@), 0);
            match r {
                Some(n) => n@ == f && f.len() > 0 && lower_ascii_seq(f) != "brand"@,
                None => f.len() == 0 || lower_ascii_seq(f) == "brand"@,
            }
        }),
{
    let name = field_of(record, 0);
    let cs = chars_of(name.as_str());
    if cs.len() == 0 {
        return None;
    }
    let mut l: Vec<char> = Vec::new();
    for k in 0..cs.len()
        invariant
            l@ == lower_ascii_seq(cs@.take(k as int)),
    {
        l.push(to_ascii_lower(cs[k]));
        assert(l@ =~= lower_ascii_seq(cs@.take(k + 1)));
    }
    assert(cs@.take(cs.len() as int) =~= cs@);
    if crate::names::vec_eq(&l, &chars_of("brand")) {
        return None;
    }
    Some(name)
}

/// Appends the characters of `s`.
fn push_str(out: &mut Vec<char>, s: &str)
    ensures
        final(out)@ == old(out)@ + s@,
{
    let cs = chars_of(s);
    let ghost o = out@;
    for k in 0..cs.len()
        invariant
            out@ == o + cs@.take(k as int),
    {
        out.push(cs[k]);
        assert(out@ =~= o + cs@.take(k + 1));
    }
    assert(cs@.take(cs.len() as int) =~= cs@);
}

/// The store filter that finds the canonical product
/// `(brand, product_name, size)`.
pub fn product_filter(brand: &str, product_name: &str, size: &str) -> (r: String)
    ensures
        r@ == "brand='"@ + escaped(brand@) + "' && product_name='"@ + escaped(product_name@) + "' && size='"@
            + escaped(size@) + "'"@,
{
    let mut out: Vec<char> = Vec::new();
    push_str(&mut out, "brand='");
    push_str(&mut out, escape_filter(brand).as_str());
    push_str(&mut out, "' && product_name='");
    push_str(&mut out, escape_filter(product_name).as_str());
    push_str(&mut out, "' && size='");
    push_str(&mut out, escape_filter(size).as_str());
    push_str(&mut out, "'");
    string_of(&out)
}

/// The store filter that finds the brand `name`.
pub fn brand_filter(name: &str) -> (r: String)
    ensures
        r@ == "name='"@ + escaped(name@) + "'"@,
{
    let mut out: Vec<char> = Vec::new();
    push_str(&mut out, "name='");
    push_str(&mut out, escape_filter(name).as_str());
    push_str(&mut out, "'");
    string_of(&out)
}

/// The records that `csv::Reader::from_reader` reads from `bytes` (its
/// defaults: the first row is a header and is not a record; every record
/// has as many fields as the first row), up to the first record it cannot
/// read, and whether it met such a record.
pub uninterp spec fn csv_records(bytes: Seq<u8>) -> (Seq<Seq<Seq<char>>>, bool);

/// Trusted: `csv::Reader::from_reader` over `bytes`, then `records()`, each
/// record's fields as strings, stopping at the first `Err`. The contract
/// only names the result, a function of `bytes` alone.
#[verifier::external_body]
fn read_csv(bytes: &[u8]) -> (r: (Vec<Vec<String>>, bool))
    ensures
        (records_view(r.0@), r.1) == csv_records(bytes@),
{
    let mut reader = csv::Reader::from_reader(bytes);
    let mut records: Vec<Vec<String>> = Vec::new();
    for result in reader.records() {
        match result {
            Ok(record) => records.push(record.iter().map(String::from).collect()),
            Err(_) => return (records, true),
        }
    }
    (records, false)
}

/// The product a record imports (see [`product_import_row`]): trimmed
/// brand, product name and size, and the full name; `None` when the product
/// name is empty.
pub open spec fn product_import_of(rv: Seq<Seq<char>>) -> Option<(Seq<char>, Seq<char>, Seq<char>, Seq<char>)> {
    if field(rv, 1).len() > 0 {
        Some((field(rv, 0), field(rv, 1), field(rv, 2), full_name_of(field(rv, 0), field(rv, 1), field(rv, 2))))
    } else {
        None
    }
}

/// An imported product as plain values.
pub open spec fn import_view(p: Option<ProductImport>) -> Option<(Seq<char>, Seq<char>, Seq<char>, Seq<char>)> {
    match p {
        Some(x) => Some((x.brand@, x.product_name@, x.size@, x.name@)),
        None => None,
    }
}

/// The brand a record imports (see [`brand_import_row`]): its trimmed first
/// field, unless empty or the `brand` header.
pub open spec fn brand_import_of(rv: Seq<Seq<char>>) -> Option<Seq<char>> {
    if field(rv, 0).len() > 0 && lower_ascii_seq(field(rv, 0)) != "brand"@ {
        Some(field(rv, 0))
    } else {
        None
    }
}

/// The products a `brand,name,size` CSV file imports: one entry per record
/// read (see [`csv_records`]), `None` for a record that is skipped, and
/// whether reading stopped at a record that could not be read (the records
/// before it are still imported).
pub fn product_imports(bytes: &[u8]) -> (r: (Vec<Option<ProductImport>>, bool))
    ensures
        r.1 == csv_records(bytes@).1,
        r.0@.len() == csv_records(bytes@).0.len(),
        forall|i: int|
            0 <= i < r.0@.len() ==> import_view(#[trigger] r.0@[i]) == product_import_of(csv_records(bytes@).0[i]),
{
    let (records, failed) = read_csv(bytes);
    let ghost rv = records_view(records@);
    let mut out: Vec<Option<ProductImport>> = Vec::new();
    for k in 0..records.len()
        invariant
            rv == records_view(records@),
            out@.len() == k,
            forall|i: int| 0 <= i < k ==> import_view(#[trigger] out@[i]) == product_import_of(rv[i]),
    {
        let row = product_import_row(&records[k]);
        assert(records@[k as int]@.map_values(|s: String| s@) == rv[k as int]);
        out.push(row);
    }
    (out, failed)
}

/// The brands a single-column CSV file imports: one entry per record read
/// (see [`csv_records`]), `None` for a record that is skipped, and whether
/// reading stopped at a record that could not be read.
pub fn brand_imports(bytes: &[u8]) -> (r: (Vec<Option<String>>, bool))
    ensures
        r.1 == csv_records(bytes@).1,
        r.0@.len() == csv_records(bytes@).0.len(),
        forall|i: int|
            0 <= i < r.0@.len() ==> crate::model::opt_view(#[trigger] r.0@[i]) == brand_import_of(
                csv_records(bytes@).0[i],
            ),
{
    let (records, failed) = read_csv(bytes);
    let ghost rv = records_view(records@);
    let mut out: Vec<Option<String>> = Vec::new();
    for k in 0..records.len()
        invariant
            rv == records_view(records@),
            out@.len() == k,
            forall|i: int| 0 <= i < k ==> crate::model::opt_view(#[trigger] out@[i]) == brand_import_of(rv[i]),
    {
        let row = brand_import_row(&records[k]);
        assert(records@[k as int]@.map_values(|s: String| s@) == rv[k as int]);
        out.push(row);
    }
    (out, failed)
}

} // verus!
