//! The records the use cases read and write: canonical products, provider
//! products, providers and brands, and the outcomes of inserts.

use vstd::prelude::*;

verus! {

/// An optional string as an optional character sequence.
pub open spec fn opt_view(o: Option<String>) -> Option<Seq<char>> {
    match o {
        Some(s) => Some(s@),
        None => None,
    }
}

/// A canonical product used by the fuzzy matcher. `name` already holds the
/// full display name (brand + product_name + size); `brand` is the
/// canonical brand.
pub struct ProductRow {
    /// The record id.
    pub id: String,
    /// The full display name (brand + product_name + size).
    pub name: String,
    /// The canonical brand name.
    pub brand: String,
    /// The raw product name without brand and size.
    pub product_name: String,
    /// The size (e.g. `100 ml`).
    pub size: String,
}

/// A canonical product as plain values.
pub struct ProductView {
    pub id: Seq<char>,
    pub name: Seq<char>,
    pub brand: Seq<char>,
    pub product_name: Seq<char>,
    pub size: Seq<char>,
}

impl View for ProductRow {
    type V = ProductView;

    open spec fn view(&self) -> ProductView {
        ProductView {
            id: self.id@,
            name: self.name@,
            brand: self.brand@,
            product_name: self.product_name@,
            size: self.size@,
        }
    }
}

/// A provider product scraped from a store.
pub struct ProviderProductRow {
    /// The record id.
    pub id: String,
    /// The provider (`providers`) record id.
    pub provider_id: String,
    /// The scraped product name.
    pub name: String,
    /// The linked canonical product id, when set.
    pub product_id: Option<String>,
    /// The assigned brand id, when set.
    pub brand_id: Option<String>,
}

/// A provider product as plain values.
pub struct ProviderProductView {
    pub id: Seq<char>,
    pub provider_id: Seq<char>,
    pub name: Seq<char>,
    pub product_id: Option<Seq<char>>,
    pub brand_id: Option<Seq<char>>,
}

impl View for ProviderProductRow {
    type V = ProviderProductView;

    open spec fn view(&self) -> ProviderProductView {
        ProviderProductView {
            id: self.id@,
            provider_id: self.provider_id@,
            name: self.name@,
            product_id: opt_view(self.product_id),
            brand_id: opt_view(self.brand_id),
        }
    }
}

/// A copy of an optional string.
pub fn copy_opt(o: &Option<String>) -> (r: Option<String>)
    ensures
        opt_view(r) == opt_view(*o),
{
    match o {
        Some(s) => Some(s.clone()),
        None => None,
    }
}

impl ProviderProductRow {
    /// A copy of this row.
    pub fn duplicate(&self) -> (r: ProviderProductRow)
        ensures
            r@ == self@,
    {
        ProviderProductRow {
            id: self.id.clone(),
            provider_id: self.provider_id.clone(),
            name: self.name.clone(),
            product_id: copy_opt(&self.product_id),
            brand_id: copy_opt(&self.brand_id),
        }
    }
}

/// A provider (store) known to the system.
pub struct ProviderRow {
    /// The record id.
    pub id: String,
    /// The provider's hostname.
    pub domain: String,
    /// The provider's display name.
    pub name: String,
    /// Whether the provider is active.
    pub enabled: bool,
    /// The provider's default currency code, when known.
    pub default_currency: Option<String>,
}

/// A canonical brand.
pub struct BrandRow {
    /// The record id.
    pub id: String,
    /// The brand name.
    pub name: String,
}

/// Outcome of writing one comparison row.
#[derive(PartialEq, Eq, Structural, Debug, Clone, Copy)]
pub enum MatchInsert {
    /// The row was created.
    Created,
    /// The pair already exists (unique index), so it counts as already
    /// computed.
    AlreadyExists,
}

/// Outcome of inserting one canonical product.
#[derive(PartialEq, Eq, Structural, Debug, Clone, Copy)]
pub enum ProductInsert {
    /// The product was created.
    Created,
    /// A product with the same `(brand, product_name, size)` already exists
    /// (unique index), so the insert was skipped.
    AlreadyExists,
}

/// One provider column in the product × provider matrix.
pub struct MatrixProvider {
    /// The provider record id.
    pub id: String,
    /// The provider's hostname.
    pub domain: String,
    /// The provider's display name.
    pub name: String,
}

/// Errors surfaced by the persistence layer.
pub enum PriceStoreError {
    /// A store request failed (HTTP, transport, parse or auth).
    Request(String),
}

impl PriceStoreError {
    /// The error's message, as `Display` renders it:
    /// `store request failed: <detail>`.
    pub fn message(&self) -> (r: String)
        ensures
            match self {
                PriceStoreError::Request(d) => r@ == "store request failed: "@ + d@,
            },
    {
        match self {
            PriceStoreError::Request(d) => {
                let mut s = String::from_str("store request failed: ");
                s.append(d.as_str());
                s
            },
        }
    }
}

} // verus!
