//! What the use cases need from persistence: the catalogs of canonical
//! products, brands and providers. The use cases in this crate take the
//! loaded rows as arguments and return the writes to make; a store that
//! implements these traits loads and writes them.

use vstd::prelude::*;

use crate::model::{BrandRow, PriceStoreError, ProductInsert, ProductRow, ProviderProductRow, ProviderRow};

verus! {

/// Catalog of canonical products.
pub trait ProductCatalog {
    /// Lists every canonical product with `active = true`.
    fn list_products(&self) -> Result<Vec<ProductRow>, PriceStoreError>;

    /// Lists every canonical product (no `active` filter: the matrix
    /// includes retired products that still have listings).
    fn list_all_products(&self) -> Result<Vec<ProductRow>, PriceStoreError>;

    /// Inserts one canonical product, reporting `AlreadyExists` when a
    /// product with the same `(brand, product_name, size)` is present.
    fn create_product(&self, brand: &str, product_name: &str, name: &str, size: &str) -> Result<
        ProductInsert,
        PriceStoreError,
    >;
}

/// Catalog of brands.
pub trait BrandCatalog {
    /// Lists every brand (id and name).
    fn list_brands(&self) -> Result<Vec<BrandRow>, PriceStoreError>;
}

/// Catalog of providers and their scraped products.
pub trait ProviderCatalog {
    /// Lists every provider.
    fn list_providers(&self) -> Result<Vec<ProviderRow>, PriceStoreError>;

    /// Lists every provider product.
    fn list_provider_products(&self) -> Result<Vec<ProviderProductRow>, PriceStoreError>;

    /// Writes `brand_id` on a provider product.
    fn update_brand_link(&self, provider_product_id: &str, brand_id: Option<&str>) -> Result<
        (),
        PriceStoreError,
    >;

    /// Deletes a provider product and its related rows (prices, images and
    /// match candidates).
    fn delete_provider_product(&self, provider_product_id: &str) -> Result<(), PriceStoreError>;
}

} // verus!
