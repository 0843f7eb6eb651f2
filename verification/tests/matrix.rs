use price_hunter::matrix::matrix_plan;
use price_hunter::model::{ProductRow, ProviderProductRow, ProviderRow};

fn product(id: &str, name: &str) -> ProductRow {
    ProductRow {
        id: id.to_string(),
        name: name.to_string(),
        brand: String::new(),
        product_name: String::new(),
        size: String::new(),
    }
}

fn listing(id: &str, provider: &str, product: Option<&str>) -> ProviderProductRow {
    ProviderProductRow {
        id: id.to_string(),
        provider_id: provider.to_string(),
        name: String::new(),
        product_id: product.map(str::to_string),
        brand_id: None,
    }
}

fn provider(id: &str, domain: &str) -> ProviderRow {
    ProviderRow {
        id: id.to_string(),
        domain: domain.to_string(),
        name: id.to_string(),
        enabled: true,
        default_currency: None,
    }
}

#[test]
fn matrix_rows_need_two_providers_and_follow_names() {
    let products = vec![
        product("p1", "zeta EDP"),
        product("p2", "Alfa EDT"),
        product("p3", "beta EDP"),
        product("p4", "Gamma"),
    ];
    let listings = vec![
        // p1 at two providers
        listing("l1", "a", Some("p1")),
        listing("l2", "b", Some("p1")),
        // p2 twice at one provider only
        listing("l3", "a", Some("p2")),
        listing("l4", "a", Some("p2")),
        // p3 at two providers, one listing unpriced, plus a second at `a`
        listing("l5", "a", Some("p3")),
        listing("l6", "b", Some("p3")),
        listing("l7", "a", Some("p3")),
        // p4: the second provider's listing has no price
        listing("l8", "a", Some("p4")),
        listing("l9", "c", Some("p4")),
        listing("l10", "b", None),
    ];
    let priced = vec![true, true, true, true, true, true, true, true, false, true];
    let providers = vec![provider("b", "b.com"), provider("c", "a.com"), provider("a", "c.com")];
    let plan = matrix_plan(&products, &listings, &priced, &providers);
    assert_eq!(plan.providers, vec![1, 0, 2]);
    let rows: Vec<(usize, Vec<usize>)> = plan.rows.iter().map(|r| (r.product, r.listings.clone())).collect();
    assert_eq!(rows, vec![(2, vec![4, 5, 6]), (0, vec![0, 1])]);
}

#[test]
fn matrix_rows_keep_catalogue_order_for_equal_names() {
    let products = vec![product("p1", "Same"), product("p2", "same")];
    let listings = vec![
        listing("l1", "a", Some("p2")),
        listing("l2", "b", Some("p2")),
        listing("l3", "a", Some("p1")),
        listing("l4", "b", Some("p1")),
    ];
    let priced = vec![true; 4];
    let plan = matrix_plan(&products, &listings, &priced, &Vec::new());
    assert!(plan.providers.is_empty());
    let rows: Vec<(usize, Vec<usize>)> = plan.rows.iter().map(|r| (r.product, r.listings.clone())).collect();
    assert_eq!(rows, vec![(0, vec![2, 3]), (1, vec![0, 1])]);
}
