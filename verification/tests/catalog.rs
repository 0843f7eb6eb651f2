use price_hunter::capture::{capture_dir, capture_file};
use price_hunter::config::Config;
use price_hunter::delta::{product_delta, SeenProducts};
use price_hunter::detect::{Container, Detection, Product};
use price_hunter::export::{brand_csv_records, brands_to_csv, product_csv_records, products_to_csv};
use price_hunter::import_rows::{
    brand_filter, brand_import_row, brand_imports, product_filter, product_import_row, product_imports, ProductImport,
};
use price_hunter::instance::{is_pricehunter, parse_pid, InstanceGuard};
use price_hunter::brands::{match_brands, unbranded_products};
use price_hunter::imports::propose_unmatched;
use price_hunter::model::{BrandRow, ProductRow, ProviderProductRow};
use price_hunter::model::MatchInsert;
use price_hunter::persist::{
    choose_row, container_class, image_plan, match_insert_outcome, price_currency, price_write, ImageWrite, PriceWrite,
    RowChoice,
};

fn from_toml(text: &str) -> Config {
    let table: toml::Table = toml::from_str(text).unwrap();
    let section = table.get("pocketbase").and_then(|v| v.as_table()).cloned();
    let get = |k: &str| {
        section
            .as_ref()
            .and_then(|t| t.get(k))
            .and_then(|v| v.as_str())
            .map(str::to_string)
    };
    Config::from_fields(get("url"), get("email"), get("password"))
}

#[test]
fn parses_pocketbase_section() {
    let config = from_toml("[pocketbase]\nurl = \"http://pb:8090\"\nemail = \"a@b.c\"\npassword = \"s3cret\"\n");
    assert_eq!(config.pocketbase.url, "http://pb:8090");
    assert_eq!(config.pocketbase.email, "a@b.c");
    assert_eq!(config.password(), Some("s3cret"));
}

#[test]
fn missing_keys_fall_back_to_defaults() {
    let config = from_toml("");
    assert_eq!(config.pocketbase.url, "http://127.0.0.1:8090");
    assert_eq!(config.pocketbase.email, "admin@pricehunter.local");
    assert_eq!(config.password(), None);
}

#[test]
fn empty_password_is_treated_as_unset() {
    let config = from_toml("[pocketbase]\npassword = \"\"\n");
    assert_eq!(config.password(), None);
}

#[test]
fn env_vars_override_file_values() {
    let config = from_toml("[pocketbase]\nurl = \"http://pb:8090\"\nemail = \"a@b.c\"\npassword = \"file\"\n")
        .with_overrides(Some("http://env:8091".to_string()), None, Some("env-pass".to_string()));
    assert_eq!(config.pocketbase.url, "http://env:8091");
    assert_eq!(config.pocketbase.email, "a@b.c");
    assert_eq!(config.password(), Some("env-pass"));
}

#[test]
fn brands_to_csv_writes_single_brand_column_sorted() {
    let brands = vec![
        BrandRow { id: "b2".to_string(), name: "zeta".to_string() },
        BrandRow { id: "b1".to_string(), name: "Alfa".to_string() },
    ];
    let csv = brands_to_csv(&brands).unwrap();
    assert!(csv.starts_with('\u{feff}'));
    let body = csv.trim_start_matches('\u{feff}');
    assert_eq!(body, "brand\nAlfa\nzeta\n");
}

#[test]
fn products_to_csv_writes_brand_product_name_and_size_sorted() {
    let products = vec![
        ProductRow {
            id: "p2".to_string(),
            name: "Zeta EDP 100 ml".to_string(),
            brand: "zeta".to_string(),
            product_name: "EDP 100".to_string(),
            size: "100 ml".to_string(),
        },
        ProductRow {
            id: "p1".to_string(),
            name: "Alfa EDP 50 ml".to_string(),
            brand: "alfa".to_string(),
            product_name: "EDP 50".to_string(),
            size: "50 ml".to_string(),
        },
    ];
    let csv = products_to_csv(&products).unwrap();
    assert!(csv.starts_with('\u{feff}'));
    let body = csv.trim_start_matches('\u{feff}');
    assert_eq!(body, "brand,product_name,size\nalfa,EDP 50,50 ml\nzeta,EDP 100,100 ml\n");
}

#[test]
fn csv_export_keeps_equal_names_in_order_and_quotes_commas() {
    let brands = vec![
        BrandRow { id: "1".to_string(), name: "b, c".to_string() },
        BrandRow { id: "2".to_string(), name: "A".to_string() },
        BrandRow { id: "3".to_string(), name: "a".to_string() },
    ];
    let csv = brands_to_csv(&brands).unwrap();
    assert_eq!(csv, "\u{feff}brand\nA\na\n\"b, c\"\n");
}

#[test]
fn uses_host_as_subfolder() {
    assert_eq!(
        capture_dir("captures", "https://perfumeriasfabilu.com.ar/categoria/perfumeria/"),
        "captures/perfumeriasfabilu.com.ar"
    );
}

#[test]
fn falls_back_to_base_dir_without_valid_host() {
    assert_eq!(capture_dir("captures", "not a url"), "captures");
    assert_eq!(capture_dir("captures", ""), "captures");
}

#[test]
fn capture_file_is_timestamped_inside_the_host_folder() {
    assert_eq!(
        capture_file("captures", "https://a.com/x", 123),
        "captures/a.com/capture-123.json"
    );
    assert_eq!(capture_file("out/", "nope", 7), "out/capture-7.json");
}

fn product(name: &str, price: &str, images: &[&str]) -> Product {
    Product {
        name: name.to_string(),
        price_text: price.to_string(),
        price: price.replace('.', ""),
        images: images.iter().map(|s| s.to_string()).collect(),
        ..Product::default()
    }
}

#[test]
fn tests_sample_detection_builds_one_capture_and_two_products() {
    let detection = Detection {
        container: Container {
            classes: vec!["products".to_string(), "row".to_string()],
            id: Some("grid-1".to_string()),
            child_count: 2,
        },
        products: vec![
            Product {
                name: "Light Blue Homme EDP 50".to_string(),
                price_text: "242.100".to_string(),
                price: "242100".to_string(),
                ..Product::default()
            },
            Product {
                name: "212 Vip EDP 80".to_string(),
                price_text: "278.100".to_string(),
                price: "278100".to_string(),
                ..Product::default()
            },
        ],
    };
    assert_eq!(detection.products.len(), 2);
    assert_eq!(detection.container.child_count, 2);
}

#[test]
fn store_sample_detection_builds_one_capture_and_two_products() {
    let detection = Detection {
        container: Container {
            classes: vec!["products".to_string(), "row".to_string()],
            id: Some("grid-1".to_string()),
            child_count: 2,
        },
        products: vec![
            Product {
                name: "Light Blue Homme EDP 50".to_string(),
                price_text: "242.100".to_string(),
                price: "242100".to_string(),
                ..Product::default()
            },
            Product {
                name: "212 Vip EDP 80".to_string(),
                price_text: "278.100".to_string(),
                price: "278100".to_string(),
                ..Product::default()
            },
        ],
    };
    assert_eq!(detection.products.len(), 2);
    assert_eq!(detection.container.child_count, 2);
}

#[test]
fn delta_key_ignores_image_order() {
    let a = product("A", "1.000", &["x.jpg", "a.jpg"]);
    let b = product("A", "1.000", &["a.jpg", "x.jpg"]);
    assert_eq!(a.delta_key(), b.delta_key());
    assert_eq!(a.delta_key(), "A|1.000|1000||a.jpg,x.jpg|");
    let c = product("A", "1.001", &["a.jpg", "x.jpg"]);
    assert_ne!(a.delta_key(), c.delta_key());
}

#[test]
fn product_delta_returns_each_product_once() {
    let mut seen = SeenProducts::new();
    let first = vec![product("A", "1.000", &[]), product("B", "2.000", &[]), product("A", "1.000", &[])];
    let delta = product_delta(&first, &mut seen);
    assert_eq!(delta.iter().map(|p| p.name.as_str()).collect::<Vec<_>>(), vec!["A", "B"]);
    let second = vec![product("B", "2.000", &[]), product("C", "3.000", &[])];
    let delta = product_delta(&second, &mut seen);
    assert_eq!(delta.iter().map(|p| p.name.as_str()).collect::<Vec<_>>(), vec!["C"]);
    seen.remove(&product("B", "2.000", &[]).delta_key());
    assert!(!seen.contains(&product("B", "2.000", &[]).delta_key()));
    assert!(seen.contains(&product("A", "1.000", &[]).delta_key()));
}

#[test]
fn lock_file_contents_are_read_and_owned() {
    assert_eq!(parse_pid(" 4242\n"), Some(4242));
    assert_eq!(parse_pid("abc"), None);
    assert_eq!(parse_pid(""), None);
    let guard = InstanceGuard::new("/tmp/x.pid".to_string(), 4242);
    assert_eq!(guard.pid(), 4242);
    assert_eq!(guard.path(), "/tmp/x.pid");
    assert!(guard.owns("4242\n"));
    assert!(!guard.owns("4243\n"));
}

#[test]
fn program_names_are_recognized() {
    assert!(is_pricehunter("pricehunter"));
    assert!(is_pricehunter("target/debug/price_hunter"));
    assert!(is_pricehunter("/usr/bin/pricehunter"));
    assert!(!is_pricehunter("bash"));
}

#[test]
fn store_rows_and_currency_are_chosen() {
    let existing = vec![("A".to_string(), "1".to_string()), ("A".to_string(), "2".to_string())];
    let created = vec![("B".to_string(), "9".to_string())];
    assert_eq!(choose_row(&existing, &created, &"A".to_string()), RowChoice::Existing("2".to_string()));
    assert_eq!(choose_row(&existing, &created, &"B".to_string()), RowChoice::Repeated("9".to_string()));
    assert_eq!(choose_row(&existing, &created, &"C".to_string()), RowChoice::Create);
    assert_eq!(price_currency(&None, &Some("ARS".to_string())), "ARS");
    assert_eq!(price_currency(&Some("USD".to_string()), &Some("ARS".to_string())), "USD");
    assert_eq!(price_currency(&None, &None), "");
    assert_eq!(container_class(&vec!["grid".to_string(), "x".to_string()]), "grid");
    assert_eq!(container_class(&vec![]), "");
}

#[test]
fn image_plan_updates_known_urls_and_drops_stale_rows() {
    let existing = vec![("r1".to_string(), "a.jpg".to_string()), ("r2".to_string(), "old.jpg".to_string())];
    let images = vec!["b.jpg".to_string(), "a.jpg".to_string()];
    let (writes, stale) = image_plan(&existing, &images);
    assert_eq!(
        writes,
        vec![
            ImageWrite { position: 0, url: "b.jpg".to_string(), is_primary: true, existing_id: None },
            ImageWrite { position: 1, url: "a.jpg".to_string(), is_primary: false, existing_id: Some("r1".to_string()) },
        ]
    );
    assert_eq!(stale, vec!["r2".to_string()]);
}

#[test]
fn csv_rows_become_products_and_brands() {
    let row = vec![" Dior ".to_string(), " Sauvage ".to_string(), "100 ml".to_string()];
    let p = product_import_row(&row).expect("row has a name");
    assert_eq!(p.brand, "Dior");
    assert_eq!(p.product_name, "Sauvage");
    assert_eq!(p.name, "Dior Sauvage 100 ml");
    assert!(product_import_row(&vec!["Dior".to_string(), "  ".to_string()]).is_none());
    assert_eq!(brand_import_row(&vec![" Chanel ".to_string()]).as_deref(), Some("Chanel"));
    assert!(brand_import_row(&vec!["BRAND".to_string()]).is_none());
    assert!(brand_import_row(&vec![]).is_none());
    assert_eq!(brand_filter("d'Issey"), "name='d\\'Issey'");
    assert_eq!(product_filter("a", "b", "c"), "brand='a' && product_name='b' && size='c'");
}

#[test]
fn product_delta_again_returns_nothing() {
    let mut seen = SeenProducts::new();
    let batch = vec![product("A", "1.000", &["a.jpg"]), product("B", "2.000", &[])];
    assert_eq!(product_delta(&batch, &mut seen).len(), 2);
    assert!(product_delta(&batch, &mut seen).is_empty());
    assert!(seen.contains(&batch[0].delta_key()));
    assert!(seen.contains(&batch[1].delta_key()));
}

#[test]
fn failed_batch_is_new_again_after_rollback() {
    let mut seen = SeenProducts::new();
    let old = vec![product("A", "1.000", &[])];
    product_delta(&old, &mut seen);
    let batch = vec![product("A", "1.000", &[]), product("B", "2.000", &[]), product("C", "3.000", &[])];
    let delta = product_delta(&batch, &mut seen);
    assert_eq!(delta.iter().map(|p| p.name.as_str()).collect::<Vec<_>>(), vec!["B", "C"]);
    for p in &delta {
        seen.remove(&p.delta_key());
    }
    assert!(seen.contains(&old[0].delta_key()));
    assert!(!seen.contains(&batch[1].delta_key()));
    let again = product_delta(&batch, &mut seen);
    assert_eq!(again.iter().map(|p| p.name.as_str()).collect::<Vec<_>>(), vec!["B", "C"]);
}

#[test]
fn unmatched_proposals_are_new_and_distinct() {
    let pp = |id: &str, name: &str, product_id: Option<&str>| ProviderProductRow {
        id: id.to_string(),
        provider_id: "x".to_string(),
        name: name.to_string(),
        product_id: product_id.map(str::to_string),
        brand_id: None,
    };
    let provider_products = vec![
        pp("p1", "Dior Sauvage EDT 100ml", None),
        pp("p2", "DIOR Sauvage EDT 100 ml", None),
        pp("p3", "Dior Homme 50", Some("prod1")),
        pp("p4", "Dior Fahrenheit 50", None),
    ];
    let products = vec![ProductRow {
        id: "prod1".to_string(),
        name: "Dior Fahrenheit 50 ml".to_string(),
        brand: "Dior".to_string(),
        product_name: "Fahrenheit".to_string(),
        size: "50 ml".to_string(),
    }];
    let brands = vec![BrandRow { id: "b1".to_string(), name: "Dior".to_string() }];
    let proposals = propose_unmatched(&provider_products, &products, &brands);
    assert_eq!(proposals.len(), 1);
    let p = &proposals[0];
    assert_eq!(p.provider_product_id, "p1");
    assert_eq!(p.source_name, "Dior Sauvage EDT 100ml");
    assert_eq!(p.brand, "Dior");
    assert_eq!(p.product_name, "Sauvage EDT");
    assert_eq!(p.size, "100 ml");
    assert_eq!(p.name, "Dior Sauvage EDT 100 ml");
}

#[test]
fn comparison_insert_outcomes() {
    assert_eq!(match_insert_outcome(200, "{}"), Some(MatchInsert::Created));
    assert_eq!(
        match_insert_outcome(400, r#"{"data":{"product_id":{"code":"validation_not_unique"}}}"#),
        Some(MatchInsert::AlreadyExists)
    );
    assert_eq!(match_insert_outcome(400, r#"{"message":"bad request"}"#), None);
    assert_eq!(match_insert_outcome(500, "validation_not_unique"), None);
}

#[test]
fn export_records_are_sorted_by_name_ignoring_case() {
    let row = |id: &str, name: &str, brand: &str| ProductRow {
        id: id.to_string(),
        name: name.to_string(),
        brand: brand.to_string(),
        product_name: name.to_string(),
        size: String::new(),
    };
    let products = vec![row("1", "beta", "B"), row("2", "Alpha", "A"), row("3", "alpha", "a")];
    let records = product_csv_records(&products);
    let expected: Vec<Vec<String>> = vec![
        vec!["brand".into(), "product_name".into(), "size".into()],
        vec!["A".into(), "Alpha".into(), "".into()],
        vec!["a".into(), "alpha".into(), "".into()],
        vec!["B".into(), "beta".into(), "".into()],
    ];
    assert_eq!(records, expected);
    let brands = vec![
        BrandRow { id: "1".to_string(), name: "zeta".to_string() },
        BrandRow { id: "2".to_string(), name: "Alfa".to_string() },
    ];
    let expected: Vec<Vec<String>> = vec![vec!["brand".into()], vec!["Alfa".into()], vec!["zeta".into()]];
    assert_eq!(brand_csv_records(&brands), expected);
}

#[test]
fn price_rows_are_written_only_when_needed() {
    assert_eq!(price_write(true, Some("r1".to_string()), Some(true)), PriceWrite::Create);
    assert_eq!(price_write(false, Some("r1".to_string()), Some(true)), PriceWrite::Update("r1".to_string()));
    assert_eq!(price_write(false, None, Some(true)), PriceWrite::Skip);
    assert_eq!(price_write(false, None, Some(false)), PriceWrite::Create);
    assert_eq!(price_write(false, None, None), PriceWrite::Create);
}

fn provider_row(id: &str, name: &str, product_id: Option<&str>, brand_id: Option<&str>) -> ProviderProductRow {
    ProviderProductRow {
        id: id.to_string(),
        provider_id: "x".to_string(),
        name: name.to_string(),
        product_id: product_id.map(str::to_string),
        brand_id: brand_id.map(str::to_string),
    }
}

#[test]
fn a_second_brand_run_writes_nothing() {
    let brands = vec![
        BrandRow { id: "b1".to_string(), name: "Dior".to_string() },
        BrandRow { id: "b2".to_string(), name: "Carolina Herrera".to_string() },
    ];
    let products = vec![ProductRow {
        id: "prod1".to_string(),
        name: "Carolina Herrera Good Girl".to_string(),
        brand: "Carolina Herrera".to_string(),
        product_name: "Good Girl".to_string(),
        size: String::new(),
    }];
    let mut pps = vec![
        provider_row("p1", "Dior Sauvage EDT", None, None),
        provider_row("p2", "Good Girl EDP", Some("prod1"), Some("")),
        provider_row("p3", "Unknown Scent", None, Some("b1")),
    ];
    let (first, links) = match_brands(&pps, &products, &brands);
    assert_eq!(
        (first.provider_products, first.matched_from_product, first.matched_by_fuzzy, first.unmatched, first.updated),
        (3, 1, 1, 1, 3)
    );
    for link in &links {
        let row = pps.iter_mut().find(|p| p.id == link.provider_product_id).unwrap();
        row.brand_id = link.brand_id.clone();
    }
    let (second, links) = match_brands(&pps, &products, &brands);
    assert!(links.is_empty());
    assert_eq!(
        (second.provider_products, second.matched_from_product, second.matched_by_fuzzy, second.unmatched, second.updated),
        (3, 1, 1, 1, 0)
    );
}

#[test]
fn adding_brands_never_adds_unbranded_rows() {
    let pps = vec![
        provider_row("p1", "Dior Sauvage", None, None),
        provider_row("p2", "Kevin Black EDT", None, None),
        provider_row("p3", "Plain Water", None, None),
    ];
    let mut brands = vec![BrandRow { id: "b1".to_string(), name: "Dior".to_string() }];
    let before = unbranded_products(&pps, &vec![], &brands);
    assert_eq!(before.iter().map(|p| p.id.as_str()).collect::<Vec<_>>(), vec!["p2", "p3"]);
    brands.insert(0, BrandRow { id: "b2".to_string(), name: "Kevin".to_string() });
    let after = unbranded_products(&pps, &vec![], &brands);
    assert_eq!(after.iter().map(|p| p.id.as_str()).collect::<Vec<_>>(), vec!["p3"]);
}

#[test]
fn product_csv_files_are_read_up_to_the_first_bad_record() {
    let (rows, failed) = product_imports(b"brand,name,size\nDior, Sauvage ,100 ml\n,,\n");
    assert!(!failed);
    assert_eq!(
        rows,
        vec![
            Some(ProductImport {
                brand: "Dior".to_string(),
                product_name: "Sauvage".to_string(),
                size: "100 ml".to_string(),
                name: "Dior Sauvage 100 ml".to_string(),
            }),
            None,
        ]
    );
    let (rows, failed) = product_imports(b"brand,name,size\nDior,Sauvage,100 ml\nChanel,No 5\nA,B,C\n");
    assert!(failed);
    assert_eq!(rows.len(), 1);
}

#[test]
fn brand_csv_files_skip_the_header_and_blank_names() {
    let (rows, failed) = brand_imports(b"brand\nDior\n  \nBRAND\nChanel\n");
    assert!(!failed);
    assert_eq!(rows, vec![Some("Dior".to_string()), None, None, Some("Chanel".to_string())]);
}
