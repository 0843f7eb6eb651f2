use price_hunter::autoscrape::{AutoScrapeOptions, StrategyKind};
use price_hunter::cli::{parse, strategy_from_name, wants_yes, Command};

fn args(rest: &[&str]) -> Vec<String> {
    std::iter::once("pricehunter".to_string())
        .chain(rest.iter().map(|a| a.to_string()))
        .collect()
}

#[test]
fn no_args_browses_without_a_url() {
    assert_eq!(parse(&args(&[])), Command::Browse(None));
}

#[test]
fn bare_url_selects_browse() {
    assert_eq!(
        parse(&args(&["https://www.parfumerie.com.ar/fragancias"])),
        Command::Browse(Some("https://www.parfumerie.com.ar/fragancias".to_string()))
    );
}

#[test]
fn import_flags_take_the_following_value() {
    assert_eq!(
        parse(&args(&["-import-products", "products.csv"])),
        Command::ImportProducts("products.csv".to_string())
    );
    assert_eq!(
        parse(&args(&["-import-brands", "brands.csv"])),
        Command::ImportBrands("brands.csv".to_string())
    );
    assert_eq!(
        parse(&args(&["-export-matrix", "matrix.csv"])),
        Command::ExportMatrix("matrix.csv".to_string())
    );
    assert_eq!(
        parse(&args(&["-export-products", "products.csv"])),
        Command::ExportProducts("products.csv".to_string())
    );
    assert_eq!(
        parse(&args(&["-export-brands", "brands.csv"])),
        Command::ExportBrands("brands.csv".to_string())
    );
}

#[test]
fn bare_flags_dispatch_to_their_command() {
    assert_eq!(parse(&args(&["-match-products"])), Command::MatchProducts);
    assert_eq!(parse(&args(&["-link-matches"])), Command::LinkMatches);
    assert_eq!(parse(&args(&["-match-brands"])), Command::MatchBrands);
    assert_eq!(parse(&args(&["-report-missing-brands"])), Command::ReportMissingBrands);
    assert_eq!(parse(&args(&["-delete-unbranded"])), Command::DeleteUnbranded);
    assert_eq!(parse(&args(&["-import-unmatched"])), Command::ImportUnmatched);
    assert_eq!(parse(&args(&["-matrix-server"])), Command::MatrixServer);
}

#[test]
fn auto_scrape_flag_collects_url_and_modifiers() {
    assert_eq!(
        parse(&args(&["-auto-scrape", "https://example.com/list"])),
        Command::AutoScrape(AutoScrapeOptions {
            url: "https://example.com/list".to_string(),
            strategy: None,
            button: None,
            page_param: String::new(),
            headless: false,
            window_threshold: None,
        })
    );
    assert_eq!(
        parse(&args(&[
            "-auto-scrape",
            "https://example.com/list",
            "-strategy",
            "page",
            "-page-param",
            "pg",
            "-button",
            ".load-more",
            "-headless"
        ])),
        Command::AutoScrape(AutoScrapeOptions {
            url: "https://example.com/list".to_string(),
            strategy: Some(StrategyKind::Page),
            button: Some(".load-more".to_string()),
            page_param: "pg".to_string(),
            headless: true,
            window_threshold: None,
        })
    );
    assert_eq!(
        parse(&args(&["-auto-scrape", "u", "-strategy", "infinite"])),
        Command::AutoScrape(AutoScrapeOptions {
            url: "u".to_string(),
            strategy: Some(StrategyKind::InfiniteScroll),
            button: None,
            page_param: String::new(),
            headless: false,
            window_threshold: None,
        })
    );
}

fn windowed(url: &str, threshold: Option<usize>) -> Command {
    Command::AutoScrape(AutoScrapeOptions {
        url: url.to_string(),
        strategy: None,
        button: None,
        page_param: String::new(),
        headless: false,
        window_threshold: threshold,
    })
}

#[test]
fn auto_scrape_window_threshold_parses_and_defaults() {
    let url = "https://example.com/list?page=1";
    assert_eq!(
        parse(&args(&["-auto-scrape", url, "-window-threshold", "200"])),
        windowed(url, Some(200))
    );
    // alias -window
    assert_eq!(parse(&args(&["-auto-scrape", url, "-window", "50"])), windowed(url, Some(50)));
    // 0 disables
    assert_eq!(
        parse(&args(&["-auto-scrape", url, "-window-threshold", "0"])),
        windowed(url, Some(0))
    );
    // invalid value is ignored (fallback to None => default 120)
    assert_eq!(
        parse(&args(&["-auto-scrape", url, "-window-threshold", "bad"])),
        windowed(url, None)
    );
}

#[test]
fn flags_win_over_a_bare_url() {
    assert_eq!(parse(&args(&["-matrix-server", "https://example.com"])), Command::MatrixServer);
}

#[test]
fn yes_flag_does_not_select_a_command() {
    assert_eq!(parse(&args(&["-delete-unbranded", "-yes"])), Command::DeleteUnbranded);
    assert_eq!(parse(&args(&["-y", "-delete-unbranded"])), Command::DeleteUnbranded);
}

#[test]
fn wants_yes_recognizes_yes_and_y() {
    assert!(wants_yes(&args(&["-delete-unbranded", "-yes"])));
    assert!(wants_yes(&args(&["-delete-unbranded", "-y"])));
    assert!(!wants_yes(&args(&["-delete-unbranded"])));
    assert!(!wants_yes(&args(&[])));
}

#[test]
fn flag_precedence_follows_the_fixed_order() {
    assert_eq!(
        parse(&args(&["-match-products", "-import-brands", "b.csv"])),
        Command::ImportBrands("b.csv".to_string())
    );
    assert_eq!(
        parse(&args(&["-import-brands", "b.csv", "-import-products", "p.csv"])),
        Command::ImportProducts("p.csv".to_string())
    );
}

#[test]
fn path_flag_without_value_falls_through() {
    assert_eq!(parse(&args(&["-import-products"])), Command::Browse(None));
    assert_eq!(parse(&args(&["-auto-scrape"])), Command::Browse(None));
}

#[test]
fn wants_yes_ignores_the_program_name() {
    assert!(!wants_yes(&["-y".to_string()]));
}

#[test]
fn strategy_names_ignore_ascii_case_and_default_to_scroll_click() {
    assert_eq!(strategy_from_name("Scroll_Click"), StrategyKind::ScrollClick);
    assert_eq!(strategy_from_name("INFINITE-SCROLL"), StrategyKind::InfiniteScroll);
    assert_eq!(strategy_from_name("Pagination"), StrategyKind::Page);
    assert_eq!(strategy_from_name("whatever"), StrategyKind::ScrollClick);
}

#[test]
fn window_threshold_accepts_a_plus_sign_and_rejects_overflow() {
    let url = "u";
    assert_eq!(parse(&args(&["-auto-scrape", url, "-window", "+7"])), windowed(url, Some(7)));
    assert_eq!(
        parse(&args(&["-auto-scrape", url, "-window", "99999999999999999999999"])),
        windowed(url, None)
    );
    assert_eq!(parse(&args(&["-auto-scrape", url, "-window", "-3"])), windowed(url, None));
}
