use price_hunter::autoscrape::{
    default_strategy, effective_strategy, extract_page, set_page_url, should_window_reload,
    text_matches_heuristic, try_set_page_url, url_contains_page_param, AutoScrapeOptions,
    NoGrowthTracker, ScrapeState, StrategyKind, WindowState, DEFAULT_WINDOW_THRESHOLD,
};
use price_hunter::detect::detect_grid;

#[test]
fn page_url_appends_param_preserving_query() {
    assert_eq!(
        set_page_url("https://example.com/perfumeria", "page", 2),
        "https://example.com/perfumeria?page=2"
    );
    assert_eq!(
        set_page_url("https://example.com/list?sort=price", "page", 3),
        "https://example.com/list?sort=price&page=3"
    );
}

#[test]
fn text_matches_heuristic_recognizes_load_more_phrases() {
    assert!(text_matches_heuristic("Mostrar más"));
    assert!(text_matches_heuristic("MOSTRAR MÁS"));
    assert!(text_matches_heuristic("Ver más productos"));
    assert!(text_matches_heuristic("Load more"));
}

#[test]
fn text_matches_heuristic_rejects_unrelated_text() {
    assert!(!text_matches_heuristic("Añadir al carrito"));
    assert!(!text_matches_heuristic(""));
    assert!(!text_matches_heuristic("Comprar ahora"));
}

#[test]
fn no_growth_tracker_stops_after_limit_stalls() {
    let mut tracker = NoGrowthTracker::new(3);
    assert!(tracker.record(30));
    assert!(tracker.record(60));
    assert!(tracker.record(60)); // stall 1
    assert!(tracker.record(60)); // stall 2
    assert!(!tracker.record(60)); // stall 3 -> stop
}

#[test]
fn no_growth_tracker_resets_on_growth() {
    let mut tracker = NoGrowthTracker::new(2);
    assert!(tracker.record(10));
    assert!(tracker.record(10)); // stall 1
    assert!(tracker.record(20)); // growth resets stalls
    assert!(tracker.record(20)); // stall 1 again
    assert!(!tracker.record(20)); // stop
}

#[test]
fn default_strategy_known_infinite_scroll_host() {
    assert_eq!(default_strategy("www.parfumerie.com.ar"), StrategyKind::InfiniteScroll);
    assert_eq!(default_strategy("www.beauty24.com.ar"), StrategyKind::ScrollClick);
    assert_eq!(default_strategy(""), StrategyKind::ScrollClick);
}

#[test]
fn options_default_page_param_is_page() {
    assert_eq!(AutoScrapeOptions::default().page_param_name(), "page");
    let options = AutoScrapeOptions { page_param: "pg".to_string(), ..AutoScrapeOptions::default() };
    assert_eq!(options.page_param_name(), "pg");
}

#[test]
fn strategy_for_respects_host_and_override() {
    let url = "https://www.parfumerie.com.ar/fragancias";
    assert_eq!(effective_strategy(url, &AutoScrapeOptions::default()), StrategyKind::InfiniteScroll);
    let opts = AutoScrapeOptions {
        url: url.to_string(),
        strategy: Some(StrategyKind::Page),
        page_param: "pg".to_string(),
        ..AutoScrapeOptions::default()
    };
    assert_eq!(effective_strategy(url, &opts), StrategyKind::Page);
}

#[test]
fn set_page_url_replaces_existing_page() {
    assert_eq!(
        set_page_url("https://example.com/list?page=2", "page", 5),
        "https://example.com/list?page=5"
    );
    assert_eq!(
        set_page_url("https://example.com/list?page=2&sort=price", "page", 5),
        "https://example.com/list?sort=price&page=5"
    );
    assert_eq!(
        set_page_url("https://example.com/list?sort=price&page=2&foo=bar", "page", 3),
        "https://example.com/list?sort=price&foo=bar&page=3"
    );
    assert_eq!(
        set_page_url("https://example.com/list?page=2", "page", 3),
        "https://example.com/list?page=3"
    );
}

#[test]
fn url_contains_page_param_detects_query() {
    assert!(url_contains_page_param("https://example.com/list?page=1", "page"));
    assert!(url_contains_page_param("https://example.com/list?sort=price&page=2", "page"));
    assert!(!url_contains_page_param("https://example.com/list?sort=price", "page"));
    assert!(url_contains_page_param("https://example.com/list?pg=2", "pg"));
    assert!(!url_contains_page_param("https://example.com/list?page=1", "pg"));
}

#[test]
fn extract_page_parses_last_value() {
    assert_eq!(extract_page("https://example.com/list?page=3", "page"), Some(3));
    assert_eq!(extract_page("https://example.com/list?sort=price&page=5", "page"), Some(5));
    assert_eq!(extract_page("https://example.com/list", "page"), None);
    assert_eq!(extract_page("https://example.com/list?page=bad", "page"), None);
    assert_eq!(extract_page("https://example.com/list?page=2&page=5", "page"), Some(5));
}

#[test]
fn should_window_reload_respects_threshold_and_page() {
    assert!(should_window_reload(120, 120, true));
    assert!(should_window_reload(200, 120, true));
    assert!(!should_window_reload(119, 120, true));
    assert!(!should_window_reload(120, 120, false));
    assert!(!should_window_reload(120, 0, true));
    assert!(!should_window_reload(0, 120, true));
}

#[test]
fn default_window_threshold_is_120() {
    assert_eq!(DEFAULT_WINDOW_THRESHOLD, 120);
    assert_eq!(AutoScrapeOptions::default().window_threshold(), 120);
    assert_eq!(
        AutoScrapeOptions { window_threshold: Some(200), ..AutoScrapeOptions::default() }.window_threshold(),
        200
    );
    assert_eq!(
        AutoScrapeOptions { window_threshold: Some(0), ..AutoScrapeOptions::default() }.window_threshold(),
        0
    );
}

#[test]
fn strategy_for_wraps_windowed_when_url_has_page_param() {
    let url = "https://example.com/list?page=3";
    let opts = AutoScrapeOptions { url: url.to_string(), ..AutoScrapeOptions::default() };
    assert!(url_contains_page_param(url, opts.page_param_name()));
    assert!(!matches!(effective_strategy(url, &opts), StrategyKind::Page));
    let opts_zero =
        AutoScrapeOptions { url: url.to_string(), window_threshold: Some(0), ..AutoScrapeOptions::default() };
    assert_eq!(opts_zero.window_threshold(), 0);
}

#[test]
fn window_reload_fires_at_threshold() {
    let mut w = WindowState::new("page".to_string(), 120);
    let target = w.reload_target("https://example.com/list?page=8", 120);
    assert_eq!(target.as_deref(), Some("https://example.com/list?page=8"));
}

#[test]
fn window_no_reload_under_threshold() {
    let mut w = WindowState::new("page".to_string(), 120);
    assert_eq!(w.reload_target("https://example.com/list?page=8", 119), None);
    // the page was not marked: reaching the threshold later still reloads
    assert!(w.reload_target("https://example.com/list?page=8", 120).is_some());
}

#[test]
fn window_already_reloaded_page_skips() {
    let mut w = WindowState::new("page".to_string(), 120);
    assert!(w.reload_target("https://example.com/list?page=8", 120).is_some());
    assert_eq!(w.reload_target("https://example.com/list?page=8", 130), None);
    assert!(w.reload_target("https://example.com/list?page=9", 130).is_some());
}

#[test]
fn window_reload_exact_same_url_preserving_params() {
    let mut w = WindowState::new("page".to_string(), 120);
    assert_eq!(
        w.reload_target("https://example.com/list?sort=price&page=8&foo=bar", 120).as_deref(),
        Some("https://example.com/list?sort=price&foo=bar&page=8")
    );
}

#[test]
fn window_no_reload_without_page_param() {
    let mut w = WindowState::new("page".to_string(), 120);
    assert!(!w.watches("https://example.com/list?sort=price"));
    assert_eq!(w.reload_target("https://example.com/list?sort=price", 200), None);
}

#[test]
fn window_threshold_zero_disables() {
    let mut w = WindowState::new("page".to_string(), 0);
    assert!(!w.watches("https://example.com/list?page=8"));
    assert_eq!(w.reload_target("https://example.com/list?page=8", 200), None);
}

#[test]
fn try_set_page_url_refuses_text_that_is_not_a_url() {
    assert_eq!(try_set_page_url("not a url", "page", 2), None);
    assert_eq!(
        try_set_page_url("https://example.com/a", "p", 2).as_deref(),
        Some("https://example.com/a?p=2")
    );
}

fn grid(n: usize) -> String {
    let mut cards = String::new();
    for i in 0..n {
        cards.push_str(&format!(
            r#"<div class="card"><a href="/p{i}">Product {i}</a><span class="price">${}.00</span></div>"#,
            10 + i
        ));
    }
    format!(r#"<html><body><div class="product-grid">{cards}</div></body></html>"#)
}

#[test]
fn scrape_state_keeps_the_largest_grid_until_a_window_reload() {
    let mut state = ScrapeState::new();
    assert_eq!(state.observe(detect_grid(&grid(3)), false), (3, true));
    assert_eq!(state.observe(detect_grid(&grid(2)), false), (3, false));
    assert_eq!(state.observe(None, false), (3, false));
    assert_eq!(state.observe(detect_grid(&grid(5)), false), (5, true));
    // after a window reload the new page's grid replaces the best, even when smaller
    assert_eq!(state.observe(detect_grid(&grid(2)), true), (2, true));
    assert_eq!(state.current_count(), 2);
    assert_eq!(state.tracker.rounds(), 0);
    assert_eq!(state.observe(None, true), (0, false));
    assert_eq!(state.current_count(), 0);
}
