use price_hunter::browse::{new_batch, BrowseState};
use price_hunter::delta::SeenProducts;
use price_hunter::detect::detect_grid;

fn page(names: &[&str]) -> String {
    let mut cards = String::new();
    for (i, name) in names.iter().enumerate() {
        cards.push_str(&format!(
            "<div class=\"card\"><a href=\"/p{i}\">{name}</a><span class=\"price\">$ 1{i}.990</span></div>"
        ));
    }
    format!("<html><body><div class=\"product-grid\" id=\"grid\">{cards}</div></body></html>")
}

fn names(batch: &price_hunter::detect::Detection) -> Vec<&str> {
    batch.products.iter().map(|p| p.name.as_str()).collect()
}

#[test]
fn browse_state_captures_each_product_once() {
    let mut state = BrowseState::new();
    assert!(state.refresh(None).is_none());
    let first = page(&["Alpha EDP 50 ml", "Beta EDP 50 ml"]);
    let batch = state.refresh(Some(first.clone())).expect("a first batch");
    assert_eq!(names(&batch), vec!["Alpha EDP 50 ml", "Beta EDP 50 ml"]);
    assert_eq!(batch.container.classes, vec!["product-grid".to_string()]);
    assert_eq!(batch.container.id.as_deref(), Some("grid"));
    assert_eq!(batch.container.child_count, 2);
    assert!(state.refresh(Some(first)).is_none());
    let grown = page(&["Alpha EDP 50 ml", "Beta EDP 50 ml", "Gamma EDP 50 ml"]);
    let batch = state.refresh(Some(grown)).expect("the new product");
    assert_eq!(names(&batch), vec!["Gamma EDP 50 ml"]);
    assert_eq!(batch.container.child_count, 1);
}

#[test]
fn browse_state_keeps_the_grid_of_a_page_without_one() {
    let mut state = BrowseState::new();
    let first = page(&["Alpha EDP 50 ml", "Beta EDP 50 ml"]);
    assert!(state.refresh(Some(first)).is_some());
    let empty = "<html><body><p>loading</p></body></html>".to_string();
    assert!(state.refresh(Some(empty)).is_none());
}

#[test]
fn browse_state_recaptures_a_forgotten_batch() {
    let mut state = BrowseState::new();
    let first = page(&["Alpha EDP 50 ml", "Beta EDP 50 ml"]);
    let batch = state.refresh(Some(first.clone())).expect("a first batch");
    state.forget(&batch);
    let again = state.refresh(Some(first)).expect("captured again");
    assert_eq!(names(&again), vec!["Alpha EDP 50 ml", "Beta EDP 50 ml"]);
}

#[test]
fn new_batch_without_container() {
    let detection = detect_grid(&page(&["Alpha EDP 50 ml", "Beta EDP 50 ml"])).expect("grid");
    let mut seen = SeenProducts::new();
    let batch = new_batch(&detection, &mut seen, false).expect("a batch");
    assert!(batch.container.classes.is_empty());
    assert_eq!(batch.container.id, None);
    assert_eq!(batch.container.child_count, 2);
    assert!(new_batch(&detection, &mut seen, false).is_none());
}
