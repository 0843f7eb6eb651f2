use price_hunter::matching::{
    assign_group, best_match, brand_coverage, covers_brand, full_name, normalize, MatchCandidate,
    MIN_SCORE,
};

fn ratio(r: (usize, usize)) -> f64 {
    r.0 as f64 / r.1 as f64
}

#[test]
fn normalize_is_case_and_order_insensitive() {
    assert_eq!(normalize("Light Blue Homme EDP 50"), normalize("edp 50 light blue homme"));
    assert_eq!(normalize("Adn Neroli Ectasy!!"), normalize("adn neroli ectasy"));
}

#[test]
fn full_name_joins_brand_name_and_size() {
    assert_eq!(
        full_name("yves saint laurent", "y l'elixir edp", "60 ml"),
        "yves saint laurent y l'elixir edp 60 ml"
    );
}

#[test]
fn full_name_skips_missing_parts() {
    assert_eq!(full_name("diesel", "fuel for life edt", ""), "diesel fuel for life edt");
    assert_eq!(full_name("", "adn neroli ecstasy", ""), "adn neroli ecstasy");
}

#[test]
fn full_name_trims_whitespace_parts() {
    assert_eq!(full_name("  ", "  a  ", "   "), "a");
}

#[test]
fn assign_group_picks_highest_and_does_not_reuse_products() {
    let candidates = vec![
        MatchCandidate { provider_product_id: "pp1".into(), product_id: "p1".into(), score: key(0.8) },
        MatchCandidate { provider_product_id: "pp1".into(), product_id: "p2".into(), score: key(0.9) },
        MatchCandidate { provider_product_id: "pp2".into(), product_id: "p1".into(), score: key(0.95) },
    ];
    let winners = assign_group(&candidates);
    assert_eq!(
        winners,
        vec![
            MatchCandidate { provider_product_id: "pp2".into(), product_id: "p1".into(), score: key(0.95) },
            MatchCandidate { provider_product_id: "pp1".into(), product_id: "p2".into(), score: key(0.9) },
        ]
    );
}

#[test]
fn brand_coverage_matches_embedded_brand() {
    assert_eq!(ratio(brand_coverage("Kevin Black EDT 100 Ml", "kevin")), 1.0);
    assert_eq!(ratio(brand_coverage("Puro Giesso Mujer EDT 100 Ml", "giesso")), 1.0);
    assert_eq!(
        ratio(brand_coverage("adolfo dominguez adn neroli ecstasy 100 ml", "adolfo dominguez")),
        1.0
    );
    assert_eq!(ratio(brand_coverage("some unrelated name", "diesel")), 0.0);
    // one of two brand tokens present
    assert_eq!(ratio(brand_coverage("adolfo neroli", "adolfo dominguez")), 0.5);
    // name carries no brand token
    assert_eq!(ratio(brand_coverage("diesel", "adolfo dominguez")), 0.0);
}

#[test]
fn best_match_picks_highest_score_and_longest_tie_break() {
    let candidates = vec![
        ("b1".to_string(), "adolfo".to_string()),
        ("b2".to_string(), "adolfo dominguez".to_string()),
        ("b3".to_string(), "diesel".to_string()),
    ];
    let i = best_match("adolfo dominguez adn neroli ecstasy 100 ml", &candidates)
        .expect("brand should match");
    assert_eq!(candidates[i].0, "b2");
    assert_eq!(candidates[i].1, "adolfo dominguez");
    assert_eq!(ratio(brand_coverage("adolfo dominguez adn neroli ecstasy 100 ml", &candidates[i].1)), 1.0);

    assert!(best_match("completely unrelated", &candidates).is_none());
}

#[test]
fn normalize_sorts_lowercased_alphanumeric_runs() {
    assert_eq!(normalize("EDP 50 Light-Blue"), "50 blue edp light");
    assert_eq!(normalize("!!"), "");
}

#[test]
fn covers_brand_needs_every_brand_token() {
    assert!(covers_brand("adolfo dominguez adn", "Adolfo Dominguez"));
    assert!(!covers_brand("adolfo neroli", "adolfo dominguez"));
}

#[test]
fn min_score_is_the_key_of_six_tenths() {
    assert_eq!(MIN_SCORE, key(0.6));
    assert!(key(0.59) < MIN_SCORE && MIN_SCORE < key(0.61));
    assert!(key(-0.5) < key(0.0) && key(-1.0) < key(-0.5));
}

fn key(score: f64) -> u64 {
    let bits = score.to_bits();
    if bits >> 63 == 1 {
        !bits
    } else {
        bits | (1 << 63)
    }
}
