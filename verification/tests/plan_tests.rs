use stork_asset::plan::{catalog_contains, is_available, plan, PlanError};

fn cat(entries: &[&str]) -> Vec<String> {
    entries.iter().map(|s| s.to_string()).collect()
}

#[test]
fn explicit_plus_random_fill() {
    let catalog = cat(&["A", "B", "C"]);
    let explicit = Some(cat(&["A"]));
    let r = plan(&catalog, &explicit, Some(2)).expect("plan should succeed");
    assert_eq!(r.selected.len(), 3);
    assert_eq!(r.selected[0], "A");
    let mut rest: Vec<String> = r.selected[1..].to_vec();
    rest.sort();
    assert_eq!(rest, vec!["B".to_string(), "C".to_string()]);
    assert!(!r.insufficient_random_pool);
}

#[test]
fn unknown_explicit_symbol_fails() {
    let catalog = cat(&["A"]);
    let explicit = Some(cat(&["Z"]));
    match plan(&catalog, &explicit, None) {
        Err(PlanError::UnknownAsset(s)) => assert_eq!(s, "Z"),
        _ => panic!("expected UnknownAsset"),
    }
}

#[test]
fn empty_request_fails() {
    let catalog: Vec<String> = Vec::new();
    match plan(&catalog, &None, None) {
        Err(PlanError::NoAssetsSelected) => {}
        _ => panic!("expected NoAssetsSelected"),
    }
}

#[test]
fn oversized_random_request_warns_and_returns_all() {
    let catalog = cat(&["A", "B"]);
    let r = plan(&catalog, &None, Some(5)).expect("plan should succeed");
    assert!(r.insufficient_random_pool);
    let mut got = r.selected.clone();
    got.sort();
    assert_eq!(got, vec!["A".to_string(), "B".to_string()]);
}

#[test]
fn duplicate_explicit_request_fails_on_second_occurrence() {
    let catalog = cat(&["A", "B"]);
    let explicit = Some(cat(&["A", "A"]));
    match plan(&catalog, &explicit, None) {
        Err(PlanError::UnknownAsset(s)) => assert_eq!(s, "A"),
        _ => panic!("expected UnknownAsset"),
    }
}

#[test]
fn validation_stops_at_first_unknown_symbol() {
    let catalog = cat(&["A"]);
    let explicit = Some(cat(&["X", "Y"]));
    match plan(&catalog, &explicit, None) {
        Err(PlanError::UnknownAsset(s)) => assert_eq!(s, "X"),
        _ => panic!("expected UnknownAsset for the first missing symbol"),
    }
}

#[test]
fn explicit_order_is_preserved() {
    let catalog = cat(&["A", "B", "C"]);
    let explicit = Some(cat(&["C", "A"]));
    let r = plan(&catalog, &explicit, None).expect("plan should succeed");
    assert_eq!(r.selected, vec!["C".to_string(), "A".to_string()]);
    assert!(!r.insufficient_random_pool);
}

#[test]
fn full_random_draw_is_the_whole_catalog() {
    let catalog = cat(&["A", "B", "C"]);
    let r = plan(&catalog, &None, Some(3)).expect("plan should succeed");
    assert_eq!(r.selected.len(), 3);
    let mut got = r.selected.clone();
    got.sort();
    got.dedup();
    assert_eq!(got, vec!["A".to_string(), "B".to_string(), "C".to_string()]);
    assert!(!r.insufficient_random_pool);
}

#[test]
fn random_draws_are_distinct_and_from_the_catalog() {
    let catalog = cat(&["A", "B", "C", "D", "E"]);
    for _ in 0..20 {
        let r = plan(&catalog, &None, Some(2)).expect("plan should succeed");
        assert_eq!(r.selected.len(), 2);
        assert_ne!(r.selected[0], r.selected[1]);
        assert!(catalog.contains(&r.selected[0]));
        assert!(catalog.contains(&r.selected[1]));
    }
}

#[test]
fn catalog_membership_is_case_sensitive() {
    let catalog = cat(&["BTCUSD"]);
    assert!(catalog_contains(&catalog, &"BTCUSD".to_string()));
    assert!(!catalog_contains(&catalog, &"btcusd".to_string()));
    assert!(!catalog_contains(&catalog, &"ETHUSD".to_string()));
}

#[test]
fn availability_ignores_case() {
    let catalog = cat(&["BTCusd"]);
    assert!(is_available("btcUSD", &catalog));
    assert!(is_available("BTCUSD", &catalog));
    assert!(!is_available("ETHUSD", &catalog));
}

#[test]
fn zero_random_count_adds_nothing() {
    let catalog = cat(&["A", "B"]);
    let explicit = Some(cat(&["A"]));
    let r = plan(&catalog, &explicit, Some(0)).expect("plan should succeed");
    assert_eq!(r.selected, vec!["A".to_string()]);
    assert!(!r.insufficient_random_pool);
}
