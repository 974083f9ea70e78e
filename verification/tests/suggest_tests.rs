use stork_asset::suggest::suggest;

fn cat(entries: &[&str]) -> Vec<String> {
    entries.iter().map(|s| s.to_string()).collect()
}

#[test]
fn substring_matches_returned_in_catalog_order() {
    let catalog = cat(&["BTCUSD", "ETHUSD", "ABTC"]);
    let r = suggest("BTC", &catalog, 5);
    assert_eq!(r, vec!["BTCUSD".to_string(), "ABTC".to_string()]);
}

#[test]
fn substring_phase_is_not_backfilled_by_fuzzy_results() {
    // one substring hit suppresses fuzzy scoring even below the limit
    let catalog = cat(&["AB", "ZZZ"]);
    let r = suggest("B", &catalog, 5);
    assert_eq!(r, vec!["AB".to_string()]);
}

#[test]
fn substring_matching_is_case_insensitive() {
    let catalog = cat(&["xbtcx", "zzz"]);
    let r = suggest("btc", &catalog, 5);
    assert_eq!(r, vec!["xbtcx".to_string()]);
    let r2 = suggest("BTC", &catalog, 5);
    assert_eq!(r2, vec!["xbtcx".to_string()]);
}

#[test]
fn substring_phase_caps_at_hard_limit() {
    let names: Vec<String> = (0..12).map(|i| format!("BTC{}", i)).collect();
    let r = suggest("BTC", &names, 20);
    assert_eq!(r.len(), 10);
    assert_eq!(r, names[..10].to_vec());
}

#[test]
fn fuzzy_ties_keep_catalog_order() {
    // no substring hit; both entries score zero
    let catalog = cat(&["ABC", "ABD"]);
    let r = suggest("XYZ", &catalog, 2);
    assert!(r.len() <= 2);
    assert_eq!(r, vec!["ABC".to_string(), "ABD".to_string()]);
}

#[test]
fn fuzzy_ranks_by_similarity() {
    // "XZY" shares characters with "XYZ", "ABC" shares none
    let catalog = cat(&["ABC", "XZY"]);
    let r = suggest("XYZ", &catalog, 2);
    assert_eq!(r, vec!["XZY".to_string(), "ABC".to_string()]);
}

#[test]
fn fuzzy_respects_limit() {
    let catalog = cat(&["ABC", "ABD", "ABE"]);
    let r = suggest("XYZ", &catalog, 2);
    assert_eq!(r.len(), 2);
}

#[test]
fn fuzzy_near_containment_boost_wins() {
    // "ZABZ" contains "AB", the query minus its final character
    let catalog = cat(&["ZZZZ", "ZABZ"]);
    let r = suggest("ABC", &catalog, 2);
    assert_eq!(r, vec!["ZABZ".to_string(), "ZZZZ".to_string()]);
}

#[test]
fn empty_catalog_yields_nothing() {
    let catalog: Vec<String> = Vec::new();
    let r = suggest("BTC", &catalog, 5);
    assert!(r.is_empty());
}

#[test]
fn zero_limit_yields_nothing_in_fuzzy_phase() {
    let catalog = cat(&["ABC"]);
    let r = suggest("XYZ", &catalog, 0);
    assert!(r.is_empty());
}
