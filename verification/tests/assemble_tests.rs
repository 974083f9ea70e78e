use stork_asset::assemble::assemble;
use stork_asset::encoder::encode;

fn cat(entries: &[&str]) -> Vec<String> {
    entries.iter().map(|s| s.to_string()).collect()
}

#[test]
fn keys_are_sorted_regardless_of_selection_order() {
    let selected = cat(&["B", "A"]);
    let artifact = assemble(&selected, 60, 1.0f64.to_bits());
    let keys: Vec<&str> = artifact
        .entries
        .iter()
        .map(|e| e.asset_id.as_str())
        .collect();
    assert_eq!(keys, vec!["A", "B"]);
}

#[test]
fn entries_carry_the_shared_scalars_and_their_own_encoding() {
    let selected = cat(&["ETHUSD", "BTCUSD"]);
    let artifact = assemble(&selected, 120, 2.5f64.to_bits());
    assert_eq!(artifact.entries.len(), 2);
    for e in &artifact.entries {
        assert_eq!(e.fallback_period_sec, 120);
        assert_eq!(f64::from_bits(e.percent_change_threshold_bits), 2.5);
        assert_eq!(e.encoded_asset_id, encode(&e.asset_id));
    }
    assert_eq!(artifact.entries[0].asset_id, "BTCUSD");
    assert_eq!(artifact.entries[1].asset_id, "ETHUSD");
}

#[test]
fn duplicate_symbols_collapse_to_one_entry() {
    let selected = cat(&["A", "A"]);
    let artifact = assemble(&selected, 60, 1.0f64.to_bits());
    assert_eq!(artifact.entries.len(), 1);
    assert_eq!(artifact.entries[0].asset_id, "A");
}

#[test]
fn empty_selection_gives_empty_artifact() {
    let selected: Vec<String> = Vec::new();
    let artifact = assemble(&selected, 60, 1.0f64.to_bits());
    assert!(artifact.entries.is_empty());
}

#[test]
fn many_symbols_end_up_fully_sorted() {
    let selected = cat(&["D", "B", "E", "A", "C"]);
    let artifact = assemble(&selected, 60, 1.0f64.to_bits());
    let keys: Vec<&str> = artifact
        .entries
        .iter()
        .map(|e| e.asset_id.as_str())
        .collect();
    assert_eq!(keys, vec!["A", "B", "C", "D", "E"]);
}
