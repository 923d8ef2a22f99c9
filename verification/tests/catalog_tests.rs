use zaohelper::error::LibError;
use zaohelper::mkv::{
    catalog_base, catalog_candidate, ends_with_numbered_json, find_next_available_file,
    normalize_catalog_name,
};

#[test]
fn recognizes_numbered_json_names() {
    assert!(ends_with_numbered_json("catalog_001.json"));
    assert!(ends_with_numbered_json("catalog_1.json"));
    assert!(ends_with_numbered_json("a_b_042.json"));
    assert!(!ends_with_numbered_json("catalog.json"));
    assert!(!ends_with_numbered_json("catalog_.json"));
    assert!(!ends_with_numbered_json("catalog_001.txt"));
    assert!(!ends_with_numbered_json("001.json"));
    assert!(!ends_with_numbered_json(".json"));
}

#[test]
fn normalizes_unnumbered_names() {
    assert_eq!(normalize_catalog_name("catalog.json"), "catalog_001.json");
    assert_eq!(normalize_catalog_name("catalog"), "catalog_001.json");
    assert_eq!(normalize_catalog_name("catalog_007.json"), "catalog_007.json");
}

#[test]
fn splits_base_before_the_number() {
    assert_eq!(catalog_base("catalog_001.json"), "catalog");
    assert_eq!(catalog_base("a_b_042.json"), "a_b");
}

#[test]
fn candidate_names_are_zero_padded() {
    assert_eq!(catalog_candidate("catalog", 1), "catalog_001.json");
    assert_eq!(catalog_candidate("catalog", 42), "catalog_042.json");
    assert_eq!(catalog_candidate("catalog", 999), "catalog_999.json");
}

// Given that catalog_001.json already exists, the writer picks
// catalog_002.json; repeated calls never reuse a taken slot.
#[test]
fn next_slot_skips_existing_catalogs() {
    let taken = vec!["catalog_001.json".to_string()];
    let next = find_next_available_file("catalog.json", &taken).unwrap();
    assert_eq!(next, "catalog_002.json");

    let taken2 = vec![
        "catalog_001.json".to_string(),
        "catalog_002.json".to_string(),
    ];
    let next2 = find_next_available_file("catalog.json", &taken2).unwrap();
    assert_eq!(next2, "catalog_003.json");
}

#[test]
fn first_slot_when_nothing_taken() {
    let next = find_next_available_file("catalog.json", &vec![]).unwrap();
    assert_eq!(next, "catalog_001.json");
}

#[test]
fn numbered_input_keeps_its_base() {
    let taken = vec!["run_001.json".to_string()];
    let next = find_next_available_file("run_005.json", &taken).unwrap();
    assert_eq!(next, "run_002.json");
}

#[test]
fn exhaustion_after_999_slots() {
    let taken: Vec<String> = (1..=999).map(|i| format!("catalog_{:03}.json", i)).collect();
    let r = find_next_available_file("catalog.json", &taken);
    assert_eq!(r, Err(LibError::Exhaustion));
}
