use tft_nowcasting::storage::{decimal_text, join_path, DataStore};

#[test]
fn match_files_sit_under_the_region() {
    let store = DataStore::new("data");
    assert_eq!(store.match_path("asia", "JP1_123"), "data/raw/matches/asia/JP1_123.json");
    assert_eq!(store.root(), "data");
}

#[test]
fn ladder_snapshots_are_named_by_time() {
    let store = DataStore::new("data/");
    assert_eq!(
        store.ladder_snapshot_path("jp1", 1_785_900_000_000),
        "data/raw/ladders/jp1/1785900000000.json"
    );
}

#[test]
fn joining_paths_follows_separator_rules() {
    assert_eq!(join_path("", "raw"), "raw");
    assert_eq!(join_path("a/", "b"), "a/b");
    assert_eq!(join_path("a", "b"), "a/b");
    assert_eq!(join_path("a", "/b"), "/b");
}

#[test]
fn decimal_digits() {
    assert_eq!(decimal_text(0), "0");
    assert_eq!(decimal_text(7), "7");
    assert_eq!(decimal_text(10), "10");
    assert_eq!(decimal_text(u128::MAX), u128::MAX.to_string());
}
