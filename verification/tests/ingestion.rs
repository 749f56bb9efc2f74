use tft_nowcasting::api::{ChallengerLeague, LeagueEntry};
use tft_nowcasting::ingestion::{
    ingestion_report, is_previous_standard_set, select_highest_lp_players, unique_match_ids,
    BackfillProgress, IngestionConfig,
};

fn entry(puuid: &str, league_points: i32) -> LeagueEntry {
    LeagueEntry { puuid: puuid.to_owned(), league_points }
}

#[test]
fn only_an_older_standard_ranked_match_ends_a_set_backfill() {
    assert!(is_previous_standard_set(17, 16, 1100));
    assert!(!is_previous_standard_set(17, 15, 6100));
    assert!(!is_previous_standard_set(17, 16, 1160));
    assert!(!is_previous_standard_set(17, 17, 1100));
}

#[test]
fn selects_players_with_the_highest_league_points() {
    let mut ladder = ChallengerLeague {
        entries: vec![entry("player-a", 100), entry("player-b", 300), entry("player-c", 200)],
    };

    let selected = select_highest_lp_players(&mut ladder.entries, 2);
    let selected_ids: Vec<&str> = selected.iter().map(|entry| entry.puuid.as_str()).collect();

    assert_eq!(selected_ids, ["player-b", "player-c"]);
}

#[test]
fn equal_league_points_keep_the_ladder_order() {
    let mut entries = vec![entry("a", 10), entry("b", 20), entry("c", 10), entry("d", 20)];

    let selected = select_highest_lp_players(&mut entries, 10);
    let ids: Vec<&str> = selected.iter().map(|entry| entry.puuid.as_str()).collect();

    assert_eq!(ids, ["b", "d", "a", "c"]);
    assert_eq!(select_highest_lp_players(&mut entries, 0).len(), 0);
}

#[test]
fn the_default_configuration_follows_three_players() {
    let config = IngestionConfig::default();
    assert_eq!(config.player_limit, 3);
    assert_eq!(config.matches_per_player, 5);
}

#[test]
fn match_ids_are_merged_without_repeats() {
    let histories = vec![
        vec!["JP1_3".to_owned(), "JP1_1".to_owned()],
        vec!["JP1_2".to_owned(), "JP1_3".to_owned()],
        vec![],
    ];

    assert_eq!(unique_match_ids(&histories), ["JP1_1", "JP1_2", "JP1_3"]);
    assert!(unique_match_ids(&vec![]).is_empty());
}

#[test]
fn an_ingestion_report_counts_downloads_cache_hits_and_observations() {
    let report = ingestion_report("data/raw/ladders/jp1/1.json".to_owned(), 3, &vec![(true, 8), (false, 8), (true, 7)]);

    assert_eq!(report.ladder_snapshot, "data/raw/ladders/jp1/1.json");
    assert_eq!(report.players_considered, 3);
    assert_eq!(report.unique_matches, 3);
    assert_eq!(report.downloaded_matches, 2);
    assert_eq!(report.cached_matches, 1);
    assert_eq!(report.observations, 23);
}

#[test]
fn a_backfill_counts_each_match_once_and_stops_at_an_earlier_set() {
    let mut progress = BackfillProgress::new();
    progress.page_requested();

    let first = "JP1_1".to_owned();
    assert!(progress.is_new_match(&first));
    assert!(!progress.record_match(&first, true, 17, 1100, 17));
    assert!(!progress.is_new_match(&first));
    assert!(!progress.record_match(&first, false, 17, 1100, 17));

    let second = "JP1_2".to_owned();
    assert!(progress.is_new_match(&second));
    assert!(progress.record_match(&second, false, 16, 1100, 17));
    assert_eq!(progress.seen.len(), progress.downloaded_matches + progress.cached_matches);

    assert!(!BackfillProgress::continue_history(100, true));
    assert!(!BackfillProgress::continue_history(99, false));
    assert!(BackfillProgress::continue_history(100, false));

    let report = progress.report("ladder.json".to_owned(), 1);
    assert_eq!(report.players_considered, 1);
    assert_eq!(report.pages_requested, 1);
    assert_eq!(report.unique_matches, 2);
    assert_eq!(report.target_set_ranked_matches, 1);
    assert_eq!(report.downloaded_matches, 1);
    assert_eq!(report.cached_matches, 1);
}

#[test]
fn paging_moves_on_by_the_page_length_until_a_short_or_final_page() {
    assert_eq!(BackfillProgress::next_start(0, 100, false), Some(100));
    assert_eq!(BackfillProgress::next_start(200, 100, false), Some(300));
    assert_eq!(BackfillProgress::next_start(200, 100, true), None);
    assert_eq!(BackfillProgress::next_start(200, 42, false), None);
    assert_eq!(BackfillProgress::next_start(0, 0, false), None);
    assert!(!BackfillProgress::continue_history(0, false));
}
