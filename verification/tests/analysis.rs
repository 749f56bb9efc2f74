use tft_nowcasting::analysis::{most_played, summarize_compositions, CompositionSummary, TimeWindow};
use tft_nowcasting::emerging::emerging_candidates;
use tft_nowcasting::model::{MatchObservation, UnitObservation};

fn observation(
    player_id: &str,
    patch: &str,
    timestamp: u64,
    placement: u8,
    champions: &[&str],
) -> MatchObservation {
    let units = champions
        .iter()
        .map(|champion| UnitObservation::new(champion, 1, vec![]))
        .collect();

    MatchObservation::new(player_id, patch, timestamp, placement, units, vec![], vec![])
}

fn average_placement(summary: &CompositionSummary) -> f64 {
    summary.placement_total as f64 / summary.play_count as f64
}

fn top_four_rate(summary: &CompositionSummary) -> f64 {
    summary.top_four_count as f64 / summary.play_count as f64
}

fn usage_rate(summary: &CompositionSummary) -> f64 {
    summary.play_count as f64 / summary.window_play_count as f64
}

fn usage_rate_change(summary: &CompositionSummary) -> Option<f64> {
    summary.usage_rate_change.map(|change| {
        usage_rate(summary)
            - change.previous_play_count as f64 / change.previous_window_play_count as f64
    })
}

fn assert_close(actual: f64, expected: f64) {
    assert!((actual - expected).abs() < 1e-10);
}

#[test]
fn groups_reordered_boards_and_calculates_average_placement() {
    let observations = vec![
        observation("player-1", "14.1", 100, 2, &["Neeko", "Ahri"]),
        observation("player-2", "14.1", 200, 6, &["Ahri", "Neeko"]),
        observation("player-3", "14.1", 300, 1, &["Jinx", "Vi"]),
    ];

    let summaries = summarize_compositions(&observations, 300);

    assert_eq!(summaries.len(), 2);
    assert_eq!(summaries[0].patch, "14.1");
    assert_eq!(summaries[0].window.start, 0);
    assert_eq!(summaries[0].window.end_exclusive, 300);
    assert_eq!(summaries[0].play_count, 2);
    assert_eq!(average_placement(&summaries[0]), 4.0);
    assert_eq!(summaries[0].composition.to_string(), "Ahri, Neeko");
    assert_eq!(top_four_rate(&summaries[0]), 0.5);
    assert_eq!(summaries[1].patch, "14.1");
    assert_eq!(summaries[1].window.start, 300);
    assert_eq!(summaries[1].window.end_exclusive, 600);
    assert_eq!(summaries[1].play_count, 1);
    assert_eq!(average_placement(&summaries[1]), 1.0);
    assert_eq!(summaries[1].composition.to_string(), "Jinx, Vi");
    assert_eq!(top_four_rate(&summaries[1]), 1.0);
}

#[test]
fn separates_the_same_composition_by_patch_and_time_window() {
    let observations = vec![
        observation("player-1", "14.1", 10, 2, &["Ahri", "Neeko"]),
        observation("player-2", "14.1", 90, 4, &["Neeko", "Ahri"]),
        observation("player-3", "14.1", 100, 6, &["Ahri", "Neeko"]),
        observation("player-4", "14.2", 10, 1, &["Ahri", "Neeko"]),
    ];

    let summaries = summarize_compositions(&observations, 100);

    assert_eq!(summaries.len(), 3);
    assert_eq!(summaries[0].patch, "14.1");
    assert_eq!(summaries[0].window.start, 0);
    assert_eq!(summaries[0].play_count, 2);
    assert_eq!(summaries[1].patch, "14.1");
    assert_eq!(summaries[1].window.start, 100);
    assert_eq!(summaries[1].play_count, 1);
    assert_eq!(usage_rate_change(&summaries[1]), Some(0.0));
    assert_eq!(summaries[2].patch, "14.2");
    assert_eq!(summaries[2].window.start, 0);
    assert_eq!(summaries[2].play_count, 1);
    assert_eq!(usage_rate_change(&summaries[2]), None);
}

#[test]
fn current_grouping_ignores_unit_details_traits_and_augments() {
    let observations = vec![
        MatchObservation::new(
            "player-1",
            "14.1",
            10,
            2,
            vec![
                UnitObservation::new("Ahri", 1, vec![]),
                UnitObservation::new("Neeko", 2, vec!["Warmog's Armor"]),
            ],
            vec!["Arcanist"],
            vec!["Jeweled Lotus II"],
        ),
        MatchObservation::new(
            "player-2",
            "14.1",
            20,
            4,
            vec![
                UnitObservation::new("Neeko", 3, vec!["Ionic Spark"]),
                UnitObservation::new("Ahri", 3, vec!["Rabadon's Deathcap"]),
            ],
            vec!["Different Trait"],
            vec!["Different Augment"],
        ),
    ];

    let summaries = summarize_compositions(&observations, 100);

    assert_eq!(summaries.len(), 1);
    assert_eq!(summaries[0].play_count, 2);
}

#[test]
fn groups_boards_with_at_least_eighty_percent_champion_overlap() {
    let observations = vec![
        observation("player-1", "14.1", 10, 2, &["Ahri", "Jinx", "Neeko", "Vi", "Yasuo"]),
        observation("player-2", "14.1", 20, 6, &["Ahri", "Jinx", "Neeko", "Vi", "Zed"]),
    ];

    let summaries = summarize_compositions(&observations, 100);

    assert_eq!(summaries.len(), 1);
    assert_eq!(summaries[0].play_count, 2);
    assert_eq!(average_placement(&summaries[0]), 4.0);
    assert_eq!(top_four_rate(&summaries[0]), 0.5);
}

#[test]
fn keeps_boards_below_eighty_percent_overlap_separate() {
    let observations = vec![
        observation("player-1", "14.1", 10, 2, &["Ahri", "Jinx", "Neeko", "Vi", "Yasuo"]),
        observation("player-2", "14.1", 20, 6, &["Ahri", "Jinx", "Neeko", "Riven", "Zed"]),
    ];

    let summaries = summarize_compositions(&observations, 100);

    assert_eq!(summaries.len(), 2);
}

#[test]
fn uses_the_same_family_representative_across_time_windows() {
    let common_board = ["Ahri", "Jinx", "Neeko", "Vi", "Yasuo"];
    let observations = vec![
        observation("player-1", "14.1", 10, 2, &common_board),
        observation("player-2", "14.1", 110, 3, &common_board),
        observation("player-3", "14.1", 120, 4, &["Ahri", "Jinx", "Neeko", "Vi", "Zed"]),
    ];

    let summaries = summarize_compositions(&observations, 100);

    assert_eq!(summaries.len(), 2);
    assert_eq!(summaries[0].composition.to_string(), "Ahri, Jinx, Neeko, Vi, Yasuo");
    assert_eq!(summaries[1].composition, summaries[0].composition);
    assert_eq!(summaries[1].play_count, 2);
}

#[test]
fn later_popularity_does_not_relabel_an_earlier_family() {
    let early_board = ["Ahri", "Jinx", "Neeko", "Vi", "Yasuo"];
    let later_board = ["Ahri", "Jinx", "Neeko", "Vi", "Zed"];
    let observations = vec![
        observation("player-1", "14.1", 10, 2, &early_board),
        observation("player-2", "14.1", 110, 3, &later_board),
        observation("player-3", "14.1", 120, 4, &later_board),
        observation("player-4", "14.1", 130, 5, &later_board),
    ];

    let summaries = summarize_compositions(&observations, 100);

    assert_eq!(summaries[0].composition.to_string(), "Ahri, Jinx, Neeko, Vi, Yasuo");
    assert_eq!(summaries[1].composition, summaries[0].composition);
}

#[test]
fn calculates_usage_rate_and_change_between_populated_windows() {
    let observations = vec![
        observation("player-1", "14.1", 10, 1, &["Ahri"]),
        observation("player-2", "14.1", 20, 2, &["Ahri"]),
        observation("player-3", "14.1", 30, 3, &["Jinx"]),
        observation("player-4", "14.1", 110, 4, &["Ahri"]),
        observation("player-5", "14.1", 120, 5, &["Jinx"]),
        observation("player-6", "14.1", 130, 6, &["Jinx"]),
        observation("player-7", "14.1", 140, 7, &["Jinx"]),
    ];

    let summaries = summarize_compositions(&observations, 100);

    assert_close(usage_rate(&summaries[0]), 2.0 / 3.0);
    assert_eq!(usage_rate_change(&summaries[0]), None);
    assert_close(usage_rate(&summaries[1]), 1.0 / 3.0);
    assert_eq!(usage_rate_change(&summaries[1]), None);
    assert_close(usage_rate(&summaries[2]), 3.0 / 4.0);
    assert_close(
        usage_rate_change(&summaries[2]).expect("the second window should have a comparison"),
        5.0 / 12.0,
    );
    assert_close(usage_rate(&summaries[3]), 1.0 / 4.0);
    assert_close(
        usage_rate_change(&summaries[3]).expect("the second window should have a comparison"),
        -5.0 / 12.0,
    );
}

#[test]
fn treats_a_family_missing_from_the_previous_window_as_zero_usage() {
    let observations = vec![
        observation("player-1", "14.1", 10, 1, &["Ahri"]),
        observation("player-2", "14.1", 110, 2, &["Jinx"]),
    ];

    let summaries = summarize_compositions(&observations, 100);

    assert_eq!(usage_rate_change(&summaries[0]), None);
    assert_eq!(usage_rate_change(&summaries[1]), Some(1.0));
}

#[test]
fn emerging_candidates_require_growth_performance_and_multiple_plays() {
    let observations = vec![
        observation("player-1", "14.1", 10, 1, &["Ahri"]),
        observation("player-2", "14.1", 20, 2, &["Jinx"]),
        observation("player-3", "14.1", 30, 3, &["Jinx"]),
        observation("player-4", "14.1", 40, 4, &["Jinx"]),
        observation("player-5", "14.1", 110, 1, &["Ahri"]),
        observation("player-6", "14.1", 120, 2, &["Ahri"]),
        observation("player-7", "14.1", 130, 3, &["Jinx"]),
        observation("player-8", "14.1", 140, 4, &["Jinx"]),
        observation("player-9", "14.1", 150, 1, &["Neeko"]),
        observation("player-10", "14.1", 160, 7, &["Vi"]),
        observation("player-11", "14.1", 170, 8, &["Vi"]),
    ];
    let summaries = summarize_compositions(&observations, 100);

    let candidates = emerging_candidates(&summaries);

    assert_eq!(candidates.len(), 1);
    assert_eq!(candidates[0].composition.to_string(), "Ahri");
    assert_eq!(candidates[0].play_count, 2);
    assert_eq!(average_placement(candidates[0]), 1.5);
}

#[test]
fn empty_input_produces_no_summaries() {
    assert!(summarize_compositions(&[], 100).is_empty());
}

#[test]
fn a_timestamp_lies_in_its_window() {
    let window = TimeWindow::containing(1_234, 100);
    assert_eq!(window, TimeWindow { start: 1_200, end_exclusive: 1_300 });
    assert_eq!(TimeWindow::containing(1_299, 100), window);
    assert_ne!(TimeWindow::containing(1_300, 100), window);
    assert_eq!(TimeWindow::containing(0, 7), TimeWindow { start: 0, end_exclusive: 7 });
}

#[test]
fn play_counts_of_a_window_add_up_to_its_total() {
    let observations = vec![
        observation("player-1", "14.1", 10, 1, &["Ahri"]),
        observation("player-2", "14.1", 20, 2, &["Ahri"]),
        observation("player-3", "14.1", 30, 3, &["Jinx"]),
        observation("player-4", "14.2", 40, 4, &["Jinx"]),
    ];

    let summaries = summarize_compositions(&observations, 100);

    assert_eq!(summaries.len(), 3);
    for summary in &summaries {
        assert!(summary.play_count <= summary.window_play_count);
    }
    assert_eq!(summaries[0].window_play_count, 3);
    assert_eq!(summaries[0].play_count + summaries[1].play_count, 3);
    assert_eq!(summaries[2].window_play_count, 1);
}

#[test]
fn lists_the_most_played_families_first() {
    let observations = vec![
        observation("player-1", "14.2", 10, 1, &["Ahri"]),
        observation("player-2", "14.1", 20, 2, &["Jinx"]),
        observation("player-3", "14.1", 30, 3, &["Jinx"]),
        observation("player-4", "14.1", 40, 4, &["Ahri"]),
    ];

    let summaries = summarize_compositions(&observations, 100);
    let ranked: Vec<String> = most_played(&summaries)
        .into_iter()
        .map(|summary| format!("{} {}", summary.patch, summary.composition.to_string()))
        .collect();

    assert_eq!(ranked, ["14.1 Jinx", "14.1 Ahri", "14.2 Ahri"]);
}
