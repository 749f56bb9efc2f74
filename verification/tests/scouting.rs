use tft_nowcasting::analysis::TimeWindow;
use tft_nowcasting::emerging::{emerging_events, latest_summary_window};
use tft_nowcasting::model::{MatchObservation, UnitObservation};
use tft_nowcasting::scouting::{early_players_of, summarize_scouts, CompositionAnalysis};

fn observation(player_id: &str, timestamp: u64, placement: u8, champion: &str) -> MatchObservation {
    MatchObservation::new(
        player_id,
        "14.1",
        timestamp,
        placement,
        vec![UnitObservation::new(champion, 1, vec![])],
        vec![],
        vec![],
    )
}

fn history() -> Vec<MatchObservation> {
    vec![
        observation("scout", 10, 2, "Ahri"),
        observation("p-1", 20, 8, "Vi"),
        observation("p-2", 30, 7, "Vi"),
        observation("p-3", 40, 6, "Vi"),
        observation("p-4", 110, 1, "Ahri"),
        observation("p-5", 120, 2, "Ahri"),
        observation("scout", 130, 3, "Jinx"),
        observation("p-6", 140, 8, "Vi"),
        observation("p-7", 210, 1, "Jinx"),
        observation("p-8", 220, 2, "Jinx"),
        observation("scout", 230, 3, "Neeko"),
        observation("p-9", 240, 8, "Vi"),
    ]
}

#[test]
fn early_adopters_played_the_family_in_the_window_before_it_emerged() {
    let observations = history();
    let analysis = CompositionAnalysis::new(&observations, 100);
    let summaries = analysis.summarize_compositions();
    let events = emerging_events(&summaries);
    let adopters = analysis.early_adopters(&events);

    let listed: Vec<(String, String, u64, u64, u8)> = adopters
        .iter()
        .map(|a| {
            (
                a.player_id.clone(),
                a.composition.to_string(),
                a.adoption_window.start,
                a.emergence_window.start,
                a.placement,
            )
        })
        .collect();
    assert_eq!(
        listed,
        [
            ("scout".to_owned(), "Ahri".to_owned(), 0, 100, 2),
            ("scout".to_owned(), "Jinx".to_owned(), 100, 200, 3),
        ]
    );
}

#[test]
fn scouts_are_ranked_by_signals_patches_and_placement() {
    let observations = history();
    let analysis = CompositionAnalysis::new(&observations, 100);
    let summaries = analysis.summarize_compositions();
    let events = emerging_events(&summaries);
    let adopters = analysis.early_adopters(&events);

    let scouts = summarize_scouts(&adopters);

    assert_eq!(scouts.len(), 1);
    assert_eq!(scouts[0].player_id, "scout");
    assert_eq!(scouts[0].signals, 2);
    assert_eq!(scouts[0].patches, 1);
    assert_eq!(scouts[0].placement_total, 5);
}

#[test]
fn established_scouts_forecast_their_latest_board() {
    let observations = history();
    let analysis = CompositionAnalysis::new(&observations, 100);
    let summaries = analysis.summarize_compositions();
    let events = emerging_events(&summaries);
    let adopters = analysis.early_adopters(&events);
    let scouts = summarize_scouts(&adopters);

    let forecasts =
        analysis.forecast_from_scouts_in_window(&scouts, TimeWindow { start: 200, end_exclusive: 300 });
    assert_eq!(forecasts.len(), 1);
    assert_eq!(forecasts[0].patch, "14.1");
    assert_eq!(forecasts[0].composition.to_string(), "Neeko");
    assert_eq!(forecasts[0].scouts, 1);

    let none = analysis.forecast_from_scouts_in_window(&scouts, TimeWindow { start: 300, end_exclusive: 400 });
    assert!(none.is_empty());

    let one_signal = summarize_scouts(&adopters[..1]);
    assert!(analysis
        .forecast_from_scouts_in_window(&one_signal, TimeWindow { start: 200, end_exclusive: 300 })
        .is_empty());
}

#[test]
fn early_players_are_listed_per_family_and_two_signals_establish_a_scout() {
    let observations = history();
    let analysis = CompositionAnalysis::new(&observations, 100);
    let summaries = analysis.summarize_compositions();
    let events = emerging_events(&summaries);
    let adopters = analysis.early_adopters(&events);

    let ahri = events.iter().find(|e| e.composition.to_string() == "Ahri").unwrap();
    let jinx = events.iter().find(|e| e.composition.to_string() == "Jinx").unwrap();
    assert_eq!(early_players_of(&adopters, ahri), ["scout"]);
    assert_eq!(early_players_of(&adopters, jinx), ["scout"]);
    assert!(early_players_of(&adopters[..1], jinx).is_empty());

    let scouts = summarize_scouts(&adopters);
    assert!(scouts[0].is_established_scout());
    let single = summarize_scouts(&adopters[..1]);
    assert!(!single[0].is_established_scout());
}

#[test]
fn the_latest_window_is_the_last_one_observed() {
    let observations = history();
    let analysis = CompositionAnalysis::new(&observations, 100);
    let summaries = analysis.summarize_compositions();

    assert_eq!(latest_summary_window(&summaries), Some(TimeWindow { start: 200, end_exclusive: 300 }));
    assert_eq!(latest_summary_window(&[]), None);
}
