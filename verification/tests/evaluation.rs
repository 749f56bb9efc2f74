use tft_nowcasting::evaluation::{
    evaluate_historical_forecasts, evaluate_historical_forecasts_with_analysis, MethodEvaluation,
};
use tft_nowcasting::model::{MatchObservation, UnitObservation};
use tft_nowcasting::scouting::CompositionAnalysis;

fn hit_rate(method: &MethodEvaluation) -> f64 {
    if method.predictions == 0 {
        0.0
    } else {
        method.hits as f64 / method.predictions as f64
    }
}

fn coverage(method: &MethodEvaluation, event_windows: usize) -> f64 {
    if event_windows == 0 {
        0.0
    } else {
        method.predictions as f64 / event_windows as f64
    }
}

fn observation(player_id: &str, timestamp: u64, placement: u8, champion: &str) -> MatchObservation {
    MatchObservation::new(
        player_id,
        "14.1",
        timestamp,
        placement,
        vec![UnitObservation::new(champion, 1, vec![])],
        vec![],
        vec![],
    )
}

#[test]
fn empty_dataset_produces_an_empty_evaluation() {
    let evaluation = evaluate_historical_forecasts(&[], 100);

    assert_eq!(evaluation.event_windows, 0);
    assert_eq!(hit_rate(&evaluation.scout), 0.0);
    assert_eq!(coverage(&evaluation.scout, evaluation.event_windows), 0.0);
}

#[test]
fn replays_scout_forecasts_without_using_the_target_window() {
    let observations = vec![
        observation("scout", 10, 2, "Ahri"),
        observation("p-1", 20, 8, "Vi"),
        observation("p-2", 30, 7, "Vi"),
        observation("p-3", 40, 6, "Vi"),
        observation("p-4", 110, 1, "Ahri"),
        observation("p-5", 120, 2, "Ahri"),
        observation("scout", 130, 3, "Jinx"),
        observation("p-6", 140, 8, "Vi"),
        observation("p-7", 210, 1, "Jinx"),
        observation("p-8", 220, 2, "Jinx"),
        observation("scout", 230, 3, "Neeko"),
        observation("p-9", 240, 8, "Vi"),
        observation("p-10", 310, 1, "Neeko"),
        observation("p-11", 320, 2, "Neeko"),
        observation("p-12", 330, 7, "Vi"),
        observation("p-13", 340, 8, "Vi"),
    ];

    let evaluation = evaluate_historical_forecasts(&observations, 100);
    let analysis = CompositionAnalysis::new(&observations, 100);
    assert_eq!(evaluation, evaluate_historical_forecasts_with_analysis(&analysis));

    assert_eq!(evaluation.event_windows, 3);
    assert_eq!(evaluation.scout.predictions, 1);
    assert_eq!(evaluation.scout.hits, 1);
    assert_eq!(hit_rate(&evaluation.scout), 1.0);
    assert_eq!(coverage(&evaluation.scout, evaluation.event_windows), 1.0 / 3.0);
    assert_eq!(evaluation.popularity.predictions, 3);
    assert_eq!(evaluation.popularity.hits, 0);
    assert_eq!(evaluation.performance.predictions, 3);
    assert_eq!(evaluation.performance.hits, 0);
}

#[test]
fn baselines_hit_when_the_current_favourite_keeps_growing() {
    let observations = vec![
        observation("p-1", 10, 1, "Ahri"),
        observation("p-2", 20, 2, "Ahri"),
        observation("p-3", 30, 7, "Vi"),
        observation("p-4", 110, 1, "Ahri"),
        observation("p-5", 120, 2, "Ahri"),
        observation("p-6", 130, 3, "Ahri"),
        observation("p-7", 140, 8, "Vi"),
        observation("p-8", 150, 8, "Vi"),
        observation("p-9", 160, 8, "Vi"),
        observation("p-10", 170, 8, "Vi"),
    ];

    let evaluation = evaluate_historical_forecasts(&observations, 100);

    assert_eq!(evaluation.event_windows, 0);
    assert_eq!(evaluation.popularity, MethodEvaluation::default());

    let growing = vec![
        observation("p-1", 10, 1, "Ahri"),
        observation("p-2", 20, 2, "Ahri"),
        observation("p-3", 30, 7, "Vi"),
        observation("p-4", 40, 7, "Vi"),
        observation("p-5", 50, 7, "Vi"),
        observation("p-6", 110, 1, "Ahri"),
        observation("p-7", 120, 2, "Ahri"),
        observation("p-8", 130, 3, "Ahri"),
        observation("p-9", 140, 8, "Vi"),
    ];

    let evaluation = evaluate_historical_forecasts(&growing, 100);

    assert_eq!(evaluation.event_windows, 1);
    assert_eq!(evaluation.scout, MethodEvaluation { predictions: 0, hits: 0 });
    assert_eq!(evaluation.popularity, MethodEvaluation { predictions: 1, hits: 0 });
    assert_eq!(evaluation.performance, MethodEvaluation { predictions: 1, hits: 1 });
}

#[test]
fn forecasts_ignore_what_comes_after_the_forecast_window() {
    let earlier = vec![
        observation("p-1", 10, 1, "Ahri"),
        observation("p-2", 20, 2, "Ahri"),
        observation("p-3", 30, 7, "Vi"),
        observation("p-4", 40, 7, "Vi"),
        observation("p-5", 50, 7, "Vi"),
        observation("p-6", 110, 1, "Ahri"),
        observation("p-7", 120, 2, "Ahri"),
        observation("p-8", 130, 3, "Ahri"),
        observation("p-9", 140, 8, "Vi"),
    ];
    let mut later = earlier.clone();
    later.push(observation("p-10", 210, 8, "Jinx"));
    later.push(observation("p-11", 220, 8, "Jinx"));

    let before = evaluate_historical_forecasts(&earlier, 100);
    let after = evaluate_historical_forecasts(&later, 100);

    assert_eq!(before, after);
    assert_eq!(after.event_windows, 1);
    assert_eq!(after.popularity, MethodEvaluation { predictions: 1, hits: 0 });
    assert_eq!(after.performance, MethodEvaluation { predictions: 1, hits: 1 });
}

#[test]
fn scout_forecasts_ignore_later_windows() {
    let earlier = vec![
        observation("scout", 10, 2, "Ahri"),
        observation("p-1", 20, 8, "Vi"),
        observation("p-2", 30, 7, "Vi"),
        observation("p-3", 40, 6, "Vi"),
        observation("p-4", 110, 1, "Ahri"),
        observation("p-5", 120, 2, "Ahri"),
        observation("scout", 130, 3, "Jinx"),
        observation("p-6", 140, 8, "Vi"),
        observation("p-7", 210, 1, "Jinx"),
        observation("p-8", 220, 2, "Jinx"),
        observation("scout", 230, 3, "Neeko"),
        observation("p-9", 240, 8, "Vi"),
        observation("p-10", 310, 1, "Neeko"),
        observation("p-11", 320, 2, "Neeko"),
        observation("p-12", 330, 7, "Vi"),
        observation("p-13", 340, 8, "Vi"),
    ];
    let mut later = earlier.clone();
    later.push(observation("scout", 510, 8, "Zed"));
    later.push(observation("p-14", 520, 8, "Zed"));

    let before = evaluate_historical_forecasts(&earlier, 100);
    let after = evaluate_historical_forecasts(&later, 100);

    assert_eq!(before, after);
    assert_eq!(after.event_windows, 3);
    assert_eq!(after.scout, MethodEvaluation { predictions: 1, hits: 1 });
    assert_eq!(after.popularity, MethodEvaluation { predictions: 3, hits: 0 });
    assert_eq!(after.performance, MethodEvaluation { predictions: 3, hits: 0 });
}
