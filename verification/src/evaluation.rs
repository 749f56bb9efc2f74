//! Historical replay of scout forecasts against simple baselines.
use vstd::prelude::*;

use crate::analysis::{
    CompositionSummary, SummaryView, TimeWindow, all_windows_fit, covers_observations, summarizes, summary_order,
    summary_view, summary_views, lemma_group_counts_before, lemma_plays_witness, lists_summary, group_of, window_of,
};
use crate::families::seen_before;
use crate::emerging::{emerging_events, emerging_in, is_emerging};
use crate::forecast::{
    ScoutForecast, backing, forecast_order, forecasts_board, lists_forecast, picks, board_at,
    scout_test, is_scout,
};
use crate::model::{Composition, MatchObservation};
use crate::scouting::{
    AdopterView, CompositionAnalysis, EarlyAdopter, adopter_views, all_early_games, signal_count,
    summarize_scouts, records_scout, lists_scout,
};
use crate::text::{Precedence, compare_text, texts_before};

verus! {

broadcast use vstd::seq_lib::group_seq_properties;

/// How often a method made a prediction, and how often it was right.
#[derive(Debug, Clone, Copy, PartialEq, Eq, Structural)]
pub struct MethodEvaluation {
    pub predictions: usize,
    pub hits: usize,
}

impl Default for MethodEvaluation {
    fn default() -> (r: Self)
        ensures
            r.predictions == 0,
            r.hits == 0,
    {
        MethodEvaluation { predictions: 0, hits: 0 }
    }
}

impl MethodEvaluation {
    /// Counts a prediction, if there is one, and a hit when it is among the
    /// targets.
    fn record(&mut self, prediction: Option<&Composition>, targets: &Vec<&Composition>)
        requires
            old(self).predictions < usize::MAX,
            old(self).hits < usize::MAX,
        ensures
            final(self).predictions == old(self).predictions + if prediction is Some { 1int } else { 0int },
            final(self).hits == old(self).hits + if prediction matches Some(c) && lists_target(targets@, c@) {
                1int
            } else {
                0int
            },
    {
        let ghost hits = self.hits;
        if let Some(chosen) = prediction {
            self.predictions = self.predictions + 1;
            let ghost predictions = self.predictions;
            let mut j: usize = 0;
            while j < targets.len()
                invariant
                    0 <= j <= targets@.len(),
                    self.predictions == predictions,
                    predictions == old(self).predictions + 1,
                    self.hits == hits,
                    hits == old(self).hits,
                    hits < usize::MAX,
                    prediction == Some(chosen),
                    forall|q: int| 0 <= q < j ==> #[trigger] targets@[q]@ != chosen@,
                decreases targets@.len() - j,
            {
                if let Precedence::Same = targets[j].compare(chosen) {
                    self.hits = self.hits + 1;
                    return;
                }
                j = j + 1;
            }
        }
    }
}

/// The counts of a historical replay: the windows in which some family
/// emerged, and the record of each forecasting method in them.
#[derive(Debug, Clone, Copy, PartialEq, Eq, Structural)]
pub struct HistoricalForecastEvaluation {
    pub event_windows: usize,
    pub scout: MethodEvaluation,
    pub popularity: MethodEvaluation,
    pub performance: MethodEvaluation,
}

impl Default for HistoricalForecastEvaluation {
    fn default() -> (r: Self)
        ensures
            r.event_windows == 0,
            r.scout == (MethodEvaluation { predictions: 0, hits: 0 }),
            r.popularity == (MethodEvaluation { predictions: 0, hits: 0 }),
            r.performance == (MethodEvaluation { predictions: 0, hits: 0 }),
    {
        HistoricalForecastEvaluation {
            event_windows: 0,
            scout: MethodEvaluation { predictions: 0, hits: 0 },
            popularity: MethodEvaluation { predictions: 0, hits: 0 },
            performance: MethodEvaluation { predictions: 0, hits: 0 },
        }
    }
}

/// The summaries that composition analysis gives for the observations.
pub open spec fn analysis_summaries(obs: Seq<MatchObservation>, window_size: u64, s: Seq<CompositionSummary>) -> bool {
    &&& crate::sorting::strictly_ordered(s, summary_order())
    &&& forall|i: int| 0 <= i < s.len() ==> summarizes(obs, window_size, #[trigger] s[i])
    &&& covers_observations(obs, window_size, s)
}

/// Event `i` opens the run of events of its patch and window.
pub open spec fn opens_window(events: Seq<&CompositionSummary>, i: int) -> bool {
    i == 0 || events[i - 1].patch@ != events[i].patch@ || events[i - 1].window != events[i].window
}

/// Family `c` emerged in patch `p` and window `t`.
pub open spec fn is_target(events: Seq<&CompositionSummary>, p: Seq<char>, t: TimeWindow, c: Seq<Seq<char>>) -> bool {
    exists|j: int|
        0 <= j < events.len() && #[trigger] events[j].composition@ == c && events[j].patch@ == p
            && events[j].window == t
}

/// The window a forecast for an event is made in: the previous populated
/// window of its patch.
pub open spec fn forecast_window(e: CompositionSummary) -> TimeWindow {
    match e.usage_rate_change {
        Some(c) => c.previous_window,
        None => e.window,
    }
}

/// The early game emerged by the end of window `f`.
pub open spec fn emerged_by(f: TimeWindow) -> spec_fn(AdopterView) -> bool {
    |a: AdopterView| a.4.end_exclusive <= f.end_exclusive
}

/// The early games of families that emerged by the end of window `f`.
pub open spec fn early_games_by(
    obs: Seq<MatchObservation>,
    window_size: u64,
    events: Seq<&CompositionSummary>,
    f: TimeWindow,
) -> Seq<AdopterView> {
    all_early_games(obs, window_size, events).filter(emerged_by(f))
}

/// Players with two or more of those early games are established scouts.
pub open spec fn established_by(
    obs: Seq<MatchObservation>,
    window_size: u64,
    events: Seq<&CompositionSummary>,
    f: TimeWindow,
) -> spec_fn(Seq<char>) -> bool {
    |q: Seq<char>|
        signal_count(
            early_games_by(obs, window_size, events, f),
            q,
            early_games_by(obs, window_size, events, f).len() as int,
        ) >= 2
}

/// `c` is the board of patch `p` that the most scouts last played in `f`,
/// alphabetically first among equals.
pub open spec fn is_top_board(
    obs: Seq<MatchObservation>,
    window_size: u64,
    est: spec_fn(Seq<char>) -> bool,
    f: TimeWindow,
    p: Seq<char>,
    c: Seq<Seq<char>>,
) -> bool {
    let n = obs.len() as int;
    &&& backing(obs, window_size, est, f, (p, c), n) > 0
    &&& forall|c2: Seq<Seq<char>>|
        #[trigger] backing(obs, window_size, est, f, (p, c2), n) > 0 && c2 != c ==> backing(
            obs,
            window_size,
            est,
            f,
            (p, c),
            n,
        ) > backing(obs, window_size, est, f, (p, c2), n) || (backing(obs, window_size, est, f, (p, c), n)
            == backing(obs, window_size, est, f, (p, c2), n) && texts_before(c, c2))
}

/// The scouts' forecast for patch `p` made in window `f`: the top board that
/// the established scouts, as known by the end of `f`, last played in it.
pub open spec fn scout_forecast(
    obs: Seq<MatchObservation>,
    window_size: u64,
    events: Seq<&CompositionSummary>,
    p: Seq<char>,
    f: TimeWindow,
) -> Option<Seq<Seq<char>>> {
    let est = established_by(obs, window_size, events, f);
    if exists|c: Seq<Seq<char>>| is_top_board(obs, window_size, est, f, p, c) {
        Some(choose|c: Seq<Seq<char>>| is_top_board(obs, window_size, est, f, p, c))
    } else {
        None
    }
}

/// The scouts' forecast for the patch of event `i`, made in its forecast
/// window.
pub open spec fn scout_prediction(
    obs: Seq<MatchObservation>,
    window_size: u64,
    events: Seq<&CompositionSummary>,
    i: int,
) -> Option<Seq<Seq<char>>> {
    scout_forecast(obs, window_size, events, events[i].patch@, forecast_window(*events[i]))
}

/// `a` ranks ahead of `b` by plays (most first), then composition.
pub open spec fn more_played(a: CompositionSummary, b: CompositionSummary) -> bool {
    a.play_count > b.play_count || (a.play_count == b.play_count && texts_before(a.composition@, b.composition@))
}

/// Summary `j` is of patch `p` and window `f`, and none of them ranks ahead
/// of it by plays.
pub open spec fn is_most_played_at(s: Seq<CompositionSummary>, p: Seq<char>, f: TimeWindow, j: int) -> bool {
    &&& 0 <= j < s.len()
    &&& s[j].patch@ == p
    &&& s[j].window == f
    &&& forall|j2: int|
        0 <= j2 < s.len() && #[trigger] s[j2].patch@ == p && s[j2].window == f ==> !more_played(s[j2], s[j])
}

/// The popularity baseline: the most played family of the patch in `f`.
pub open spec fn popularity_prediction(s: Seq<CompositionSummary>, p: Seq<char>, f: TimeWindow) -> Option<Seq<Seq<char>>> {
    if exists|j: int| is_most_played_at(s, p, f, j) {
        Some(s[choose|j: int| is_most_played_at(s, p, f, j)].composition@)
    } else {
        None
    }
}

/// `a` ranks ahead of `b` by average placement (best first), then plays
/// (most first), then composition.
pub open spec fn placed_ahead(a: CompositionSummary, b: CompositionSummary) -> bool {
    let x = a.placement_total * b.play_count;
    let y = b.placement_total * a.play_count;
    ||| x < y
    ||| x == y && a.play_count > b.play_count
    ||| x == y && a.play_count == b.play_count && texts_before(a.composition@, b.composition@)
}

/// Summary `j` is of patch `p` and window `f` with two or more plays, and
/// none of those ranks ahead of it by placement.
pub open spec fn is_best_placed_at(s: Seq<CompositionSummary>, p: Seq<char>, f: TimeWindow, j: int) -> bool {
    &&& 0 <= j < s.len()
    &&& s[j].patch@ == p
    &&& s[j].window == f
    &&& s[j].play_count >= 2
    &&& forall|j2: int|
        0 <= j2 < s.len() && #[trigger] s[j2].patch@ == p && s[j2].window == f && s[j2].play_count >= 2
            ==> !placed_ahead(s[j2], s[j])
}

/// The performance baseline: the best-placed family of the patch in `f`
/// among those played at least twice.
pub open spec fn performance_prediction(s: Seq<CompositionSummary>, p: Seq<char>, f: TimeWindow) -> Option<Seq<Seq<char>>> {
    if exists|j: int| is_best_placed_at(s, p, f, j) {
        Some(s[choose|j: int| is_best_placed_at(s, p, f, j)].composition@)
    } else {
        None
    }
}

pub open spec fn scout_predictions(
    obs: Seq<MatchObservation>,
    window_size: u64,
    events: Seq<&CompositionSummary>,
) -> spec_fn(int) -> Option<Seq<Seq<char>>> {
    |i: int| scout_prediction(obs, window_size, events, i)
}

pub open spec fn popularity_predictions(
    s: Seq<CompositionSummary>,
    events: Seq<&CompositionSummary>,
) -> spec_fn(int) -> Option<Seq<Seq<char>>> {
    |i: int| popularity_prediction(s, events[i].patch@, forecast_window(*events[i]))
}

pub open spec fn performance_predictions(
    s: Seq<CompositionSummary>,
    events: Seq<&CompositionSummary>,
) -> spec_fn(int) -> Option<Seq<Seq<char>>> {
    |i: int| performance_prediction(s, events[i].patch@, forecast_window(*events[i]))
}

/// The number of event windows among the first `n` events.
pub open spec fn window_count(events: Seq<&CompositionSummary>, n: int) -> nat
    decreases n,
{
    if n <= 0 {
        0
    } else {
        window_count(events, n - 1) + if opens_window(events, n - 1) {
            1nat
        } else {
            0nat
        }
    }
}

/// The number of event windows among the first `n` events with a prediction.
pub open spec fn prediction_count(
    events: Seq<&CompositionSummary>,
    predict: spec_fn(int) -> Option<Seq<Seq<char>>>,
    n: int,
) -> nat
    decreases n,
{
    if n <= 0 {
        0
    } else {
        prediction_count(events, predict, n - 1) + if opens_window(events, n - 1) && predict(n - 1) is Some {
            1nat
        } else {
            0nat
        }
    }
}

/// Whether the prediction for event `i` names a family that emerged in its
/// window.
pub open spec fn is_hit(events: Seq<&CompositionSummary>, predict: spec_fn(int) -> Option<Seq<Seq<char>>>, i: int) -> bool {
    match predict(i) {
        Some(c) => is_target(events, events[i].patch@, events[i].window, c),
        None => false,
    }
}

/// The number of event windows among the first `n` events with a correct
/// prediction.
pub open spec fn hit_count(
    events: Seq<&CompositionSummary>,
    predict: spec_fn(int) -> Option<Seq<Seq<char>>>,
    n: int,
) -> nat
    decreases n,
{
    if n <= 0 {
        0
    } else {
        hit_count(events, predict, n - 1) + if opens_window(events, n - 1) && is_hit(events, predict, n - 1) {
            1nat
        } else {
            0nat
        }
    }
}

/// `m` records the predictions and hits of `predict` over the first `n`
/// events.
pub open spec fn tallies_method(
    events: Seq<&CompositionSummary>,
    predict: spec_fn(int) -> Option<Seq<Seq<char>>>,
    m: MethodEvaluation,
    n: int,
) -> bool {
    &&& m.predictions == prediction_count(events, predict, n)
    &&& m.hits == hit_count(events, predict, n)
}

/// `r` is the replay of the first `n` emerging summaries of `s`.
pub open spec fn evaluates_upto(
    obs: Seq<MatchObservation>,
    window_size: u64,
    s: Seq<CompositionSummary>,
    r: HistoricalForecastEvaluation,
    n: int,
) -> bool {
    let events = emerging_in(s);
    &&& r.event_windows == window_count(events, n)
    &&& tallies_method(events, scout_predictions(obs, window_size, events), r.scout, n)
    &&& tallies_method(events, popularity_predictions(s, events), r.popularity, n)
    &&& tallies_method(events, performance_predictions(s, events), r.performance, n)
}

/// `r` is the replay over all emerging summaries of `s`.
pub open spec fn evaluates(
    obs: Seq<MatchObservation>,
    window_size: u64,
    s: Seq<CompositionSummary>,
    r: HistoricalForecastEvaluation,
) -> bool {
    evaluates_upto(obs, window_size, s, r, emerging_in(s).len() as int)
}

proof fn lemma_counts_bounded(events: Seq<&CompositionSummary>, predict: spec_fn(int) -> Option<Seq<Seq<char>>>, n: int)
    requires
        0 <= n,
    ensures
        window_count(events, n) <= n,
        prediction_count(events, predict, n) <= n,
        hit_count(events, predict, n) <= n,
    decreases n,
{
    if n > 0 {
        lemma_counts_bounded(events, predict, n - 1);
    }
}

/// Family `c` emerged in patch `p` and window `t` among the first `n` events.
spec fn emerged_among(events: Seq<&CompositionSummary>, p: Seq<char>, t: TimeWindow, c: Seq<Seq<char>>, n: int) -> bool {
    exists|j: int|
        0 <= j < n && #[trigger] events[j].composition@ == c && events[j].patch@ == p && events[j].window == t
}

spec fn lists_target(targets: Seq<&Composition>, c: Seq<Seq<char>>) -> bool {
    exists|j: int| 0 <= j < targets.len() && #[trigger] targets[j]@ == c
}

/// The families that emerged in patch `patch` and window `window`.
fn targets_of<'b>(events: &Vec<&'b CompositionSummary>, patch: &String, window: TimeWindow) -> (targets: Vec<&'b Composition>)
    ensures
        forall|c: Seq<Seq<char>>| lists_target(targets@, c) <==> is_target(events@, patch@, window, c),
{
    let mut targets: Vec<&Composition> = Vec::new();
    let mut i: usize = 0;
    while i < events.len()
        invariant
            0 <= i <= events@.len(),
            forall|j: int| 0 <= j < targets@.len() ==> emerged_among(events@, patch@, window, (#[trigger] targets@[j])@, i as int),
            forall|q: int|
                0 <= q < i && (#[trigger] events@[q]).patch@ == patch@ && events@[q].window == window ==> lists_target(
                    targets@,
                    events@[q].composition@,
                ),
        decreases events@.len() - i,
    {
        let event = events[i];
        let ghost before = targets@;
        if event.window == window {
            if let Precedence::Same = compare_text(event.patch.as_str(), patch.as_str()) {
                targets.push(&event.composition);
                proof {
                    assert(targets@[before.len() as int]@ == events@[i as int].composition@);
                }
            }
        }
        proof {
            assert forall|j: int| 0 <= j < targets@.len() implies emerged_among(events@, patch@, window, (#[trigger] targets@[j])@, i + 1) by {
                if j < before.len() {
                    assert(targets@[j] == before[j]);
                    assert(emerged_among(events@, patch@, window, before[j]@, i as int));
                    let q = choose|q: int|
                        0 <= q < i && #[trigger] events@[q].composition@ == before[j]@ && events@[q].patch@ == patch@
                            && events@[q].window == window;
                    assert(events@[q].composition@ == targets@[j]@);
                } else {
                    assert(events@[i as int].composition@ == targets@[j]@);
                }
            }
            assert forall|q: int|
                0 <= q < i + 1 && (#[trigger] events@[q]).patch@ == patch@ && events@[q].window == window implies lists_target(
                    targets@,
                    events@[q].composition@,
                ) by {
                if q < i {
                    let j = choose|j: int| 0 <= j < before.len() && #[trigger] before[j]@ == events@[q].composition@;
                    assert(targets@[j] == before[j]);
                } else {
                    assert(targets@[before.len() as int]@ == events@[q].composition@);
                }
            }
        }
        i = i + 1;
    }
    proof {
        assert forall|c: Seq<Seq<char>>| lists_target(targets@, c) implies is_target(events@, patch@, window, c) by {
            let j = choose|j: int| 0 <= j < targets@.len() && #[trigger] targets@[j]@ == c;
            assert(emerged_among(events@, patch@, window, targets@[j]@, events@.len() as int));
        }
        assert forall|c: Seq<Seq<char>>| is_target(events@, patch@, window, c) implies lists_target(targets@, c) by {
            let q = choose|q: int|
                0 <= q < events@.len() && #[trigger] events@[q].composition@ == c && events@[q].patch@ == patch@
                    && events@[q].window == window;
            assert(events@[q].patch@ == patch@);
        }
    }
    targets
}

/// The early games whose family emerged by the end of window `f`, in order.
fn adopters_by(adopters: &Vec<EarlyAdopter>, f: TimeWindow) -> (r: Vec<EarlyAdopter>)
    ensures
        adopter_views(r@) == adopter_views(adopters@).filter(emerged_by(f)),
{
    let ghost all = adopter_views(adopters@);
    let ghost keep = emerged_by(f);
    let mut r: Vec<EarlyAdopter> = Vec::new();
    let mut i: usize = 0;
    assert(all.take(0).filter(keep) =~= Seq::<AdopterView>::empty()) by {
        reveal(Seq::filter);
    }
    assert(adopter_views(r@) =~= all.take(0).filter(keep));
    while i < adopters.len()
        invariant
            0 <= i <= adopters@.len(),
            all == adopter_views(adopters@),
            keep == emerged_by(f),
            adopter_views(r@) == all.take(i as int).filter(keep),
        decreases adopters@.len() - i,
    {
        proof {
            assert(all.take(i + 1) =~= all.take(i as int).push(all[i as int]));
            all.take(i as int).lemma_filter_push(all[i as int], keep);
        }
        let ghost before = r@;
        if adopters[i].emergence_window.end_exclusive <= f.end_exclusive {
            r.push(adopters[i].duplicate());
            assert(adopter_views(r@) =~= adopter_views(before).push(all[i as int]));
        }
        i = i + 1;
    }
    assert(all.take(all.len() as int) =~= all);
    r
}

/// The first forecast of patch `patch`.
fn first_of_patch(forecasts: &Vec<ScoutForecast>, patch: &String) -> (r: Option<usize>)
    ensures
        r matches Some(i) ==> i < forecasts@.len() && forecasts@[i as int].patch@ == patch@ && forall|j: int|
            0 <= j < i ==> (#[trigger] forecasts@[j]).patch@ != patch@,
        r is None ==> forall|j: int| 0 <= j < forecasts@.len() ==> (#[trigger] forecasts@[j]).patch@ != patch@,
{
    let mut i: usize = 0;
    while i < forecasts.len()
        invariant
            0 <= i <= forecasts@.len(),
            forall|j: int| 0 <= j < i ==> (#[trigger] forecasts@[j]).patch@ != patch@,
        decreases forecasts@.len() - i,
    {
        if let Precedence::Same = compare_text(forecasts[i].patch.as_str(), patch.as_str()) {
            return Some(i);
        }
        i = i + 1;
    }
    None
}

/// Two top boards of a patch are the same board.
proof fn lemma_top_board_unique(
    obs: Seq<MatchObservation>,
    window_size: u64,
    est: spec_fn(Seq<char>) -> bool,
    f: TimeWindow,
    p: Seq<char>,
    c1: Seq<Seq<char>>,
    c2: Seq<Seq<char>>,
)
    requires
        is_top_board(obs, window_size, est, f, p, c1),
        is_top_board(obs, window_size, est, f, p, c2),
    ensures
        c1 == c2,
{
    if c1 != c2 {
        let n = obs.len() as int;
        assert(backing(obs, window_size, est, f, (p, c2), n) > 0);
        assert(backing(obs, window_size, est, f, (p, c1), n) > 0);
        crate::text::lemma_texts_asymmetric(c1, c2);
    }
}

/// The first forecast of a patch in a sorted, complete list of forecasts is
/// its top board.
proof fn lemma_scout_pick(
    obs: Seq<MatchObservation>,
    window_size: u64,
    est: spec_fn(Seq<char>) -> bool,
    f: TimeWindow,
    p: Seq<char>,
    forecasts: Seq<ScoutForecast>,
    first: Option<usize>,
)
    requires
        crate::sorting::strictly_ordered(forecasts, forecast_order()),
        forall|i: int| 0 <= i < forecasts.len() ==> forecasts_board(obs, window_size, est, f, #[trigger] forecasts[i]),
        forall|k: int|
            0 <= k < obs.len() && #[trigger] picks(obs, window_size, est, f, k) ==> lists_forecast(
                forecasts,
                board_at(obs, window_size, k),
            ),
        first matches Some(i) ==> i < forecasts.len() && forecasts[i as int].patch@ == p && forall|j: int|
            0 <= j < i ==> (#[trigger] forecasts[j]).patch@ != p,
        first is None ==> forall|j: int| 0 <= j < forecasts.len() ==> (#[trigger] forecasts[j]).patch@ != p,
    ensures
        match first {
            Some(i) => is_top_board(obs, window_size, est, f, p, forecasts[i as int].composition@),
            None => !exists|c: Seq<Seq<char>>| is_top_board(obs, window_size, est, f, p, c),
        },
{
    let n = obs.len() as int;
    match first {
        Some(i) => {
            let top = forecasts[i as int];
            let c = top.composition@;
            assert(top.board() == (p, c));
            assert forall|c2: Seq<Seq<char>>|
                #[trigger] backing(obs, window_size, est, f, (p, c2), n) > 0 && c2 != c implies backing(
                    obs,
                    window_size,
                    est,
                    f,
                    (p, c),
                    n,
                ) > backing(obs, window_size, est, f, (p, c2), n) || (backing(obs, window_size, est, f, (p, c), n)
                    == backing(obs, window_size, est, f, (p, c2), n) && texts_before(c, c2)) by {
                let k = crate::forecast::lemma_backing_witness(obs, window_size, est, f, (p, c2), n);
                let j = choose|j: int| 0 <= j < forecasts.len() && #[trigger] forecasts[j].board() == board_at(obs, window_size, k);
                assert(forecasts[j].patch@ == p);
                assert(j != i);
                assert(!(j < i));
                assert(forecast_order()(forecasts[i as int], forecasts[j]));
                crate::text::lemma_text_irreflexive(p);
            }
        },
        None => {
            if exists|c: Seq<Seq<char>>| is_top_board(obs, window_size, est, f, p, c) {
                let c = choose|c: Seq<Seq<char>>| is_top_board(obs, window_size, est, f, p, c);
                let k = crate::forecast::lemma_backing_witness(obs, window_size, est, f, (p, c), n);
                let j = choose|j: int| 0 <= j < forecasts.len() && #[trigger] forecasts[j].board() == board_at(obs, window_size, k);
                assert(forecasts[j].patch@ == p);
            }
        },
    }
}

fn more_played_exec(a: &CompositionSummary, b: &CompositionSummary) -> (r: bool)
    ensures
        r == more_played(*a, *b),
{
    if a.play_count != b.play_count {
        return a.play_count > b.play_count;
    }
    match a.composition.compare(&b.composition) {
        Precedence::Before => true,
        _ => false,
    }
}

proof fn lemma_more_played(a: CompositionSummary, b: CompositionSummary, c: CompositionSummary)
    ensures
        !more_played(a, a),
        more_played(a, b) && more_played(b, c) ==> more_played(a, c),
        !more_played(a, b) && !more_played(b, a) ==> a.composition@ == b.composition@,
{
    crate::text::lemma_texts_irreflexive(a.composition@);
    crate::text::lemma_texts_transitive(a.composition@, b.composition@, c.composition@);
    crate::text::lemma_texts_total(a.composition@, b.composition@);
}

/// The popularity baseline: the most played summary of `patch` in `window`.
fn popularity_baseline(summaries: &[CompositionSummary], patch: &String, window: TimeWindow) -> (r: Option<usize>)
    ensures
        r matches Some(j) ==> is_most_played_at(summaries@, patch@, window, j as int),
        r is None ==> forall|j: int|
            0 <= j < summaries@.len() ==> !((#[trigger] summaries@[j]).patch@ == patch@ && summaries@[j].window == window),
{
    let ghost s = summaries@;
    let mut best: Option<usize> = None;
    let mut i: usize = 0;
    while i < summaries.len()
        invariant
            s == summaries@,
            0 <= i <= s.len(),
            best matches Some(b) ==> {
                &&& b < i
                &&& s[b as int].patch@ == patch@
                &&& s[b as int].window == window
                &&& forall|j2: int|
                    0 <= j2 < i && #[trigger] s[j2].patch@ == patch@ && s[j2].window == window ==> !more_played(
                        s[j2],
                        s[b as int],
                    )
            },
            best is None ==> forall|j: int| 0 <= j < i ==> !((#[trigger] s[j]).patch@ == patch@ && s[j].window == window),
        decreases s.len() - i,
    {
        let current = &summaries[i];
        let in_window = current.window == window && match compare_text(current.patch.as_str(), patch.as_str()) {
            Precedence::Same => true,
            _ => false,
        };
        if in_window {
            match best {
                None => {
                    proof {
                        lemma_more_played(s[i as int], s[i as int], s[i as int]);
                    }
                    best = Some(i);
                },
                Some(b) => {
                    if more_played_exec(current, &summaries[b]) {
                        proof {
                            assert forall|j2: int|
                                0 <= j2 < i + 1 && #[trigger] s[j2].patch@ == patch@ && s[j2].window == window implies !more_played(
                                    s[j2],
                                    s[i as int],
                                ) by {
                                lemma_more_played(s[j2], s[i as int], s[b as int]);
                            }
                        }
                        best = Some(i);
                    }
                },
            }
        }
        i = i + 1;
    }
    best
}

/// The popularity prediction is the family of any most played summary.
proof fn lemma_popularity_prediction(s: Seq<CompositionSummary>, p: Seq<char>, f: TimeWindow, r: Option<usize>)
    requires
        r matches Some(j) ==> is_most_played_at(s, p, f, j as int),
        r is None ==> forall|j: int| 0 <= j < s.len() ==> !((#[trigger] s[j]).patch@ == p && s[j].window == f),
    ensures
        popularity_prediction(s, p, f) == match r {
            Some(j) => Some(s[j as int].composition@),
            None => None::<Seq<Seq<char>>>,
        },
{
    match r {
        Some(j) => {
            let j1 = choose|j1: int| is_most_played_at(s, p, f, j1);
            lemma_more_played(s[j as int], s[j1], s[j1]);
        },
        None => {
            if exists|j: int| is_most_played_at(s, p, f, j) {
                let j = choose|j: int| is_most_played_at(s, p, f, j);
                assert(s[j].patch@ == p);
            }
        },
    }
}

fn placed_ahead_exec(a: &CompositionSummary, b: &CompositionSummary) -> (r: bool)
    requires
        a.play_count > 0,
        b.play_count > 0,
    ensures
        r == placed_ahead(*a, *b),
{
    match crate::fraction::compare_fractions(a.placement_total as u128, a.play_count as u128, b.placement_total as u128, b.play_count as u128) {
        Precedence::Before => true,
        Precedence::After => false,
        Precedence::Same => {
            if a.play_count != b.play_count {
                a.play_count > b.play_count
            } else {
                match a.composition.compare(&b.composition) {
                    Precedence::Before => true,
                    _ => false,
                }
            }
        },
    }
}

proof fn lemma_placed_ahead(a: CompositionSummary, b: CompositionSummary, c: CompositionSummary)
    requires
        a.play_count > 0,
        b.play_count > 0,
        c.play_count > 0,
    ensures
        !placed_ahead(a, a),
        placed_ahead(a, b) && placed_ahead(b, c) ==> placed_ahead(a, c),
        !placed_ahead(a, b) && !placed_ahead(b, a) ==> a.composition@ == b.composition@,
{
    crate::text::lemma_texts_irreflexive(a.composition@);
    crate::text::lemma_texts_transitive(a.composition@, b.composition@, c.composition@);
    crate::text::lemma_texts_total(a.composition@, b.composition@);
    let (ta, pa) = (a.placement_total as int, a.play_count as int);
    let (tb, pb) = (b.placement_total as int, b.play_count as int);
    let (tc, pc) = (c.placement_total as int, c.play_count as int);
    if placed_ahead(a, b) && placed_ahead(b, c) {
        crate::fraction::lemma_fraction_mixed_transitive(ta, pa, tb, pb, tc, pc);
    }
}

/// The performance baseline: the best-placed summary of `patch` in `window`
/// among those played at least twice.
fn performance_baseline(summaries: &[CompositionSummary], patch: &String, window: TimeWindow) -> (r: Option<usize>)
    ensures
        r matches Some(j) ==> is_best_placed_at(summaries@, patch@, window, j as int),
        r is None ==> forall|j: int|
            0 <= j < summaries@.len() ==> !((#[trigger] summaries@[j]).patch@ == patch@ && summaries@[j].window == window
                && summaries@[j].play_count >= 2),
{
    let ghost s = summaries@;
    let mut best: Option<usize> = None;
    let mut i: usize = 0;
    while i < summaries.len()
        invariant
            s == summaries@,
            0 <= i <= s.len(),
            best matches Some(b) ==> {
                &&& b < i
                &&& s[b as int].patch@ == patch@
                &&& s[b as int].window == window
                &&& s[b as int].play_count >= 2
                &&& forall|j2: int|
                    0 <= j2 < i && #[trigger] s[j2].patch@ == patch@ && s[j2].window == window && s[j2].play_count >= 2
                        ==> !placed_ahead(s[j2], s[b as int])
            },
            best is None ==> forall|j: int|
                0 <= j < i ==> !((#[trigger] s[j]).patch@ == patch@ && s[j].window == window && s[j].play_count >= 2),
        decreases s.len() - i,
    {
        let current = &summaries[i];
        let eligible = current.window == window && current.play_count >= 2 && match compare_text(
            current.patch.as_str(),
            patch.as_str(),
        ) {
            Precedence::Same => true,
            _ => false,
        };
        if eligible {
            match best {
                None => {
                    proof {
                        lemma_placed_ahead(s[i as int], s[i as int], s[i as int]);
                    }
                    best = Some(i);
                },
                Some(b) => {
                    if placed_ahead_exec(current, &summaries[b]) {
                        proof {
                            assert forall|j2: int|
                                0 <= j2 < i + 1 && #[trigger] s[j2].patch@ == patch@ && s[j2].window == window
                                    && s[j2].play_count >= 2 implies !placed_ahead(s[j2], s[i as int]) by {
                                lemma_placed_ahead(s[j2], s[i as int], s[b as int]);
                            }
                        }
                        best = Some(i);
                    }
                },
            }
        }
        i = i + 1;
    }
    best
}

/// The performance prediction is the family of any best-placed summary.
proof fn lemma_performance_prediction(s: Seq<CompositionSummary>, p: Seq<char>, f: TimeWindow, r: Option<usize>)
    requires
        r matches Some(j) ==> is_best_placed_at(s, p, f, j as int),
        r is None ==> forall|j: int|
            0 <= j < s.len() ==> !((#[trigger] s[j]).patch@ == p && s[j].window == f && s[j].play_count >= 2),
    ensures
        performance_prediction(s, p, f) == match r {
            Some(j) => Some(s[j as int].composition@),
            None => None::<Seq<Seq<char>>>,
        },
{
    match r {
        Some(j) => {
            let j1 = choose|j1: int| is_best_placed_at(s, p, f, j1);
            lemma_placed_ahead(s[j as int], s[j1], s[j1]);
        },
        None => {
            if exists|j: int| is_best_placed_at(s, p, f, j) {
                let j = choose|j: int| is_best_placed_at(s, p, f, j);
                assert(s[j].patch@ == p);
            }
        },
    }
}

/// The scouts' forecast for the patch of event `i`, rebuilt from the early
/// games whose family emerged by the end of the forecast window.
fn scout_pick(
    analysis: &CompositionAnalysis,
    adopters: &Vec<EarlyAdopter>,
    events: &Vec<&CompositionSummary>,
    i: usize,
) -> (r: Option<Composition>)
    requires
        i < events@.len(),
        adopter_views(adopters@) == all_early_games(analysis.spec_observations(), analysis.spec_window_size(), events@),
    ensures
        match r {
            Some(c) => scout_prediction(analysis.spec_observations(), analysis.spec_window_size(), events@, i as int) == Some(c@),
            None => scout_prediction(analysis.spec_observations(), analysis.spec_window_size(), events@, i as int) is None,
        },
{
    let ghost obs = analysis.spec_observations();
    let ghost window_size = analysis.spec_window_size();
    let event = events[i];
    let f = match event.usage_rate_change {
        Some(change) => change.previous_window,
        None => event.window,
    };
    let historical = adopters_by(adopters, f);
    let scouts = summarize_scouts(historical.as_slice());
    let ghost h = early_games_by(obs, window_size, events@, f);
    let ghost est = established_by(obs, window_size, events@, f);
    proof {
        assert(adopter_views(historical@) == h);
        assert forall|q: Seq<char>| #[trigger] scout_test(scouts@)(q) == est(q) by {
            if is_scout(scouts@, q) {
                let k = choose|k: int| 0 <= k < scouts@.len() && #[trigger] scouts@[k].player_id@ == q && crate::scouting::is_established(scouts@[k]);
                assert(records_scout(h, scouts@[k]));
            }
            if signal_count(h, q, h.len() as int) >= 2 {
                let m = crate::scouting::lemma_signal_witness(h, q, h.len() as int);
                assert(h[m] == historical@[m].view_tuple());
                assert(lists_scout(scouts@, historical@[m].player_id@));
                let k = choose|k: int| 0 <= k < scouts@.len() && #[trigger] scouts@[k].player_id@ == historical@[m].player_id@;
                assert(records_scout(h, scouts@[k]));
            }
        }
        assert(scout_test(scouts@) =~= est);
    }
    let forecasts = analysis.forecast_from_scouts_in_window(scouts.as_slice(), f);
    let first = first_of_patch(&forecasts, &event.patch);
    proof {
        lemma_scout_pick(obs, window_size, est, f, event.patch@, forecasts@, first);
    }
    match first {
        Some(j) => {
            proof {
                let c = forecasts@[j as int].composition@;
                assert(is_top_board(obs, window_size, est, f, event.patch@, c));
                assert(forecast_window(*events@[i as int]) == f);
                assert(events@[i as int].patch@ == event.patch@);
                let c1 = choose|c1: Seq<Seq<char>>| is_top_board(obs, window_size, est, f, event.patch@, c1);
                lemma_top_board_unique(obs, window_size, est, f, event.patch@, c, c1);
                assert(scout_prediction(obs, window_size, events@, i as int) == Some(c));
            }
            let chosen = forecasts[j].composition.duplicate();
            assert(chosen@ == forecasts@[j as int].composition@);
            Some(chosen)
        },
        None => None,
    }
}

fn as_choice(pick: &Option<Composition>) -> (r: Option<&Composition>)
    ensures
        match pick {
            Some(c) => r == Some(c),
            None => r is None,
        },
{
    match pick {
        Some(c) => Some(c),
        None => None,
    }
}

/// Replays the forecasts of each window in which some family emerged, using
/// only the data available through the previous populated window of its
/// patch. A hit means the top prediction emerged in that next window.
pub fn evaluate_historical_forecasts_with_analysis(analysis: &CompositionAnalysis) -> (r: HistoricalForecastEvaluation)
    ensures
        exists|s: Seq<CompositionSummary>| analysis_summaries(analysis.spec_observations(), analysis.spec_window_size(), s),
        forall|s: Seq<CompositionSummary>|
            #[trigger] analysis_summaries(analysis.spec_observations(), analysis.spec_window_size(), s) ==> evaluates(
                analysis.spec_observations(),
                analysis.spec_window_size(),
                s,
                r,
            ),
{
    let ghost obs = analysis.spec_observations();
    let ghost window_size = analysis.spec_window_size();
    let full = analysis.summarize_compositions();
    let events = emerging_events(full.as_slice());
    let adopters = analysis.early_adopters(events.as_slice());
    let ghost ev = events@;
    let mut event_windows: usize = 0;
    let mut scout = MethodEvaluation::default();
    let mut popularity = MethodEvaluation::default();
    let mut performance = MethodEvaluation::default();
    let mut i: usize = 0;
    while i < events.len()
        invariant
            ev == events@,
            ev == emerging_in(full@),
            obs == analysis.spec_observations(),
            window_size == analysis.spec_window_size(),
            adopter_views(adopters@) == all_early_games(obs, window_size, ev),
            0 <= i <= ev.len(),
            evaluates_upto(
                obs,
                window_size,
                full@,
                HistoricalForecastEvaluation { event_windows, scout, popularity, performance },
                i as int,
            ),
        decreases ev.len() - i,
    {
        let event = events[i];
        let opens = i == 0 || events[i - 1].window != event.window || match compare_text(
            events[i - 1].patch.as_str(),
            event.patch.as_str(),
        ) {
            Precedence::Same => false,
            _ => true,
        };
        proof {
            lemma_counts_bounded(ev, scout_predictions(obs, window_size, ev), i as int);
            lemma_counts_bounded(ev, popularity_predictions(full@, ev), i as int);
            lemma_counts_bounded(ev, performance_predictions(full@, ev), i as int);
        }
        if opens {
            let f = match event.usage_rate_change {
                Some(change) => change.previous_window,
                None => event.window,
            };
            let targets = targets_of(&events, &event.patch, event.window);
            event_windows = event_windows + 1;
            let pick = scout_pick(analysis, &adopters, &events, i);
            scout.record(as_choice(&pick), &targets);
            let popular = popularity_baseline(full.as_slice(), &event.patch, f);
            proof {
                lemma_popularity_prediction(full@, event.patch@, f, popular);
            }
            let popular_pick = match popular {
                Some(j) => Some(&full[j].composition),
                None => None,
            };
            popularity.record(popular_pick, &targets);
            let placed = performance_baseline(full.as_slice(), &event.patch, f);
            proof {
                lemma_performance_prediction(full@, event.patch@, f, placed);
            }
            let placed_pick = match placed {
                Some(j) => Some(&full[j].composition),
                None => None,
            };
            performance.record(placed_pick, &targets);
        }
        i = i + 1;
    }
    let r = HistoricalForecastEvaluation { event_windows, scout, popularity, performance };
    proof {
        assert(analysis_summaries(obs, window_size, full@));
        assert forall|s: Seq<CompositionSummary>| #[trigger] analysis_summaries(obs, window_size, s) implies evaluates(obs, window_size, s, r) by {
            crate::analysis::lemma_summaries_determined(obs, window_size, full@, s);
            lemma_evaluates_views(obs, window_size, full@, s, r);
        }
    }
    r
}

/// Replays the scout forecasts over the observations grouped into windows of
/// `window_size`; see `evaluate_historical_forecasts_with_analysis`.
pub fn evaluate_historical_forecasts(observations: &[MatchObservation], window_size: u64) -> (r: HistoricalForecastEvaluation)
    requires
        window_size > 0,
        all_windows_fit(observations@, window_size),
        observations@.len() * 255 <= u64::MAX,
    ensures
        exists|s: Seq<CompositionSummary>| analysis_summaries(observations@, window_size, s),
        forall|s: Seq<CompositionSummary>|
            #[trigger] analysis_summaries(observations@, window_size, s) ==> evaluates(observations@, window_size, s, r),
{
    let analysis = CompositionAnalysis::new(observations, window_size);
    evaluate_historical_forecasts_with_analysis(&analysis)
}

proof fn lemma_counts_ordered(events: Seq<&CompositionSummary>, predict: spec_fn(int) -> Option<Seq<Seq<char>>>, n: int)
    requires
        0 <= n,
    ensures
        hit_count(events, predict, n) <= prediction_count(events, predict, n),
        prediction_count(events, predict, n) <= window_count(events, n),
        window_count(events, n) <= n,
    decreases n,
{
    if n > 0 {
        lemma_counts_ordered(events, predict, n - 1);
    }
}

/// In a replay every method predicts at most once per event window, and is
/// right at most as often as it predicts; there are no more event windows
/// than emerging summaries.
pub proof fn lemma_evaluation_bounds(
    obs: Seq<MatchObservation>,
    window_size: u64,
    s: Seq<CompositionSummary>,
    r: HistoricalForecastEvaluation,
)
    requires
        evaluates(obs, window_size, s, r),
    ensures
        r.scout.hits <= r.scout.predictions <= r.event_windows,
        r.popularity.hits <= r.popularity.predictions <= r.event_windows,
        r.performance.hits <= r.performance.predictions <= r.event_windows,
        r.event_windows <= emerging_in(s).len(),
{
    let events = emerging_in(s);
    let n = events.len() as int;
    lemma_counts_ordered(events, scout_predictions(obs, window_size, events), n);
    lemma_counts_ordered(events, popularity_predictions(s, events), n);
    lemma_counts_ordered(events, performance_predictions(s, events), n);
}

/// The values of the summaries that `events` refers to.
pub open spec fn ref_views(events: Seq<&CompositionSummary>) -> Seq<SummaryView> {
    events.map_values(|e: &CompositionSummary| summary_view(*e))
}

/// Filtering by a test on values keeps equal values equal.
proof fn lemma_filter_views(a: Seq<&CompositionSummary>, b: Seq<&CompositionSummary>, keep: spec_fn(&CompositionSummary) -> bool)
    requires
        ref_views(a) == ref_views(b),
        forall|x: &CompositionSummary, y: &CompositionSummary|
            summary_view(*x) == summary_view(*y) ==> #[trigger] keep(x) == #[trigger] keep(y),
    ensures
        ref_views(a.filter(keep)) == ref_views(b.filter(keep)),
    decreases a.len(),
{
    reveal(Seq::filter);
    assert(a.len() == ref_views(a).len() && b.len() == ref_views(b).len());
    if a.len() > 0 {
        assert(ref_views(a.drop_last()) =~= ref_views(a).drop_last());
        assert(ref_views(b.drop_last()) =~= ref_views(b).drop_last());
        lemma_filter_views(a.drop_last(), b.drop_last(), keep);
        assert(summary_view(*a.last()) == ref_views(a).last());
        assert(summary_view(*b.last()) == ref_views(b).last());
        assert(keep(a.last()) == keep(b.last()));
        let fa = a.drop_last().filter(keep);
        let fb = b.drop_last().filter(keep);
        if keep(a.last()) {
            assert(a.filter(keep) == fa.push(a.last()));
            assert(b.filter(keep) == fb.push(b.last()));
            assert(ref_views(fa.push(a.last())) =~= ref_views(fa).push(summary_view(*a.last())));
            assert(ref_views(fb.push(b.last())) =~= ref_views(fb).push(summary_view(*b.last())));
        } else {
            assert(a.filter(keep) == fa);
            assert(b.filter(keep) == fb);
        }
    }
}

/// Summaries with equal values have equal emerging summaries.
proof fn lemma_emerging_views(s1: Seq<CompositionSummary>, s2: Seq<CompositionSummary>)
    requires
        summary_views(s1) == summary_views(s2),
    ensures
        ref_views(emerging_in(s1)) == ref_views(emerging_in(s2)),
{
    assert(ref_views(s1.as_ref()) =~= summary_views(s1));
    assert(ref_views(s2.as_ref()) =~= summary_views(s2));
    let keep = |r: &CompositionSummary| (|x: CompositionSummary| is_emerging(x))(*r);
    lemma_filter_views(s1.as_ref(), s2.as_ref(), keep);
}

/// Events with equal values have equal early games.
proof fn lemma_early_games_views(obs: Seq<MatchObservation>, window_size: u64, x: CompositionSummary, y: CompositionSummary)
    requires
        summary_view(x) == summary_view(y),
    ensures
        crate::scouting::early_games(obs, window_size, x) == crate::scouting::early_games(obs, window_size, y),
{
    if let Some(c) = x.usage_rate_change {
        let px = |o: MatchObservation| crate::analysis::group_of(obs, window_size, o) == (x.patch@, c.previous_window, x.composition@);
        let py = |o: MatchObservation| crate::analysis::group_of(obs, window_size, o) == (y.patch@, c.previous_window, y.composition@);
        assert(px =~= py);
        let fx = |o: MatchObservation| (o.player_id@, x.patch@, x.composition@, c.previous_window, x.window, o.placement);
        let fy = |o: MatchObservation| (o.player_id@, y.patch@, y.composition@, c.previous_window, y.window, o.placement);
        assert(fx =~= fy);
    }
}

proof fn lemma_all_early_games_views(obs: Seq<MatchObservation>, window_size: u64, e1: Seq<&CompositionSummary>, e2: Seq<&CompositionSummary>)
    requires
        ref_views(e1) == ref_views(e2),
    ensures
        all_early_games(obs, window_size, e1) == all_early_games(obs, window_size, e2),
    decreases e1.len(),
{
    assert(e1.len() == ref_views(e1).len() && e2.len() == ref_views(e2).len());
    if e1.len() > 0 {
        assert(ref_views(e1.drop_last()) =~= ref_views(e1).drop_last());
        assert(ref_views(e2.drop_last()) =~= ref_views(e2).drop_last());
        lemma_all_early_games_views(obs, window_size, e1.drop_last(), e2.drop_last());
        assert(summary_view(*e1.last()) == ref_views(e1).last());
        assert(summary_view(*e2.last()) == ref_views(e2).last());
        lemma_early_games_views(obs, window_size, *e1.last(), *e2.last());
    }
}

/// The counts agree over events with equal values and equal predictions.
proof fn lemma_counts_views(
    e1: Seq<&CompositionSummary>,
    e2: Seq<&CompositionSummary>,
    p1: spec_fn(int) -> Option<Seq<Seq<char>>>,
    p2: spec_fn(int) -> Option<Seq<Seq<char>>>,
    n: int,
)
    requires
        ref_views(e1) == ref_views(e2),
        0 <= n <= e1.len(),
        forall|i: int| 0 <= i < n ==> #[trigger] p1(i) == p2(i),
    ensures
        window_count(e1, n) == window_count(e2, n),
        prediction_count(e1, p1, n) == prediction_count(e2, p2, n),
        hit_count(e1, p1, n) == hit_count(e2, p2, n),
    decreases n,
{
    assert(e1.len() == ref_views(e1).len() && e2.len() == ref_views(e2).len());
    if n > 0 {
        lemma_counts_views(e1, e2, p1, p2, n - 1);
        let i = n - 1;
        assert(summary_view(*e1[i]) == ref_views(e1)[i]);
        assert(summary_view(*e2[i]) == ref_views(e2)[i]);
        if i > 0 {
            assert(summary_view(*e1[i - 1]) == ref_views(e1)[i - 1]);
            assert(summary_view(*e2[i - 1]) == ref_views(e2)[i - 1]);
        }
        assert(opens_window(e1, i) == opens_window(e2, i));
        if let Some(c) = p1(i) {
            assert(p2(i) == Some(c));
            assert forall|j: int| 0 <= j < e1.len() implies summary_view(*e1[j]) == summary_view(*e2[j]) by {
                assert(summary_view(*e1[j]) == ref_views(e1)[j]);
                assert(summary_view(*e2[j]) == ref_views(e2)[j]);
            }
            if is_target(e1, e1[i].patch@, e1[i].window, c) {
                let j = choose|j: int|
                    0 <= j < e1.len() && #[trigger] e1[j].composition@ == c && e1[j].patch@ == e1[i].patch@
                        && e1[j].window == e1[i].window;
                assert(summary_view(*e1[j]) == summary_view(*e2[j]));
            }
            if is_target(e2, e2[i].patch@, e2[i].window, c) {
                let j = choose|j: int|
                    0 <= j < e2.len() && #[trigger] e2[j].composition@ == c && e2[j].patch@ == e2[i].patch@
                        && e2[j].window == e2[i].window;
                assert(summary_view(*e1[j]) == summary_view(*e2[j]));
            }
            assert(is_hit(e1, p1, i) == is_hit(e2, p2, i));
        }
    }
}

proof fn lemma_baselines_views(s1: Seq<CompositionSummary>, s2: Seq<CompositionSummary>, p: Seq<char>, f: TimeWindow)
    requires
        summary_views(s1) == summary_views(s2),
    ensures
        popularity_prediction(s1, p, f) == popularity_prediction(s2, p, f),
        performance_prediction(s1, p, f) == performance_prediction(s2, p, f),
{
    assert(s1.len() == summary_views(s1).len() && s2.len() == summary_views(s2).len());
    assert forall|j: int|
        #![trigger s1[j]]
        #![trigger s2[j]]
        0 <= j < s1.len() implies summary_view(s1[j]) == summary_view(s2[j]) && s1[j].patch@ == s2[j].patch@
            && s1[j].window == s2[j].window && s1[j].play_count == s2[j].play_count && s1[j].placement_total
            == s2[j].placement_total && s1[j].composition@ == s2[j].composition@ by {
        assert(summary_view(s1[j]) == summary_views(s1)[j]);
        assert(summary_view(s2[j]) == summary_views(s2)[j]);
    }
    assert forall|j: int| #[trigger] is_most_played_at(s1, p, f, j) == is_most_played_at(s2, p, f, j) by {
        if 0 <= j < s1.len() {
            assert(summary_view(s1[j]) == summary_view(s2[j]));
        }
    }
    assert forall|j: int| #[trigger] is_best_placed_at(s1, p, f, j) == is_best_placed_at(s2, p, f, j) by {
        if 0 <= j < s1.len() {
            assert(summary_view(s1[j]) == summary_view(s2[j]));
        }
    }
    if exists|j: int| is_most_played_at(s1, p, f, j) {
        let j1 = choose|j: int| is_most_played_at(s1, p, f, j);
        let j2 = choose|j: int| is_most_played_at(s2, p, f, j);
        assert(is_most_played_at(s2, p, f, j1));
        assert(is_most_played_at(s1, p, f, j2));
        lemma_more_played(s1[j1], s1[j2], s1[j2]);
        assert(summary_view(s1[j2]) == summary_view(s2[j2]));
        assert(s1[j1].composition@ == s2[j2].composition@);
    } else {
        assert forall|j: int| !is_most_played_at(s2, p, f, j) by {
            assert(!is_most_played_at(s1, p, f, j));
        }
    }
    if exists|j: int| is_best_placed_at(s1, p, f, j) {
        let j1 = choose|j: int| is_best_placed_at(s1, p, f, j);
        let j2 = choose|j: int| is_best_placed_at(s2, p, f, j);
        assert(is_best_placed_at(s2, p, f, j1));
        assert(is_best_placed_at(s1, p, f, j2));
        lemma_placed_ahead(s1[j1], s1[j2], s1[j2]);
        assert(summary_view(s1[j2]) == summary_view(s2[j2]));
        assert(s1[j1].composition@ == s2[j2].composition@);
    } else {
        assert forall|j: int| !is_best_placed_at(s2, p, f, j) by {
            assert(!is_best_placed_at(s1, p, f, j));
        }
    }
}

/// A replay depends on the summaries only through their values.
proof fn lemma_evaluates_views(
    obs: Seq<MatchObservation>,
    window_size: u64,
    s1: Seq<CompositionSummary>,
    s2: Seq<CompositionSummary>,
    r: HistoricalForecastEvaluation,
)
    requires
        summary_views(s1) == summary_views(s2),
        evaluates(obs, window_size, s1, r),
    ensures
        evaluates(obs, window_size, s2, r),
{
    let e1 = emerging_in(s1);
    let e2 = emerging_in(s2);
    lemma_emerging_views(s1, s2);
    assert(e1.len() == ref_views(e1).len() && e2.len() == ref_views(e2).len());
    let n = e1.len() as int;
    assert forall|i: int| 0 <= i < n implies summary_view(*e1[i]) == summary_view(*e2[i]) by {
        assert(summary_view(*e1[i]) == ref_views(e1)[i]);
        assert(summary_view(*e2[i]) == ref_views(e2)[i]);
    }
    lemma_all_early_games_views(obs, window_size, e1, e2);
    assert forall|i: int| 0 <= i < n implies #[trigger] scout_predictions(obs, window_size, e1)(i) == scout_predictions(obs, window_size, e2)(i) by {
        assert(summary_view(*e1[i]) == summary_view(*e2[i]));
        let f = forecast_window(*e1[i]);
        assert(forecast_window(*e2[i]) == f);
        assert(early_games_by(obs, window_size, e1, f) == early_games_by(obs, window_size, e2, f));
        assert(established_by(obs, window_size, e1, f) == established_by(obs, window_size, e2, f));
    }
    assert forall|i: int| 0 <= i < n implies #[trigger] popularity_predictions(s1, e1)(i) == popularity_predictions(s2, e2)(i) by {
        assert(summary_view(*e1[i]) == summary_view(*e2[i]));
        lemma_baselines_views(s1, s2, e1[i].patch@, forecast_window(*e1[i]));
    }
    assert forall|i: int| 0 <= i < n implies #[trigger] performance_predictions(s1, e1)(i) == performance_predictions(s2, e2)(i) by {
        assert(summary_view(*e1[i]) == summary_view(*e2[i]));
        lemma_baselines_views(s1, s2, e1[i].patch@, forecast_window(*e1[i]));
    }
    lemma_counts_views(e1, e2, scout_predictions(obs, window_size, e1), scout_predictions(obs, window_size, e2), n);
    lemma_counts_views(e1, e2, popularity_predictions(s1, e1), popularity_predictions(s2, e2), n);
    lemma_counts_views(e1, e2, performance_predictions(s1, e1), performance_predictions(s2, e2), n);
}


/// `a` and `b` are of the same patch, window and family, with the same
/// plays and placements.
spec fn same_counts(a: CompositionSummary, b: CompositionSummary) -> bool {
    &&& a.patch@ == b.patch@
    &&& a.window == b.window
    &&& a.composition@ == b.composition@
    &&& a.play_count == b.play_count
    &&& a.placement_total == b.placement_total
}

/// Every summary of window `f` in `s1` has a counterpart in `s2`.
spec fn counterparts_in(s1: Seq<CompositionSummary>, s2: Seq<CompositionSummary>, f: TimeWindow) -> bool {
    forall|j: int|
        0 <= j < s1.len() && s1[j].window == f ==> exists|j2: int|
            0 <= j2 < s2.len() && #[trigger] same_counts(s1[j], s2[j2])
}

proof fn lemma_counterparts_before(
    obs1: Seq<MatchObservation>,
    obs2: Seq<MatchObservation>,
    window_size: u64,
    s1: Seq<CompositionSummary>,
    s2: Seq<CompositionSummary>,
    f: TimeWindow,
)
    requires
        window_size > 0,
        all_windows_fit(obs1, window_size),
        all_windows_fit(obs2, window_size),
        analysis_summaries(obs1, window_size, s1),
        analysis_summaries(obs2, window_size, s2),
        obs1.filter(seen_before(f.end_exclusive)) == obs2.filter(seen_before(f.end_exclusive)),
    ensures
        counterparts_in(s1, s2, f),
{
    assert forall|j: int| 0 <= j < s1.len() && s1[j].window == f implies exists|j2: int|
        0 <= j2 < s2.len() && #[trigger] same_counts(s1[j], s2[j2]) by {
        let x = s1[j];
        assert(summarizes(obs1, window_size, x));
        let g = x.group();
        lemma_group_counts_before(obs1, obs2, window_size, f.end_exclusive, g);
        let k = lemma_plays_witness(obs2, window_size, g, obs2.len() as int);
        assert(lists_summary(s2, group_of(obs2, window_size, obs2[k])));
        let j2 = choose|j2: int| 0 <= j2 < s2.len() && #[trigger] s2[j2].group() == group_of(obs2, window_size, obs2[k]);
        assert(summarizes(obs2, window_size, s2[j2]));
        assert(same_counts(x, s2[j2]));
    }
}

proof fn lemma_most_played_unique(s: Seq<CompositionSummary>, p: Seq<char>, f: TimeWindow, a: int, b: int)
    requires
        is_most_played_at(s, p, f, a),
        is_most_played_at(s, p, f, b),
    ensures
        s[a].composition@ == s[b].composition@,
{
    crate::text::lemma_texts_total(s[a].composition@, s[b].composition@);
    assert(!more_played(s[b], s[a]));
    assert(!more_played(s[a], s[b]));
}

proof fn lemma_most_played_transfer(s1: Seq<CompositionSummary>, s2: Seq<CompositionSummary>, p: Seq<char>, f: TimeWindow, j1: int)
    requires
        is_most_played_at(s1, p, f, j1),
        counterparts_in(s1, s2, f),
        counterparts_in(s2, s1, f),
    ensures
        exists|j2: int| is_most_played_at(s2, p, f, j2) && s2[j2].composition@ == s1[j1].composition@,
{
    let j2 = choose|j2: int| 0 <= j2 < s2.len() && #[trigger] same_counts(s1[j1], s2[j2]);
    assert forall|k: int| 0 <= k < s2.len() && #[trigger] s2[k].patch@ == p && s2[k].window == f implies !more_played(
        s2[k],
        s2[j2],
    ) by {
        let k1 = choose|k1: int| 0 <= k1 < s1.len() && #[trigger] same_counts(s2[k], s1[k1]);
        assert(!more_played(s1[k1], s1[j1]));
    }
    assert(is_most_played_at(s2, p, f, j2));
}

proof fn lemma_popularity_transfer(s1: Seq<CompositionSummary>, s2: Seq<CompositionSummary>, p: Seq<char>, f: TimeWindow)
    requires
        counterparts_in(s1, s2, f),
        counterparts_in(s2, s1, f),
    ensures
        popularity_prediction(s1, p, f) == popularity_prediction(s2, p, f),
{
    if exists|j: int| is_most_played_at(s1, p, f, j) {
        let j1 = choose|j: int| is_most_played_at(s1, p, f, j);
        lemma_most_played_transfer(s1, s2, p, f, j1);
        let w = choose|j2: int| is_most_played_at(s2, p, f, j2) && s2[j2].composition@ == s1[j1].composition@;
        let j2 = choose|j: int| is_most_played_at(s2, p, f, j);
        lemma_most_played_unique(s2, p, f, w, j2);
    } else if exists|j: int| is_most_played_at(s2, p, f, j) {
        let j2 = choose|j: int| is_most_played_at(s2, p, f, j);
        lemma_most_played_transfer(s2, s1, p, f, j2);
    }
}

proof fn lemma_best_placed_unique(s: Seq<CompositionSummary>, p: Seq<char>, f: TimeWindow, a: int, b: int)
    requires
        is_best_placed_at(s, p, f, a),
        is_best_placed_at(s, p, f, b),
    ensures
        s[a].composition@ == s[b].composition@,
{
    crate::text::lemma_texts_total(s[a].composition@, s[b].composition@);
    assert(!placed_ahead(s[b], s[a]));
    assert(!placed_ahead(s[a], s[b]));
}

proof fn lemma_best_placed_transfer(s1: Seq<CompositionSummary>, s2: Seq<CompositionSummary>, p: Seq<char>, f: TimeWindow, j1: int)
    requires
        is_best_placed_at(s1, p, f, j1),
        counterparts_in(s1, s2, f),
        counterparts_in(s2, s1, f),
    ensures
        exists|j2: int| is_best_placed_at(s2, p, f, j2) && s2[j2].composition@ == s1[j1].composition@,
{
    let j2 = choose|j2: int| 0 <= j2 < s2.len() && #[trigger] same_counts(s1[j1], s2[j2]);
    assert forall|k: int|
        0 <= k < s2.len() && #[trigger] s2[k].patch@ == p && s2[k].window == f && s2[k].play_count >= 2 implies !placed_ahead(
        s2[k],
        s2[j2],
    ) by {
        let k1 = choose|k1: int| 0 <= k1 < s1.len() && #[trigger] same_counts(s2[k], s1[k1]);
        assert(!placed_ahead(s1[k1], s1[j1]));
    }
    assert(is_best_placed_at(s2, p, f, j2));
}

proof fn lemma_performance_transfer(s1: Seq<CompositionSummary>, s2: Seq<CompositionSummary>, p: Seq<char>, f: TimeWindow)
    requires
        counterparts_in(s1, s2, f),
        counterparts_in(s2, s1, f),
    ensures
        performance_prediction(s1, p, f) == performance_prediction(s2, p, f),
{
    if exists|j: int| is_best_placed_at(s1, p, f, j) {
        let j1 = choose|j: int| is_best_placed_at(s1, p, f, j);
        lemma_best_placed_transfer(s1, s2, p, f, j1);
        let w = choose|j2: int| is_best_placed_at(s2, p, f, j2) && s2[j2].composition@ == s1[j1].composition@;
        let j2 = choose|j: int| is_best_placed_at(s2, p, f, j);
        lemma_best_placed_unique(s2, p, f, w, j2);
    } else if exists|j: int| is_best_placed_at(s2, p, f, j) {
        let j2 = choose|j: int| is_best_placed_at(s2, p, f, j);
        lemma_best_placed_transfer(s2, s1, p, f, j2);
    }
}

/// No lookahead in the baselines: two sets of observations that agree on
/// everything observed before the end of window `f` give each patch the same
/// popularity forecast and the same performance forecast made in `f`,
/// whatever each of them holds from later on.
pub proof fn lemma_baselines_no_lookahead(
    obs1: Seq<MatchObservation>,
    obs2: Seq<MatchObservation>,
    window_size: u64,
    s1: Seq<CompositionSummary>,
    s2: Seq<CompositionSummary>,
    p: Seq<char>,
    f: TimeWindow,
)
    requires
        window_size > 0,
        all_windows_fit(obs1, window_size),
        all_windows_fit(obs2, window_size),
        analysis_summaries(obs1, window_size, s1),
        analysis_summaries(obs2, window_size, s2),
        obs1.filter(seen_before(f.end_exclusive)) == obs2.filter(seen_before(f.end_exclusive)),
    ensures
        popularity_prediction(s1, p, f) == popularity_prediction(s2, p, f),
        performance_prediction(s1, p, f) == performance_prediction(s2, p, f),
{
    lemma_counterparts_before(obs1, obs2, window_size, s1, s2, f);
    lemma_counterparts_before(obs2, obs1, window_size, s2, s1, f);
    lemma_popularity_transfer(s1, s2, p, f);
    lemma_performance_transfer(s1, s2, p, f);
}


/// Events of windows that end by the end of `f`.
pub open spec fn ends_by<'a>(f: TimeWindow) -> spec_fn(&'a CompositionSummary) -> bool {
    |r: &CompositionSummary| r.window.end_exclusive <= f.end_exclusive
}

/// The early games of an event all carry its window.
proof fn lemma_early_games_window(obs: Seq<MatchObservation>, window_size: u64, x: CompositionSummary, f: TimeWindow)
    ensures
        crate::scouting::early_games(obs, window_size, x).filter(emerged_by(f)) == if x.window.end_exclusive
            <= f.end_exclusive {
            crate::scouting::early_games(obs, window_size, x)
        } else {
            Seq::<AdopterView>::empty()
        },
{
    let q = crate::scouting::early_games(obs, window_size, x);
    assert forall|k: int| 0 <= k < q.len() implies (#[trigger] q[k]).4 == x.window by {
    }
    if x.window.end_exclusive <= f.end_exclusive {
        crate::sorting::lemma_filter_all(q, emerged_by(f));
    } else {
        crate::sorting::lemma_filter_none(q, emerged_by(f));
    }
}

/// The early games of families that emerged by the end of `f` are those of
/// the events of windows that end by then.
proof fn lemma_early_games_by(obs: Seq<MatchObservation>, window_size: u64, ev: Seq<&CompositionSummary>, f: TimeWindow)
    ensures
        early_games_by(obs, window_size, ev, f) == all_early_games(obs, window_size, ev.filter(ends_by(f))),
    decreases ev.len(),
{
    reveal(Seq::filter);
    if ev.len() == 0 {
        assert(all_early_games(obs, window_size, ev) == Seq::<AdopterView>::empty());
    } else {
        let init = ev.drop_last();
        lemma_early_games_by(obs, window_size, init, f);
        let a = all_early_games(obs, window_size, init);
        let b = crate::scouting::early_games(obs, window_size, *ev.last());
        assert(all_early_games(obs, window_size, ev) == a + b);
        Seq::<AdopterView>::filter_distributes_over_add(a, b, emerged_by(f));
        lemma_early_games_window(obs, window_size, *ev.last(), f);
        if ends_by(f)(ev.last()) {
            let kept = init.filter(ends_by(f)).push(ev.last());
            assert(ev.filter(ends_by(f)) == kept);
            assert(kept.drop_last() == init.filter(ends_by(f)));
            assert(all_early_games(obs, window_size, kept) == all_early_games(obs, window_size, init.filter(ends_by(f)))
                + b);
        } else {
            assert(ev.filter(ends_by(f)) == init.filter(ends_by(f)));
            assert(b.filter(emerged_by(f)) == Seq::<AdopterView>::empty());
            assert(a.filter(emerged_by(f)) + Seq::<AdopterView>::empty() == a.filter(emerged_by(f)));
        }
    }
}

/// An event of a window that ends by `e` has the same early games in two
/// sets of observations that agree before `e`.
proof fn lemma_early_games_agree_before(
    obs1: Seq<MatchObservation>,
    obs2: Seq<MatchObservation>,
    window_size: u64,
    e: u64,
    x: CompositionSummary,
)
    requires
        window_size > 0,
        all_windows_fit(obs1, window_size),
        all_windows_fit(obs2, window_size),
        obs1.filter(seen_before(e)) == obs2.filter(seen_before(e)),
        summarizes(obs1, window_size, x),
        x.window.end_exclusive <= e,
    ensures
        crate::scouting::early_games(obs1, window_size, x) == crate::scouting::early_games(obs2, window_size, x),
{
    broadcast use vstd::seq_lib::group_seq_properties;
    if let Some(c) = x.usage_rate_change {
        let g = (x.patch@, c.previous_window, x.composition@);
        crate::analysis::lemma_window_facts(obs1, window_size);
        crate::analysis::lemma_window_facts(obs2, window_size);
        let k = lemma_plays_witness(obs1, window_size, x.group(), obs1.len() as int);
        assert(window_of(obs1[k].timestamp, window_size) == x.window);
        let kp = choose|kp: int|
            0 <= kp < obs1.len() && #[trigger] obs1[kp].patch@ == x.patch@ && window_of(obs1[kp].timestamp, window_size)
                == c.previous_window;
        assert(c.previous_window.end_exclusive <= e);
        let g1 = |o: MatchObservation| group_of(obs1, window_size, o) == (x.patch@, c.previous_window, x.composition@);
        let g2 = |o: MatchObservation| group_of(obs2, window_size, o) == (x.patch@, c.previous_window, x.composition@);
        let pe = seen_before(e);
        assert forall|i: int| 0 <= i < obs1.len() && g1(#[trigger] obs1[i]) implies pe(obs1[i]) by {
            assert(window_of(obs1[i].timestamp, window_size) == c.previous_window);
        }
        assert forall|i: int| 0 <= i < obs2.len() && g2(#[trigger] obs2[i]) implies pe(obs2[i]) by {
            assert(window_of(obs2[i].timestamp, window_size) == c.previous_window);
        }
        crate::sorting::lemma_filter_within(obs1, pe, g1);
        crate::sorting::lemma_filter_within(obs2, pe, g2);
        let common = obs1.filter(pe);
        assert forall|i: int| 0 <= i < common.len() implies g1(#[trigger] common[i]) == g2(common[i]) by {
            obs1.lemma_filter_pred(pe, i);
            assert(common.contains(common[i]));
            obs1.lemma_filter_contains_rev(pe, common[i]);
            crate::families::lemma_family_agrees_before(obs1, obs2, e, common[i]);
        }
        crate::sorting::lemma_filter_congruent(common, g1, g2);
        assert(obs1.filter(g1) == obs2.filter(g2));
    }
}

/// Events of windows that end by `e` whose summaries hold observations of
/// `obs1` have the same early games in `obs2` when the two agree before `e`.
proof fn lemma_all_early_games_agree_before(
    obs1: Seq<MatchObservation>,
    obs2: Seq<MatchObservation>,
    window_size: u64,
    e: u64,
    ev: Seq<&CompositionSummary>,
)
    requires
        window_size > 0,
        all_windows_fit(obs1, window_size),
        all_windows_fit(obs2, window_size),
        obs1.filter(seen_before(e)) == obs2.filter(seen_before(e)),
        forall|i: int| 0 <= i < ev.len() ==> summarizes(obs1, window_size, *#[trigger] ev[i]),
        forall|i: int| 0 <= i < ev.len() ==> (#[trigger] ev[i]).window.end_exclusive <= e,
    ensures
        all_early_games(obs1, window_size, ev) == all_early_games(obs2, window_size, ev),
    decreases ev.len(),
{
    if ev.len() > 0 {
        let init = ev.drop_last();
        assert forall|i: int| 0 <= i < init.len() implies summarizes(obs1, window_size, *#[trigger] init[i]) && init[i].window.end_exclusive <= e by {
            assert(init[i] == ev[i]);
        }
        lemma_all_early_games_agree_before(obs1, obs2, window_size, e, init);
        assert(ev.last() == ev[ev.len() - 1]);
        lemma_early_games_agree_before(obs1, obs2, window_size, e, *ev.last());
    }
}


/// An event of a window that ends by the end of `f` is an emerging summary
/// of `s`.
proof fn lemma_event_source(s: Seq<CompositionSummary>, f: TimeWindow, i: int)
    requires
        0 <= i < emerging_in(s).filter(ends_by(f)).len(),
    ensures
        exists|j: int| 0 <= j < s.len() && s[j] == *emerging_in(s).filter(ends_by(f))[i] && is_emerging(s[j]),
        emerging_in(s).filter(ends_by(f))[i].window.end_exclusive <= f.end_exclusive,
{
    broadcast use vstd::seq_lib::group_seq_properties;
    let emg = |r: &CompositionSummary| (|x: CompositionSummary| is_emerging(x))(*r);
    let ev = emerging_in(s);
    assert(ev == s.as_ref().filter(emg));
    let r = ev.filter(ends_by(f))[i];
    ev.lemma_filter_pred(ends_by(f), i);
    assert(ev.filter(ends_by(f)).contains(r));
    ev.lemma_filter_contains_rev(ends_by(f), r);
    let m = choose|m: int| 0 <= m < ev.len() && ev[m] == r;
    s.as_ref().lemma_filter_pred(emg, m);
    assert(ev.contains(r));
    s.as_ref().lemma_filter_contains_rev(emg, r);
    let j = choose|j: int| 0 <= j < s.as_ref().len() && s.as_ref()[j] == r;
    assert(s[j] == *r);
}

/// An event value of the first set of summaries is one of the second, when
/// their observations agree before the end of `f`.
proof fn lemma_event_view_moves(
    obs1: Seq<MatchObservation>,
    obs2: Seq<MatchObservation>,
    window_size: u64,
    s1: Seq<CompositionSummary>,
    s2: Seq<CompositionSummary>,
    f: TimeWindow,
    v: SummaryView,
)
    requires
        window_size > 0,
        all_windows_fit(obs1, window_size),
        all_windows_fit(obs2, window_size),
        analysis_summaries(obs1, window_size, s1),
        analysis_summaries(obs2, window_size, s2),
        obs1.filter(seen_before(f.end_exclusive)) == obs2.filter(seen_before(f.end_exclusive)),
    ensures
        ref_views(emerging_in(s1).filter(ends_by(f))).contains(v) ==> ref_views(emerging_in(s2).filter(ends_by(f))).contains(v),
{
    broadcast use vstd::seq_lib::group_seq_properties;
    let emg = |r: &CompositionSummary| (|x: CompositionSummary| is_emerging(x))(*r);
    let ev2 = emerging_in(s2);
    assert(ev2 == s2.as_ref().filter(emg));
    let r1 = emerging_in(s1).filter(ends_by(f));
    let r2 = ev2.filter(ends_by(f));
    if ref_views(r1).contains(v) {
        let i = choose|i: int| 0 <= i < ref_views(r1).len() && ref_views(r1)[i] == v;
        lemma_event_source(s1, f, i);
        let j = choose|j: int| 0 <= j < s1.len() && s1[j] == *r1[i] && is_emerging(s1[j]);
        assert(summarizes(obs1, window_size, s1[j]));
        crate::analysis::lemma_summary_agrees_before(obs1, obs2, window_size, f.end_exclusive, s1[j], s2);
        let j2 = choose|j2: int| 0 <= j2 < s2.len() && #[trigger] summary_view(s2[j2]) == summary_view(s1[j]);
        let rx = s2.as_ref()[j2];
        assert(emg(rx));
        s2.as_ref().lemma_filter_contains(emg, j2);
        let m2 = choose|m2: int| 0 <= m2 < ev2.len() && ev2[m2] == rx;
        assert(ends_by(f)(ev2[m2]));
        ev2.lemma_filter_contains(ends_by(f), m2);
        let i2 = choose|i2: int| 0 <= i2 < r2.len() && r2[i2] == rx;
        assert(ref_views(r2)[i2] == v);
    }
}

proof fn lemma_event_views_ordered(s: Seq<CompositionSummary>, f: TimeWindow)
    requires
        crate::sorting::strictly_ordered(s, summary_order()),
    ensures
        crate::sorting::strictly_ordered(ref_views(emerging_in(s).filter(ends_by(f))), crate::analysis::view_order()),
{
    let emg = |r: &CompositionSummary| (|x: CompositionSummary| is_emerging(x))(*r);
    let refo = |a: &CompositionSummary, b: &CompositionSummary| crate::analysis::summary_before(*a, *b);
    assert forall|i: int, j: int| 0 <= i < j < s.as_ref().len() implies #[trigger] refo(s.as_ref()[i], s.as_ref()[j]) by {
        assert(summary_order()(s[i], s[j]));
    }
    crate::sorting::lemma_filter_strictly_ordered(s.as_ref(), emg, refo);
    assert(emerging_in(s) == s.as_ref().filter(emg));
    crate::sorting::lemma_filter_strictly_ordered(emerging_in(s), ends_by(f), refo);
    let r = emerging_in(s).filter(ends_by(f));
    assert forall|i: int, j: int| 0 <= i < j < ref_views(r).len() implies #[trigger] crate::analysis::view_order()(
        ref_views(r)[i],
        ref_views(r)[j],
    ) by {
        assert(refo(r[i], r[j]));
    }
}

/// Two sets of summaries whose observations agree before the end of `f`
/// have the same events of the windows that end by then, in the same order.
proof fn lemma_event_views_agree_before(
    obs1: Seq<MatchObservation>,
    obs2: Seq<MatchObservation>,
    window_size: u64,
    s1: Seq<CompositionSummary>,
    s2: Seq<CompositionSummary>,
    f: TimeWindow,
)
    requires
        window_size > 0,
        all_windows_fit(obs1, window_size),
        all_windows_fit(obs2, window_size),
        analysis_summaries(obs1, window_size, s1),
        analysis_summaries(obs2, window_size, s2),
        obs1.filter(seen_before(f.end_exclusive)) == obs2.filter(seen_before(f.end_exclusive)),
    ensures
        ref_views(emerging_in(s1).filter(ends_by(f))) == ref_views(emerging_in(s2).filter(ends_by(f))),
{
    assert forall|x: SummaryView| !#[trigger] crate::analysis::view_order()(x, x) by {
        crate::text::lemma_text_irreflexive(x.0);
        crate::text::lemma_texts_irreflexive(x.2);
    }
    assert forall|x: SummaryView, y: SummaryView| #[trigger] crate::analysis::view_order()(x, y) implies !crate::analysis::view_order()(y, x) by {
        crate::text::lemma_text_asymmetric(x.0, y.0);
        crate::text::lemma_text_irreflexive(x.0);
        crate::text::lemma_texts_asymmetric(x.2, y.2);
    }
    lemma_event_views_ordered(s1, f);
    lemma_event_views_ordered(s2, f);
    assert forall|v: SummaryView|
        ref_views(emerging_in(s1).filter(ends_by(f))).contains(v) <==> ref_views(emerging_in(s2).filter(ends_by(f))).contains(v) by {
        lemma_event_view_moves(obs1, obs2, window_size, s1, s2, f, v);
        lemma_event_view_moves(obs2, obs1, window_size, s2, s1, f, v);
    }
    crate::sorting::lemma_strictly_ordered_unique(
        ref_views(emerging_in(s1).filter(ends_by(f))),
        ref_views(emerging_in(s2).filter(ends_by(f))),
        crate::analysis::view_order(),
    );
}

/// Two sets of summaries whose observations agree before the end of `f`
/// give the same early games of families emerged by then, and so the same
/// established scouts.
proof fn lemma_established_agree_before(
    obs1: Seq<MatchObservation>,
    obs2: Seq<MatchObservation>,
    window_size: u64,
    s1: Seq<CompositionSummary>,
    s2: Seq<CompositionSummary>,
    f: TimeWindow,
)
    requires
        window_size > 0,
        all_windows_fit(obs1, window_size),
        all_windows_fit(obs2, window_size),
        analysis_summaries(obs1, window_size, s1),
        analysis_summaries(obs2, window_size, s2),
        obs1.filter(seen_before(f.end_exclusive)) == obs2.filter(seen_before(f.end_exclusive)),
    ensures
        early_games_by(obs1, window_size, emerging_in(s1), f) == early_games_by(obs2, window_size, emerging_in(s2), f),
        established_by(obs1, window_size, emerging_in(s1), f) == established_by(obs2, window_size, emerging_in(s2), f),
{
    let e = f.end_exclusive;
    let r1 = emerging_in(s1).filter(ends_by(f));
    let r2 = emerging_in(s2).filter(ends_by(f));
    lemma_early_games_by(obs1, window_size, emerging_in(s1), f);
    lemma_early_games_by(obs2, window_size, emerging_in(s2), f);
    assert forall|i: int| 0 <= i < r1.len() implies summarizes(obs1, window_size, *#[trigger] r1[i]) && r1[i].window.end_exclusive <= e by {
        lemma_event_source(s1, f, i);
        let j = choose|j: int| 0 <= j < s1.len() && s1[j] == *r1[i] && is_emerging(s1[j]);
        assert(summarizes(obs1, window_size, s1[j]));
    }
    lemma_all_early_games_agree_before(obs1, obs2, window_size, e, r1);
    lemma_event_views_agree_before(obs1, obs2, window_size, s1, s2, f);
    lemma_all_early_games_views(obs2, window_size, r1, r2);
    assert(established_by(obs1, window_size, emerging_in(s1), f) =~= established_by(obs2, window_size, emerging_in(s2), f));
}


/// How many of the first `n` observations were made before `e`.
spec fn kept_before(obs: Seq<MatchObservation>, e: u64, n: int) -> int {
    obs.take(n).filter(seen_before(e)).len() as int
}

proof fn lemma_kept_step(obs: Seq<MatchObservation>, e: u64, k: int)
    requires
        0 <= k < obs.len(),
    ensures
        seen_before(e)(obs[k]) ==> kept_before(obs, e, k + 1) == kept_before(obs, e, k) + 1 && kept_before(obs, e, k)
            < obs.filter(seen_before(e)).len() && obs.filter(seen_before(e))[kept_before(obs, e, k)] == obs[k],
        !seen_before(e)(obs[k]) ==> kept_before(obs, e, k + 1) == kept_before(obs, e, k),
{
    let pe = seen_before(e);
    assert(obs.take(k + 1) == obs.take(k).push(obs[k]));
    obs.take(k).lemma_filter_push(obs[k], pe);
    assert(obs.take(k + 1).is_prefix_of(obs));
    obs.take(k + 1).lemma_filter_monotone(obs, pe);
    if pe(obs[k]) {
        let f = obs.take(k + 1).filter(pe);
        assert(f[kept_before(obs, e, k)] == obs[k]);
        assert(obs.filter(pe).subrange(0, f.len() as int)[kept_before(obs, e, k)] == obs[k]);
    }
}

proof fn lemma_kept_monotone(obs: Seq<MatchObservation>, e: u64, j: int, k: int)
    requires
        0 <= j <= k <= obs.len(),
    ensures
        kept_before(obs, e, j) <= kept_before(obs, e, k),
{
    assert(obs.take(j).is_prefix_of(obs.take(k)));
    obs.take(j).lemma_filter_monotone(obs.take(k), seen_before(e));
}

proof fn lemma_kept_reaches(obs: Seq<MatchObservation>, e: u64, n: int, i: int)
    requires
        0 <= n <= obs.len(),
        0 <= i < kept_before(obs, e, n),
    ensures
        exists|k: int| 0 <= k < n && seen_before(e)(obs[k]) && #[trigger] kept_before(obs, e, k) == i,
    decreases n,
{
    if n == 0 {
        reveal(Seq::filter);
        assert(obs.take(0).len() == 0);
    } else {
        lemma_kept_step(obs, e, n - 1);
        if i < kept_before(obs, e, n - 1) {
            lemma_kept_reaches(obs, e, n - 1, i);
            let k = choose|k: int| 0 <= k < n - 1 && seen_before(e)(obs[k]) && #[trigger] kept_before(obs, e, k) == i;
        } else {
            assert(seen_before(e)(obs[n - 1]) && kept_before(obs, e, n - 1) == i);
        }
    }
}

/// A game made before `e` is a player's latest in a window that ends by `e`
/// exactly when it is so among the observations made before `e`.
proof fn lemma_latest_kept(obs: Seq<MatchObservation>, window_size: u64, e: u64, w: TimeWindow, k: int)
    requires
        window_size > 0,
        all_windows_fit(obs, window_size),
        w.end_exclusive <= e,
        0 <= k < obs.len(),
        seen_before(e)(obs[k]),
    ensures
        crate::forecast::is_latest_game(obs, window_size, w, k) <==> crate::forecast::is_latest_game(
            obs.filter(seen_before(e)),
            window_size,
            w,
            kept_before(obs, e, k),
        ),
{
    let pe = seen_before(e);
    let c = obs.filter(pe);
    let i = kept_before(obs, e, k);
    lemma_kept_step(obs, e, k);
    crate::analysis::lemma_window_facts(obs, window_size);
    assert(obs.take(obs.len() as int) == obs);
    if crate::forecast::is_latest_game(obs, window_size, w, k) {
        assert forall|i2: int|
            0 <= i2 < c.len() && #[trigger] c[i2].player_id@ == c[i].player_id@ && window_of(c[i2].timestamp, window_size)
                == w implies c[i2].timestamp < c[i].timestamp || (c[i2].timestamp == c[i].timestamp && i <= i2) by {
            lemma_kept_reaches(obs, e, obs.len() as int, i2);
            let j = choose|j: int| 0 <= j < obs.len() && pe(obs[j]) && #[trigger] kept_before(obs, e, j) == i2;
            lemma_kept_step(obs, e, j);
            assert(obs[j].player_id@ == obs[k].player_id@);
            if k < j {
                lemma_kept_monotone(obs, e, k + 1, j);
            }
        }
    }
    if crate::forecast::is_latest_game(c, window_size, w, i) {
        assert forall|j: int|
            0 <= j < obs.len() && #[trigger] obs[j].player_id@ == obs[k].player_id@ && window_of(obs[j].timestamp, window_size)
                == w implies obs[j].timestamp < obs[k].timestamp || (obs[j].timestamp == obs[k].timestamp && k <= j) by {
            assert(obs[j].timestamp < window_of(obs[j].timestamp, window_size).end_exclusive);
            assert(pe(obs[j]));
            lemma_kept_step(obs, e, j);
            let i2 = kept_before(obs, e, j);
            assert(c[i2].player_id@ == c[i].player_id@);
            if j < k {
                lemma_kept_monotone(obs, e, j + 1, k);
            }
        }
    }
}

/// The backing of a board in a window that ends by `e` counts only games
/// made before `e`.
proof fn lemma_backing_kept(
    obs: Seq<MatchObservation>,
    window_size: u64,
    est: spec_fn(Seq<char>) -> bool,
    w: TimeWindow,
    b: (Seq<char>, Seq<Seq<char>>),
    e: u64,
    n: int,
)
    requires
        window_size > 0,
        all_windows_fit(obs, window_size),
        w.end_exclusive <= e,
        0 <= n <= obs.len(),
    ensures
        backing(obs, window_size, est, w, b, n) == backing(obs.filter(seen_before(e)), window_size, est, w, b, kept_before(obs, e, n)),
    decreases n,
{
    broadcast use vstd::seq_lib::group_seq_properties;
    let pe = seen_before(e);
    let c = obs.filter(pe);
    if n == 0 {
        reveal(Seq::filter);
        assert(obs.take(0).len() == 0);
    } else {
        lemma_backing_kept(obs, window_size, est, w, b, e, n - 1);
        lemma_kept_step(obs, e, n - 1);
        if pe(obs[n - 1]) {
            let i = kept_before(obs, e, n - 1);
            lemma_latest_kept(obs, window_size, e, w, n - 1);
            assert forall|m: int| 0 <= m < c.len() implies pe(#[trigger] c[m]) by {
                obs.lemma_filter_pred(pe, m);
            }
            crate::sorting::lemma_filter_all(c, pe);
            assert(obs.contains(obs[n - 1]));
            crate::families::lemma_family_agrees_before(obs, c, e, obs[n - 1]);
            assert(board_at(obs, window_size, n - 1) == board_at(c, window_size, i));
        } else {
            crate::analysis::lemma_window_facts(obs, window_size);
            assert(obs[n - 1].timestamp < window_of(obs[n - 1].timestamp, window_size).end_exclusive);
            assert(!crate::forecast::is_latest_game(obs, window_size, w, n - 1));
        }
    }
}

/// The backing of a board in a window `f` is the same in two sets of
/// observations that agree before the end of `f`.
proof fn lemma_backing_agree_before(
    obs1: Seq<MatchObservation>,
    obs2: Seq<MatchObservation>,
    window_size: u64,
    est: spec_fn(Seq<char>) -> bool,
    f: TimeWindow,
    b: (Seq<char>, Seq<Seq<char>>),
)
    requires
        window_size > 0,
        all_windows_fit(obs1, window_size),
        all_windows_fit(obs2, window_size),
        obs1.filter(seen_before(f.end_exclusive)) == obs2.filter(seen_before(f.end_exclusive)),
    ensures
        backing(obs1, window_size, est, f, b, obs1.len() as int) == backing(obs2, window_size, est, f, b, obs2.len() as int),
{
    lemma_backing_kept(obs1, window_size, est, f, b, f.end_exclusive, obs1.len() as int);
    lemma_backing_kept(obs2, window_size, est, f, b, f.end_exclusive, obs2.len() as int);
    assert(obs1.take(obs1.len() as int) == obs1);
    assert(obs2.take(obs2.len() as int) == obs2);
}

/// No lookahead in the scouts' forecast: two sets of observations that
/// agree on everything observed before the end of window `f` give each patch
/// the same scout forecast made in `f`, whatever each of them holds from
/// later on.
pub proof fn lemma_scout_forecast_no_lookahead(
    obs1: Seq<MatchObservation>,
    obs2: Seq<MatchObservation>,
    window_size: u64,
    s1: Seq<CompositionSummary>,
    s2: Seq<CompositionSummary>,
    p: Seq<char>,
    f: TimeWindow,
)
    requires
        window_size > 0,
        all_windows_fit(obs1, window_size),
        all_windows_fit(obs2, window_size),
        analysis_summaries(obs1, window_size, s1),
        analysis_summaries(obs2, window_size, s2),
        obs1.filter(seen_before(f.end_exclusive)) == obs2.filter(seen_before(f.end_exclusive)),
    ensures
        scout_forecast(obs1, window_size, emerging_in(s1), p, f) == scout_forecast(obs2, window_size, emerging_in(s2), p, f),
{
    lemma_established_agree_before(obs1, obs2, window_size, s1, s2, f);
    let est = established_by(obs1, window_size, emerging_in(s1), f);
    let n1 = obs1.len() as int;
    let n2 = obs2.len() as int;
    assert forall|b: (Seq<char>, Seq<Seq<char>>)| #[trigger] backing(obs1, window_size, est, f, b, n1) == backing(
        obs2,
        window_size,
        est,
        f,
        b,
        n2,
    ) by {
        lemma_backing_agree_before(obs1, obs2, window_size, est, f, b);
    }
    assert forall|c: Seq<Seq<char>>| is_top_board(obs1, window_size, est, f, p, c) <==> is_top_board(
        obs2,
        window_size,
        est,
        f,
        p,
        c,
    ) by {
        assert(backing(obs1, window_size, est, f, (p, c), n1) == backing(obs2, window_size, est, f, (p, c), n2));
        assert forall|c2: Seq<Seq<char>>| #[trigger] backing(obs2, window_size, est, f, (p, c2), n2) == backing(
            obs1,
            window_size,
            est,
            f,
            (p, c2),
            n1,
        ) by {
            assert(backing(obs1, window_size, est, f, (p, c2), n1) == backing(obs2, window_size, est, f, (p, c2), n2));
        }
    }
    if exists|c: Seq<Seq<char>>| is_top_board(obs1, window_size, est, f, p, c) {
        let c1 = choose|c: Seq<Seq<char>>| is_top_board(obs1, window_size, est, f, p, c);
        assert(is_top_board(obs2, window_size, est, f, p, c1));
        let c2 = choose|c: Seq<Seq<char>>| is_top_board(obs2, window_size, est, f, p, c);
        lemma_top_board_unique(obs2, window_size, est, f, p, c1, c2);
    } else if exists|c: Seq<Seq<char>>| is_top_board(obs2, window_size, est, f, p, c) {
        let c2 = choose|c: Seq<Seq<char>>| is_top_board(obs2, window_size, est, f, p, c);
        assert(is_top_board(obs1, window_size, est, f, p, c2));
    }
}


/// No lookahead in the historical replay: an event of each of two analyses,
/// of the same patch and with the same forecast window `f`, gets the same
/// scout, popularity and performance forecasts from both, when their
/// observations agree on everything observed before the end of `f`.
pub proof fn lemma_replay_no_lookahead(
    obs1: Seq<MatchObservation>,
    obs2: Seq<MatchObservation>,
    window_size: u64,
    s1: Seq<CompositionSummary>,
    s2: Seq<CompositionSummary>,
    i1: int,
    i2: int,
)
    requires
        window_size > 0,
        all_windows_fit(obs1, window_size),
        all_windows_fit(obs2, window_size),
        analysis_summaries(obs1, window_size, s1),
        analysis_summaries(obs2, window_size, s2),
        0 <= i1 < emerging_in(s1).len(),
        0 <= i2 < emerging_in(s2).len(),
        emerging_in(s1)[i1].patch@ == emerging_in(s2)[i2].patch@,
        forecast_window(*emerging_in(s1)[i1]) == forecast_window(*emerging_in(s2)[i2]),
        obs1.filter(seen_before(forecast_window(*emerging_in(s1)[i1]).end_exclusive)) == obs2.filter(
            seen_before(forecast_window(*emerging_in(s1)[i1]).end_exclusive),
        ),
    ensures
        scout_predictions(obs1, window_size, emerging_in(s1))(i1) == scout_predictions(obs2, window_size, emerging_in(s2))(i2),
        popularity_predictions(s1, emerging_in(s1))(i1) == popularity_predictions(s2, emerging_in(s2))(i2),
        performance_predictions(s1, emerging_in(s1))(i1) == performance_predictions(s2, emerging_in(s2))(i2),
{
    let p = emerging_in(s1)[i1].patch@;
    let f = forecast_window(*emerging_in(s1)[i1]);
    lemma_scout_forecast_no_lookahead(obs1, obs2, window_size, s1, s2, p, f);
    lemma_baselines_no_lookahead(obs1, obs2, window_size, s1, s2, p, f);
}

} // verus!
