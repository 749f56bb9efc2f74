//! Forecasts from the latest boards of established scouts.
use vstd::prelude::*;

use crate::analysis::{TimeWindow, group_of, window_of};
use crate::model::{Composition, MatchObservation};
use crate::scouting::{CompositionAnalysis, ScoutSummary, is_established};
use crate::sorting::TotalPreorder;
use crate::text::{Precedence, compare_text, text_before, texts_before};

verus! {

/// Player `p` is an established scout among `scouts`.
pub open spec fn is_scout(scouts: Seq<ScoutSummary>, p: Seq<char>) -> bool {
    exists|i: int| 0 <= i < scouts.len() && #[trigger] scouts[i].player_id@ == p && is_established(scouts[i])
}

/// Observation `k` is the latest game of its player in window `w`: no game
/// of that player in `w` is later, and none listed before it is as late.
pub open spec fn is_latest_game(obs: Seq<MatchObservation>, window_size: u64, w: TimeWindow, k: int) -> bool {
    &&& window_of(obs[k].timestamp, window_size) == w
    &&& forall|j: int|
        0 <= j < obs.len() && #[trigger] obs[j].player_id@ == obs[k].player_id@ && window_of(
            obs[j].timestamp,
            window_size,
        ) == w ==> obs[j].timestamp < obs[k].timestamp || (obs[j].timestamp == obs[k].timestamp && k <= j)
}

/// The players that `scouts` lists as established.
pub open spec fn scout_test(scouts: Seq<ScoutSummary>) -> spec_fn(Seq<char>) -> bool {
    |p: Seq<char>| is_scout(scouts, p)
}

/// Observation `k` is the latest game in window `w` of a player that
/// `established` accepts.
pub open spec fn picks(
    obs: Seq<MatchObservation>,
    window_size: u64,
    established: spec_fn(Seq<char>) -> bool,
    w: TimeWindow,
    k: int,
) -> bool {
    established(obs[k].player_id@) && is_latest_game(obs, window_size, w, k)
}

/// The board an observation stands for: its patch and its family.
pub open spec fn board_at(obs: Seq<MatchObservation>, window_size: u64, k: int) -> (Seq<char>, Seq<Seq<char>>) {
    (obs[k].patch@, group_of(obs, window_size, obs[k]).2)
}

/// The number of scouts among the first `n` observations whose latest game
/// in `w` was board `b`.
pub open spec fn backing(
    obs: Seq<MatchObservation>,
    window_size: u64,
    established: spec_fn(Seq<char>) -> bool,
    w: TimeWindow,
    b: (Seq<char>, Seq<Seq<char>>),
    n: int,
) -> nat
    decreases n,
{
    if n <= 0 {
        0
    } else {
        backing(obs, window_size, established, w, b, n - 1) + if picks(obs, window_size, established, w, n - 1)
            && board_at(obs, window_size, n - 1) == b {
            1nat
        } else {
            0nat
        }
    }
}

/// A board that established scouts last played, with the number of them.
#[derive(Debug)]
pub struct ScoutForecast {
    pub patch: String,
    pub composition: Composition,
    pub scouts: usize,
}

impl ScoutForecast {
    pub open spec fn board(self) -> (Seq<char>, Seq<Seq<char>>) {
        (self.patch@, self.composition@)
    }
}

/// `f` counts the scouts behind its board.
pub open spec fn forecasts_board(
    obs: Seq<MatchObservation>,
    window_size: u64,
    established: spec_fn(Seq<char>) -> bool,
    w: TimeWindow,
    f: ScoutForecast,
) -> bool {
    &&& f.scouts == backing(obs, window_size, established, w, f.board(), obs.len() as int)
    &&& f.scouts > 0
}

/// Some forecast is of board `b`.
pub open spec fn lists_forecast(forecasts: Seq<ScoutForecast>, b: (Seq<char>, Seq<Seq<char>>)) -> bool {
    exists|i: int| 0 <= i < forecasts.len() && #[trigger] forecasts[i].board() == b
}

/// Forecasts are listed by most scouts first, then patch, then composition.
pub open spec fn forecast_before(a: ScoutForecast, b: ScoutForecast) -> bool {
    ||| a.scouts > b.scouts
    ||| a.scouts == b.scouts && text_before(a.patch@, b.patch@)
    ||| a.scouts == b.scouts && a.patch@ == b.patch@ && texts_before(a.composition@, b.composition@)
}

pub open spec fn forecast_order() -> spec_fn(ScoutForecast, ScoutForecast) -> bool {
    |a: ScoutForecast, b: ScoutForecast| forecast_before(a, b)
}

proof fn lemma_forecast_order(a: ScoutForecast, b: ScoutForecast, c: ScoutForecast)
    ensures
        !forecast_before(a, a),
        forecast_before(a, b) ==> !forecast_before(b, a),
        !forecast_before(a, b) && !forecast_before(b, a) ==> a.scouts == b.scouts && a.board() == b.board(),
        forecast_before(a, b) && forecast_before(b, c) ==> forecast_before(a, c),
{
    crate::text::lemma_text_irreflexive(a.patch@);
    crate::text::lemma_texts_irreflexive(a.composition@);
    crate::text::lemma_text_asymmetric(a.patch@, b.patch@);
    crate::text::lemma_texts_asymmetric(a.composition@, b.composition@);
    crate::text::lemma_text_total(a.patch@, b.patch@);
    crate::text::lemma_texts_total(a.composition@, b.composition@);
    crate::text::lemma_text_transitive(a.patch@, b.patch@, c.patch@);
    crate::text::lemma_texts_transitive(a.composition@, b.composition@, c.composition@);
}

/// The listing order of forecasts.
pub struct ForecastOrder;

impl TotalPreorder<ScoutForecast> for ForecastOrder {
    open spec fn precedes(&self, a: ScoutForecast, b: ScoutForecast) -> bool {
        !forecast_before(b, a)
    }

    fn precedes_exec(&self, a: &ScoutForecast, b: &ScoutForecast) -> (r: bool) {
        if b.scouts != a.scouts {
            return b.scouts < a.scouts;
        }
        match compare_text(b.patch.as_str(), a.patch.as_str()) {
            Precedence::Before => false,
            Precedence::After => true,
            Precedence::Same => match b.composition.compare(&a.composition) {
                Precedence::Before => false,
                _ => true,
            },
        }
    }

    proof fn lemma_total_preorder(&self) {
        assert forall|a: ScoutForecast, b: ScoutForecast| #[trigger] self.precedes(a, b) || self.precedes(b, a) by {
            lemma_forecast_order(a, b, b);
        }
        assert forall|a: ScoutForecast, b: ScoutForecast, c: ScoutForecast|
            #[trigger] self.precedes(a, b) && #[trigger] self.precedes(b, c) implies self.precedes(a, c) by {
            lemma_forecast_order(c, b, a);
            lemma_forecast_order(a, b, c);
            lemma_forecast_order(b, a, c);
            lemma_forecast_order(c, a, b);
            lemma_forecast_order(b, c, a);
            lemma_forecast_order(a, c, b);
        }
    }
}

/// Whether `player` is an established scout among `scouts`.
pub fn is_scout_exec(scouts: &[ScoutSummary], player: &String) -> (r: bool)
    ensures
        r == is_scout(scouts@, player@),
{
    let mut i: usize = 0;
    while i < scouts.len()
        invariant
            0 <= i <= scouts@.len(),
            forall|q: int| 0 <= q < i ==> !(#[trigger] scouts@[q].player_id@ == player@ && is_established(scouts@[q])),
        decreases scouts@.len() - i,
    {
        if scouts[i].signals >= 2 {
            if let Precedence::Same = compare_text(scouts[i].player_id.as_str(), player.as_str()) {
                return true;
            }
        }
        i = i + 1;
    }
    false
}

fn find_forecast(forecasts: &Vec<ScoutForecast>, patch: &String, composition: &Composition) -> (r: Option<usize>)
    ensures
        r matches Some(j) ==> j < forecasts@.len() && forecasts@[j as int].board() == (patch@, composition@),
        r is None ==> !lists_forecast(forecasts@, (patch@, composition@)),
{
    let mut j: usize = 0;
    while j < forecasts.len()
        invariant
            0 <= j <= forecasts@.len(),
            forall|q: int| 0 <= q < j ==> #[trigger] forecasts@[q].board() != (patch@, composition@),
        decreases forecasts@.len() - j,
    {
        if let Precedence::Same = compare_text(forecasts[j].patch.as_str(), patch.as_str()) {
            if let Precedence::Same = forecasts[j].composition.compare(composition) {
                return Some(j);
            }
        }
        j = j + 1;
    }
    None
}

proof fn lemma_backing_bounded(
    obs: Seq<MatchObservation>,
    window_size: u64,
    established: spec_fn(Seq<char>) -> bool,
    w: TimeWindow,
    b: (Seq<char>, Seq<Seq<char>>),
    n: int,
)
    requires
        0 <= n,
    ensures
        backing(obs, window_size, established, w, b, n) <= n,
    decreases n,
{
    if n > 0 {
        lemma_backing_bounded(obs, window_size, established, w, b, n - 1);
    }
}

spec fn tallies_forecasts(
    obs: Seq<MatchObservation>,
    window_size: u64,
    established: spec_fn(Seq<char>) -> bool,
    w: TimeWindow,
    forecasts: Seq<ScoutForecast>,
    n: int,
) -> bool {
    &&& forall|j: int|
        0 <= j < forecasts.len() ==> {
            &&& #[trigger] forecasts[j].scouts == backing(obs, window_size, established, w, forecasts[j].board(), n)
            &&& forecasts[j].scouts > 0
        }
    &&& forall|m: int|
        0 <= m < n && #[trigger] picks(obs, window_size, established, w, m) ==> lists_forecast(
            forecasts,
            board_at(obs, window_size, m),
        )
    &&& forall|i: int, j: int|
        0 <= i < j < forecasts.len() ==> #[trigger] forecasts[i].board() != #[trigger] forecasts[j].board()
}

/// Counts one more pick, of board `(patch, composition)`.
#[verifier::spinoff_prover]
fn record_pick(
    forecasts: &mut Vec<ScoutForecast>,
    patch: &String,
    composition: &Composition,
    Ghost(obs): Ghost<Seq<MatchObservation>>,
    Ghost(window_size): Ghost<u64>,
    Ghost(established): Ghost<spec_fn(Seq<char>) -> bool>,
    Ghost(w): Ghost<TimeWindow>,
    Ghost(n): Ghost<int>,
)
    requires
        0 <= n < obs.len() <= usize::MAX,
        picks(obs, window_size, established, w, n),
        board_at(obs, window_size, n) == (patch@, composition@),
        tallies_forecasts(obs, window_size, established, w, old(forecasts)@, n),
    ensures
        tallies_forecasts(obs, window_size, established, w, final(forecasts)@, n + 1),
{
    let ghost b = (patch@, composition@);
    let ghost old_forecasts = forecasts@;
    match find_forecast(forecasts, patch, composition) {
        Some(j) => {
            proof {
                lemma_backing_bounded(obs, window_size, established, w, b, n);
            }
            let updated = ScoutForecast {
                patch: forecasts[j].patch.clone(),
                composition: forecasts[j].composition.duplicate(),
                scouts: forecasts[j].scouts + 1,
            };
            forecasts.set(j, updated);
            proof {
                assert forall|q: int| 0 <= q < forecasts@.len() implies {
                    &&& #[trigger] forecasts@[q].scouts == backing(obs, window_size, established, w, forecasts@[q].board(), n + 1)
                    &&& forecasts@[q].scouts > 0
                } by {
                    if q != j {
                        assert(forecasts@[q] == old_forecasts[q]);
                        assert(old_forecasts[q].board() != old_forecasts[j as int].board());
                    }
                }
                assert forall|m: int|
                    0 <= m < n + 1 && #[trigger] picks(obs, window_size, established, w, m) implies lists_forecast(
                    forecasts@,
                    board_at(obs, window_size, m),
                ) by {
                    if m < n {
                        let q = choose|q: int| 0 <= q < old_forecasts.len() && #[trigger] old_forecasts[q].board() == board_at(obs, window_size, m);
                        assert(forecasts@[q].board() == old_forecasts[q].board());
                    } else {
                        assert(forecasts@[j as int].board() == b);
                    }
                }
                assert forall|x: int, y: int| 0 <= x < y < forecasts@.len() implies #[trigger] forecasts@[x].board() != #[trigger] forecasts@[y].board() by {
                    assert(forecasts@[x].board() == old_forecasts[x].board());
                    assert(forecasts@[y].board() == old_forecasts[y].board());
                }
            }
        },
        None => {
            forecasts.push(ScoutForecast { patch: patch.clone(), composition: composition.duplicate(), scouts: 1 });
            proof {
                let last = old_forecasts.len() as int;
                assert(backing(obs, window_size, established, w, b, n) == 0) by {
                    if backing(obs, window_size, established, w, b, n) > 0 {
                        let m = lemma_backing_witness(obs, window_size, established, w, b, n);
                        assert(lists_forecast(old_forecasts, board_at(obs, window_size, m)));
                    }
                }
                assert forall|q: int| 0 <= q < forecasts@.len() implies {
                    &&& #[trigger] forecasts@[q].scouts == backing(obs, window_size, established, w, forecasts@[q].board(), n + 1)
                    &&& forecasts@[q].scouts > 0
                } by {
                    if q != last {
                        assert(forecasts@[q] == old_forecasts[q]);
                        assert(old_forecasts[q].board() != b);
                    }
                }
                assert forall|m: int|
                    0 <= m < n + 1 && #[trigger] picks(obs, window_size, established, w, m) implies lists_forecast(
                    forecasts@,
                    board_at(obs, window_size, m),
                ) by {
                    if m < n {
                        let q = choose|q: int| 0 <= q < old_forecasts.len() && #[trigger] old_forecasts[q].board() == board_at(obs, window_size, m);
                        assert(forecasts@[q] == old_forecasts[q]);
                    } else {
                        assert(forecasts@[last].board() == b);
                    }
                }
                assert forall|x: int, y: int| 0 <= x < y < forecasts@.len() implies #[trigger] forecasts@[x].board() != #[trigger] forecasts@[y].board() by {
                    assert(forecasts@[x] == old_forecasts[x]);
                    if y < last {
                        assert(forecasts@[y] == old_forecasts[y]);
                    }
                }
            }
        },
    }
}

/// A board with backing has a pick behind it.
pub proof fn lemma_backing_witness(
    obs: Seq<MatchObservation>,
    window_size: u64,
    established: spec_fn(Seq<char>) -> bool,
    w: TimeWindow,
    b: (Seq<char>, Seq<Seq<char>>),
    n: int,
) -> (m: int)
    requires
        backing(obs, window_size, established, w, b, n) > 0,
    ensures
        0 <= m < n,
        picks(obs, window_size, established, w, m),
        board_at(obs, window_size, m) == b,
    decreases n,
{
    if picks(obs, window_size, established, w, n - 1) && board_at(obs, window_size, n - 1) == b {
        n - 1
    } else {
        lemma_backing_witness(obs, window_size, established, w, b, n - 1)
    }
}

impl<'a> CompositionAnalysis<'a> {
    /// Whether observation `k` is the latest game of its player in `window`.
    fn is_latest_game_exec(&self, window: TimeWindow, k: usize) -> (r: bool)
        requires
            k < self.spec_observations().len(),
        ensures
            r == is_latest_game(self.spec_observations(), self.spec_window_size(), window, k as int),
    {
        let ghost obs = self.spec_observations();
        let ghost window_size = self.spec_window_size();
        let observations = self.observations();
        if self.group_at(k).0 != window {
            return false;
        }
        let observation = &observations[k];
        let mut j: usize = 0;
        while j < observations.len()
            invariant
                obs == observations@,
                obs == self.spec_observations(),
                window_size == self.spec_window_size(),
                0 <= j <= obs.len(),
                k < obs.len(),
                observation == obs[k as int],
                forall|q: int|
                    0 <= q < j && #[trigger] obs[q].player_id@ == obs[k as int].player_id@ && window_of(
                        obs[q].timestamp,
                        window_size,
                    ) == window ==> obs[q].timestamp < obs[k as int].timestamp || (obs[q].timestamp
                        == obs[k as int].timestamp && k <= q),
            decreases obs.len() - j,
        {
            let other = &observations[j];
            if self.group_at(j).0 == window {
                if let Precedence::Same = compare_text(other.player_id.as_str(), observation.player_id.as_str()) {
                    if other.timestamp > observation.timestamp || (other.timestamp == observation.timestamp && j < k) {
                        return false;
                    }
                }
            }
            j = j + 1;
        }
        true
    }

    /// The latest board of each established scout in `window`, counted by
    /// board: most scouts first, then by patch and composition.
    pub fn forecast_from_scouts_in_window(&self, scouts: &[ScoutSummary], window: TimeWindow) -> (forecasts: Vec<ScoutForecast>)
        ensures
            crate::sorting::strictly_ordered(forecasts@, forecast_order()),
            forall|i: int|
                0 <= i < forecasts@.len() ==> forecasts_board(
                    self.spec_observations(),
                    self.spec_window_size(),
                    scout_test(scouts@),
                    window,
                    #[trigger] forecasts@[i],
                ),
            forall|k: int|
                0 <= k < self.spec_observations().len() && #[trigger] picks(
                    self.spec_observations(),
                    self.spec_window_size(),
                    scout_test(scouts@),
                    window,
                    k,
                ) ==> lists_forecast(forecasts@, board_at(self.spec_observations(), self.spec_window_size(), k)),
    {
        let ghost obs = self.spec_observations();
        let ghost window_size = self.spec_window_size();
        let observations = self.observations();
        let mut forecasts: Vec<ScoutForecast> = Vec::new();
        let mut k: usize = 0;
        while k < observations.len()
            invariant
                obs == observations@,
                obs == self.spec_observations(),
                window_size == self.spec_window_size(),
                0 <= k <= obs.len(),
                tallies_forecasts(obs, window_size, scout_test(scouts@), window, forecasts@, k as int),
            decreases obs.len() - k,
        {
            let observation = &observations[k];
            let chosen = is_scout_exec(scouts, &observation.player_id) && self.is_latest_game_exec(window, k);
            if chosen {
                let group = self.group_at(k);
                record_pick(&mut forecasts, &observation.patch, &group.1, Ghost(obs), Ghost(window_size), Ghost(scout_test(scouts@)), Ghost(window), Ghost(k as int));
            }
            k = k + 1;
        }
        let ghost unsorted = forecasts@;
        let order = ForecastOrder;
        crate::sorting::stable_sort(&mut forecasts, &order);
        proof {
            order.lemma_total_preorder();
            assert forall|x: int, y: int| 0 <= x < y < unsorted.len() implies !crate::sorting::equivalent(order, #[trigger] unsorted[x], #[trigger] unsorted[y]) by {
                lemma_forecast_order(unsorted[x], unsorted[y], unsorted[y]);
            }
            crate::sorting::lemma_rearrangement_distinct(order, forecasts@, unsorted);
            assert forall|x: int, y: int| 0 <= x < y < forecasts@.len() implies #[trigger] forecast_order()(forecasts@[x], forecasts@[y]) by {
                assert(order.precedes(forecasts@[x], forecasts@[y]));
                assert(!crate::sorting::equivalent(order, forecasts@[x], forecasts@[y]));
            }
            assert forall|q: int| 0 <= q < forecasts@.len() implies forecasts_board(obs, window_size, scout_test(scouts@), window, #[trigger] forecasts@[q]) by {
                crate::sorting::lemma_rearrangement_contains(order, forecasts@, unsorted, q);
                let j = choose|j: int| 0 <= j < unsorted.len() && unsorted[j] == forecasts@[q];
            }
            assert forall|m: int| 0 <= m < obs.len() && #[trigger] picks(obs, window_size, scout_test(scouts@), window, m) implies lists_forecast(forecasts@, board_at(obs, window_size, m)) by {
                let j = choose|j: int| 0 <= j < unsorted.len() && #[trigger] unsorted[j].board() == board_at(obs, window_size, m);
                crate::sorting::lemma_rearrangement_keeps(order, forecasts@, unsorted, j);
                let q = choose|q: int| 0 <= q < forecasts@.len() && forecasts@[q] == unsorted[j];
            }
        }
        forecasts
    }
}


/// A game picked as a player's latest in window `w` lies in `w`, no game of
/// that player in `w` is later, and any as late is listed after it.
pub proof fn lemma_latest_game_is_latest(obs: Seq<MatchObservation>, window_size: u64, w: TimeWindow, k: int)
    requires
        0 <= k < obs.len(),
        is_latest_game(obs, window_size, w, k),
    ensures
        window_of(obs[k].timestamp, window_size) == w,
        forall|j: int|
            0 <= j < obs.len() && obs[j].player_id@ == obs[k].player_id@ && window_of(obs[j].timestamp, window_size) == w
                ==> obs[j].timestamp <= obs[k].timestamp,
        forall|j: int|
            0 <= j < obs.len() && obs[j].player_id@ == obs[k].player_id@ && window_of(obs[j].timestamp, window_size) == w
                && obs[j].timestamp == obs[k].timestamp ==> k <= j,
{
    assert forall|j: int|
        0 <= j < obs.len() && obs[j].player_id@ == obs[k].player_id@ && window_of(obs[j].timestamp, window_size) == w
            implies obs[j].timestamp <= obs[k].timestamp by {
        assert(obs[j].player_id@ == obs[k].player_id@);
    }
    assert forall|j: int|
        0 <= j < obs.len() && obs[j].player_id@ == obs[k].player_id@ && window_of(obs[j].timestamp, window_size) == w
            && obs[j].timestamp == obs[k].timestamp implies k <= j by {
        assert(obs[j].player_id@ == obs[k].player_id@);
    }
}

/// A player has at most one latest game in a window.
pub proof fn lemma_latest_game_unique(obs: Seq<MatchObservation>, window_size: u64, w: TimeWindow, k1: int, k2: int)
    requires
        0 <= k1 < obs.len(),
        0 <= k2 < obs.len(),
        obs[k1].player_id@ == obs[k2].player_id@,
        is_latest_game(obs, window_size, w, k1),
        is_latest_game(obs, window_size, w, k2),
    ensures
        k1 == k2,
{
    assert(obs[k2].player_id@ == obs[k1].player_id@);
}


/// Among the first `n` observations, `k` is `player`'s game in `w` with the
/// latest timestamp, the first listed among equally late ones.
spec fn latest_so_far(obs: Seq<MatchObservation>, window_size: u64, w: TimeWindow, player: Seq<char>, n: int, k: int) -> bool {
    &&& 0 <= k < n
    &&& obs[k].player_id@ == player
    &&& window_of(obs[k].timestamp, window_size) == w
    &&& forall|j: int|
        0 <= j < n && #[trigger] obs[j].player_id@ == player && window_of(obs[j].timestamp, window_size) == w
            ==> obs[j].timestamp < obs[k].timestamp || (obs[j].timestamp == obs[k].timestamp && k <= j)
}

proof fn lemma_latest_so_far(obs: Seq<MatchObservation>, window_size: u64, w: TimeWindow, player: Seq<char>, m: int, n: int)
    requires
        0 <= m < n <= obs.len(),
        obs[m].player_id@ == player,
        window_of(obs[m].timestamp, window_size) == w,
    ensures
        exists|k: int| latest_so_far(obs, window_size, w, player, n, k),
    decreases n,
{
    if n - 1 == m && !exists|j: int| 0 <= j < m && obs[j].player_id@ == player && window_of(obs[j].timestamp, window_size) == w {
        assert(latest_so_far(obs, window_size, w, player, n, m));
    } else {
        let m2 = if n - 1 == m {
            choose|j: int| 0 <= j < m && obs[j].player_id@ == player && window_of(obs[j].timestamp, window_size) == w
        } else {
            m
        };
        let last = n - 1;
        lemma_latest_so_far(obs, window_size, w, player, m2, last);
        let k = choose|k: int| #[trigger] latest_so_far(obs, window_size, w, player, last, k);
        if obs[last].player_id@ == player && window_of(obs[last].timestamp, window_size) == w && obs[last].timestamp
            > obs[k].timestamp {
            assert forall|j: int|
                0 <= j < n && #[trigger] obs[j].player_id@ == player && window_of(obs[j].timestamp, window_size) == w
                    implies obs[j].timestamp < obs[last].timestamp || (obs[j].timestamp == obs[last].timestamp
                    && last <= j) by {
                if j < last {
                    assert(obs[j].player_id@ == player);
                }
            }
            assert(latest_so_far(obs, window_size, w, player, n, last));
        } else {
            assert forall|j: int|
                0 <= j < n && #[trigger] obs[j].player_id@ == player && window_of(obs[j].timestamp, window_size) == w
                    implies obs[j].timestamp < obs[k].timestamp || (obs[j].timestamp == obs[k].timestamp && k <= j) by {
                if j < last {
                    assert(obs[j].player_id@ == player);
                }
            }
            assert(latest_so_far(obs, window_size, w, player, n, k));
        }
    }
}

/// Every player who played in window `w` has a latest game there.
pub proof fn lemma_latest_game_exists(obs: Seq<MatchObservation>, window_size: u64, w: TimeWindow, m: int)
    requires
        0 <= m < obs.len(),
        window_of(obs[m].timestamp, window_size) == w,
    ensures
        exists|k: int| 0 <= k < obs.len() && obs[k].player_id@ == obs[m].player_id@ && is_latest_game(obs, window_size, w, k),
{
    lemma_latest_so_far(obs, window_size, w, obs[m].player_id@, m, obs.len() as int);
    let n = obs.len() as int;
    let k = choose|k: int| #[trigger] latest_so_far(obs, window_size, w, obs[m].player_id@, n, k);
    assert forall|j: int|
        0 <= j < obs.len() && #[trigger] obs[j].player_id@ == obs[k].player_id@ && window_of(obs[j].timestamp, window_size)
            == w implies obs[j].timestamp < obs[k].timestamp || (obs[j].timestamp == obs[k].timestamp && k <= j) by {
        assert(obs[j].player_id@ == obs[m].player_id@);
    }
    assert(is_latest_game(obs, window_size, w, k));
}

} // verus!
