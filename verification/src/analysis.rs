//! Composition families per patch and time window, and their statistics.
use vstd::prelude::*;

use crate::families::{
    Family, assign_composition_families, board_list, board_of, covers, describes_families,
    family_of, family_representative, is_board_list, lemma_family_agrees_before, seen_before,
};
use crate::model::{Composition, MatchObservation, identity};
use crate::sorting::TotalPreorder;
use crate::text::{Precedence, compare_text, text_before, texts_before};

verus! {

/// A fixed, half-open time window: `start <= timestamp < end_exclusive`.
#[derive(Debug, Clone, Copy, PartialEq, Eq, Structural, Hash, PartialOrd, Ord)]
pub struct TimeWindow {
    pub start: u64,
    pub end_exclusive: u64,
}

/// The window of size `window_size` that holds `timestamp`; windows are
/// anchored at timestamp zero.
pub open spec fn window_of(timestamp: u64, window_size: u64) -> TimeWindow {
    TimeWindow {
        start: (timestamp - timestamp % window_size) as u64,
        end_exclusive: (timestamp - timestamp % window_size + window_size) as u64,
    }
}

/// The end of the window that holds `timestamp` fits in a `u64`.
pub open spec fn window_fits(timestamp: u64, window_size: u64) -> bool {
    timestamp - timestamp % window_size + window_size <= u64::MAX
}

impl TimeWindow {
    pub fn containing(timestamp: u64, window_size: u64) -> (window: Self)
        requires
            window_size > 0,
            window_fits(timestamp, window_size),
        ensures
            window == window_of(timestamp, window_size),
            window.start <= timestamp < window.end_exclusive,
            window.end_exclusive - window.start == window_size,
    {
        assert(timestamp % window_size <= timestamp) by (nonlinear_arith)
            requires
                window_size > 0,
        ;
        let start = timestamp - timestamp % window_size;
        TimeWindow { start, end_exclusive: start + window_size }
    }
}

/// The group an observation is counted in: its patch, its time window and
/// the representative of its composition family.
pub open spec fn group_of(
    obs: Seq<MatchObservation>,
    window_size: u64,
    o: MatchObservation,
) -> (Seq<char>, TimeWindow, Seq<Seq<char>>) {
    (o.patch@, window_of(o.timestamp, window_size), family_of(obs, o.patch@, identity(o.units@)))
}

/// The number of the first `n` observations that fall in group `g`.
pub open spec fn plays(
    obs: Seq<MatchObservation>,
    window_size: u64,
    g: (Seq<char>, TimeWindow, Seq<Seq<char>>),
    n: int,
) -> nat
    decreases n,
{
    if n <= 0 {
        0
    } else {
        plays(obs, window_size, g, n - 1) + if group_of(obs, window_size, obs[n - 1]) == g {
            1nat
        } else {
            0nat
        }
    }
}

/// The sum of placements of the first `n` observations in group `g`.
pub open spec fn placement_sum(
    obs: Seq<MatchObservation>,
    window_size: u64,
    g: (Seq<char>, TimeWindow, Seq<Seq<char>>),
    n: int,
) -> nat
    decreases n,
{
    if n <= 0 {
        0
    } else {
        placement_sum(obs, window_size, g, n - 1) + if group_of(obs, window_size, obs[n - 1])
            == g {
            obs[n - 1].placement as nat
        } else {
            0nat
        }
    }
}

/// The number of the first `n` observations in group `g` that placed in the
/// top four.
pub open spec fn top_fours(
    obs: Seq<MatchObservation>,
    window_size: u64,
    g: (Seq<char>, TimeWindow, Seq<Seq<char>>),
    n: int,
) -> nat
    decreases n,
{
    if n <= 0 {
        0
    } else {
        top_fours(obs, window_size, g, n - 1) + if group_of(obs, window_size, obs[n - 1]) == g
            && obs[n - 1].placement <= 4 {
            1nat
        } else {
            0nat
        }
    }
}

/// The number of the first `n` observations of patch `p` in window `w`.
pub open spec fn window_plays(
    obs: Seq<MatchObservation>,
    window_size: u64,
    p: Seq<char>,
    w: TimeWindow,
    n: int,
) -> nat
    decreases n,
{
    if n <= 0 {
        0
    } else {
        window_plays(obs, window_size, p, w, n - 1) + if obs[n - 1].patch@ == p && window_of(
            obs[n - 1].timestamp,
            window_size,
        ) == w {
            1nat
        } else {
            0nat
        }
    }
}

pub proof fn lemma_plays_zero(
    obs: Seq<MatchObservation>,
    window_size: u64,
    g: (Seq<char>, TimeWindow, Seq<Seq<char>>),
    n: int,
)
    requires
        0 <= n <= obs.len(),
        forall|m: int| 0 <= m < n ==> group_of(obs, window_size, #[trigger] obs[m]) != g,
    ensures
        plays(obs, window_size, g, n) == 0,
        placement_sum(obs, window_size, g, n) == 0,
        top_fours(obs, window_size, g, n) == 0,
    decreases n,
{
    if n > 0 {
        lemma_plays_zero(obs, window_size, g, n - 1);
    }
}

pub proof fn lemma_plays_bounded(
    obs: Seq<MatchObservation>,
    window_size: u64,
    g: (Seq<char>, TimeWindow, Seq<Seq<char>>),
    n: int,
)
    requires
        0 <= n <= obs.len(),
    ensures
        plays(obs, window_size, g, n) <= n,
        top_fours(obs, window_size, g, n) <= plays(obs, window_size, g, n),
        placement_sum(obs, window_size, g, n) <= 255 * plays(obs, window_size, g, n),
    decreases n,
{
    if n > 0 {
        lemma_plays_bounded(obs, window_size, g, n - 1);
    }
}

pub proof fn lemma_window_plays_zero(
    obs: Seq<MatchObservation>,
    window_size: u64,
    p: Seq<char>,
    w: TimeWindow,
    n: int,
)
    requires
        0 <= n <= obs.len(),
        forall|m: int|
            0 <= m < n ==> !(#[trigger] obs[m].patch@ == p && window_of(obs[m].timestamp, window_size) == w),
    ensures
        window_plays(obs, window_size, p, w, n) == 0,
    decreases n,
{
    if n > 0 {
        lemma_window_plays_zero(obs, window_size, p, w, n - 1);
    }
}

pub proof fn lemma_window_plays_bounded(
    obs: Seq<MatchObservation>,
    window_size: u64,
    p: Seq<char>,
    w: TimeWindow,
    n: int,
)
    requires
        0 <= n <= obs.len(),
    ensures
        window_plays(obs, window_size, p, w, n) <= n,
    decreases n,
{
    if n > 0 {
        lemma_window_plays_bounded(obs, window_size, p, w, n - 1);
    }
}

proof fn lemma_group_step(
    obs: Seq<MatchObservation>,
    window_size: u64,
    g: (Seq<char>, TimeWindow, Seq<Seq<char>>),
    k: int,
)
    requires
        0 <= k < obs.len(),
    ensures
        plays(obs, window_size, g, k + 1) == plays(obs, window_size, g, k) + if group_of(
            obs,
            window_size,
            obs[k],
        ) == g {
            1nat
        } else {
            0nat
        },
        placement_sum(obs, window_size, g, k + 1) == placement_sum(obs, window_size, g, k)
            + if group_of(obs, window_size, obs[k]) == g {
            obs[k].placement as nat
        } else {
            0nat
        },
        top_fours(obs, window_size, g, k + 1) == top_fours(obs, window_size, g, k) + if group_of(
            obs,
            window_size,
            obs[k],
        ) == g && obs[k].placement <= 4 {
            1nat
        } else {
            0nat
        },
{
}

proof fn lemma_window_step(
    obs: Seq<MatchObservation>,
    window_size: u64,
    p: Seq<char>,
    w: TimeWindow,
    k: int,
)
    requires
        0 <= k < obs.len(),
    ensures
        window_plays(obs, window_size, p, w, k + 1) == window_plays(obs, window_size, p, w, k)
            + if obs[k].patch@ == p && window_of(obs[k].timestamp, window_size) == w {
            1nat
        } else {
            0nat
        },
{
}

/// The running statistics of one group.
struct GroupTally {
    patch: String,
    window: TimeWindow,
    composition: Composition,
    play_count: usize,
    placement_total: u64,
    top_four_count: usize,
}

impl GroupTally {
    spec fn group(self) -> (Seq<char>, TimeWindow, Seq<Seq<char>>) {
        (self.patch@, self.window, self.composition@)
    }
}

/// The running play count of one patch and window.
struct WindowTally {
    patch: String,
    window: TimeWindow,
    play_count: usize,
}

fn same_text(a: &String, b: &String) -> (r: bool)
    ensures
        r == (a@ == b@),
{
    match compare_text(a.as_str(), b.as_str()) {
        Precedence::Same => true,
        _ => false,
    }
}

} // verus!

verus! {

spec fn lists_group(groups: Seq<GroupTally>, g: (Seq<char>, TimeWindow, Seq<Seq<char>>)) -> bool {
    exists|j: int| 0 <= j < groups.len() && #[trigger] groups[j].group() == g
}

spec fn lists_window(windows: Seq<WindowTally>, p: Seq<char>, w: TimeWindow) -> bool {
    exists|j: int| 0 <= j < windows.len() && #[trigger] windows[j].patch@ == p && windows[j].window == w
}

spec fn tallies_groups(
    obs: Seq<MatchObservation>,
    window_size: u64,
    groups: Seq<GroupTally>,
    n: int,
) -> bool {
    &&& forall|j: int|
        0 <= j < groups.len() ==> {
            &&& #[trigger] groups[j].play_count == plays(obs, window_size, groups[j].group(), n)
            &&& groups[j].placement_total == placement_sum(obs, window_size, groups[j].group(), n)
            &&& groups[j].top_four_count == top_fours(obs, window_size, groups[j].group(), n)
            &&& groups[j].play_count > 0
        }
    &&& forall|m: int| 0 <= m < n ==> lists_group(groups, group_of(obs, window_size, #[trigger] obs[m]))
    &&& forall|i: int, j: int|
        0 <= i < j < groups.len() ==> #[trigger] groups[i].group() != #[trigger] groups[j].group()
}

spec fn tallies_windows(
    obs: Seq<MatchObservation>,
    window_size: u64,
    windows: Seq<WindowTally>,
    n: int,
) -> bool {
    &&& forall|j: int|
        0 <= j < windows.len() ==> #[trigger] windows[j].play_count == window_plays(
            obs,
            window_size,
            windows[j].patch@,
            windows[j].window,
            n,
        )
    &&& forall|m: int|
        0 <= m < n ==> lists_window(
            windows,
            (#[trigger] obs[m]).patch@,
            window_of(obs[m].timestamp, window_size),
        )
    &&& forall|i: int, j: int|
        0 <= i < j < windows.len() ==> !(#[trigger] windows[i].patch@ == #[trigger] windows[j].patch@
            && windows[i].window == windows[j].window)
}

/// Whether every observation's window end fits in a `u64`.
pub open spec fn all_windows_fit(obs: Seq<MatchObservation>, window_size: u64) -> bool {
    forall|k: int| 0 <= k < obs.len() ==> window_fits(#[trigger] obs[k].timestamp, window_size)
}

fn find_group(groups: &Vec<GroupTally>, patch: &String, window: TimeWindow, composition: &Composition) -> (r: Option<usize>)
    ensures
        r matches Some(j) ==> j < groups@.len() && groups@[j as int].group() == (patch@, window, composition@),
        r is None ==> !lists_group(groups@, (patch@, window, composition@)),
{
    let mut j: usize = 0;
    while j < groups.len()
        invariant
            0 <= j <= groups@.len(),
            forall|q: int| 0 <= q < j ==> #[trigger] groups@[q].group() != (patch@, window, composition@),
        decreases groups@.len() - j,
    {
        if groups[j].window == window && same_text(&groups[j].patch, patch) {
            if let Precedence::Same = groups[j].composition.compare(composition) {
                return Some(j);
            }
        }
        j = j + 1;
    }
    None
}

fn find_window(windows: &Vec<WindowTally>, patch: &String, window: TimeWindow) -> (r: Option<usize>)
    ensures
        r matches Some(j) ==> j < windows@.len() && windows@[j as int].patch@ == patch@ && windows@[j as int].window == window,
        r is None ==> !lists_window(windows@, patch@, window),
{
    let mut j: usize = 0;
    while j < windows.len()
        invariant
            0 <= j <= windows@.len(),
            forall|q: int| 0 <= q < j ==> !(#[trigger] windows@[q].patch@ == patch@ && windows@[q].window == window),
        decreases windows@.len() - j,
    {
        if windows[j].window == window && same_text(&windows[j].patch, patch) {
            return Some(j);
        }
        j = j + 1;
    }
    None
}

/// Counts the plays of every group and every patch window.
fn tally_groups(
    observations: &[MatchObservation],
    window_size: u64,
    families: &Vec<Family>,
) -> (r: (Vec<GroupTally>, Vec<WindowTally>))
    requires
        window_size > 0,
        all_windows_fit(observations@, window_size),
        observations@.len() * 255 <= u64::MAX,
        describes_families(families@, board_list(observations@)),
        is_board_list(observations@, board_list(observations@)),
        forall|m: int|
            0 <= m < observations@.len() ==> covers(
                board_list(observations@),
                board_of(#[trigger] observations@[m]),
            ),
    ensures
        tallies_groups(observations@, window_size, r.0@, observations@.len() as int),
        tallies_windows(observations@, window_size, r.1@, observations@.len() as int),
{
    let ghost obs = observations@;
    let mut groups: Vec<GroupTally> = Vec::new();
    let mut windows: Vec<WindowTally> = Vec::new();
    let mut k: usize = 0;
    while k < observations.len()
        invariant
            obs == observations@,
            0 <= k <= obs.len(),
            window_size > 0,
            all_windows_fit(obs, window_size),
            obs.len() * 255 <= u64::MAX,
            describes_families(families@, board_list(obs)),
            is_board_list(obs, board_list(obs)),
            forall|m: int| 0 <= m < obs.len() ==> covers(board_list(obs), board_of(#[trigger] obs[m])),
            tallies_groups(obs, window_size, groups@, k as int),
            tallies_windows(obs, window_size, windows@, k as int),
        decreases obs.len() - k,
    {
        let observation = &observations[k];
        let exact = Composition::from_units(observation.units.as_slice());
        assert(board_of(obs[k as int]) == (observation.patch@, exact@));
        let representative = family_representative(families, &observation.patch, &exact, Ghost(obs));
        let window = TimeWindow::containing(observation.timestamp, window_size);
        let ghost g = group_of(obs, window_size, obs[k as int]);
        assert(g == (observation.patch@, window, representative@));
        let placement = observation.placement;
        let top_four = placement <= 4;
        record_in_groups(&mut groups, &observation.patch, window, representative, placement, Ghost(obs), Ghost(window_size), Ghost(k as int));
        record_in_windows(&mut windows, &observation.patch, window, Ghost(obs), Ghost(window_size), Ghost(k as int));
        k = k + 1;
    }
    (groups, windows)
}

} // verus!

verus! {

#[verifier::spinoff_prover]
fn record_in_groups(
    groups: &mut Vec<GroupTally>,
    patch: &String,
    window: TimeWindow,
    representative: Composition,
    placement: u8,
    Ghost(obs): Ghost<Seq<MatchObservation>>,
    Ghost(window_size): Ghost<u64>,
    Ghost(k): Ghost<int>,
)
    requires
        0 <= k < obs.len(),
        obs.len() <= usize::MAX,
        obs.len() * 255 <= u64::MAX,
        tallies_groups(obs, window_size, old(groups)@, k),
        group_of(obs, window_size, obs[k]) == (patch@, window, representative@),
        placement == obs[k].placement,
    ensures
        tallies_groups(obs, window_size, final(groups)@, k + 1),
{
    let ghost g = group_of(obs, window_size, obs[k]);
    let top_four = placement <= 4;
        let ghost old_groups = groups@;
        match find_group(&groups, patch, window, &representative) {
            Some(j) => {
                let old = &groups[j];
                proof {
                    lemma_plays_bounded(obs, window_size, g, k);
                }
                let updated = GroupTally {
                    patch: old.patch.clone(),
                    window: old.window,
                    composition: old.composition.duplicate(),
                    play_count: old.play_count + 1,
                    placement_total: old.placement_total + placement as u64,
                    top_four_count: if top_four { old.top_four_count + 1 } else { old.top_four_count },
                };
                groups.set(j, updated);
                proof {
                    assert forall|q: int| 0 <= q < groups@.len() implies {
                        &&& #[trigger] groups@[q].play_count == plays(obs, window_size, groups@[q].group(), k + 1)
                        &&& groups@[q].placement_total == placement_sum(obs, window_size, groups@[q].group(), k + 1)
                        &&& groups@[q].top_four_count == top_fours(obs, window_size, groups@[q].group(), k + 1)
                        &&& groups@[q].play_count > 0
                    } by {
                        lemma_group_step(obs, window_size, groups@[q].group(), k);
                        if q != j {
                            assert(groups@[q] == old_groups[q]);
                            assert(old_groups[q].group() != old_groups[j as int].group());
                            assert(group_of(obs, window_size, obs[k]) != groups@[q].group());
                        } else {
                            assert(groups@[q].group() == g);
                            assert(old_groups[q].group() == g);
                            assert(old_groups[q].play_count == plays(obs, window_size, g, k));
                            assert(old_groups[q].placement_total == placement_sum(obs, window_size, g, k));
                            assert(old_groups[q].top_four_count == top_fours(obs, window_size, g, k));
                            assert(groups@[q].play_count == old_groups[q].play_count + 1);
                            assert(groups@[q].placement_total == old_groups[q].placement_total + placement);
                            assert(obs[k].placement == placement);
                            assert(placement_sum(obs, window_size, g, k + 1) == placement_sum(obs, window_size, g, k) + placement);
                            assert(groups@[q].top_four_count == top_fours(obs, window_size, g, k + 1));
                        }
                        assert(groups@[q].play_count == plays(obs, window_size, groups@[q].group(), k + 1));
                        assert(groups@[q].placement_total == placement_sum(obs, window_size, groups@[q].group(), k + 1));
                        assert(groups@[q].top_four_count == top_fours(obs, window_size, groups@[q].group(), k + 1));
                    }
                    assert forall|m: int| 0 <= m < k + 1 implies lists_group(groups@, group_of(obs, window_size, #[trigger] obs[m])) by {
                        if m < k {
                            let q = choose|q: int| 0 <= q < old_groups.len() && #[trigger] old_groups[q].group() == group_of(obs, window_size, obs[m]);
                            assert(groups@[q].group() == old_groups[q].group());
                        } else {
                            assert(groups@[j as int].group() == g);
                        }
                    }
                    assert forall|a: int, b: int| 0 <= a < b < groups@.len() implies #[trigger] groups@[a].group() != #[trigger] groups@[b].group() by {
                        assert(groups@[a].group() == old_groups[a].group());
                        assert(groups@[b].group() == old_groups[b].group());
                    }
                }
            },
            None => {
                proof {
                    assert forall|m: int| 0 <= m < k implies group_of(obs, window_size, #[trigger] obs[m]) != g by {
                        let q = choose|q: int| 0 <= q < old_groups.len() && #[trigger] old_groups[q].group() == group_of(obs, window_size, obs[m]);
                    }
                    lemma_plays_zero(obs, window_size, g, k);
                }
                groups.push(GroupTally {
                    patch: patch.clone(),
                    window,
                    composition: representative,
                    play_count: 1,
                    placement_total: placement as u64,
                    top_four_count: if top_four { 1 } else { 0 },
                });
                proof {
                    let last = old_groups.len() as int;
                    assert(groups@[last].group() == g);
                    assert forall|q: int| 0 <= q < groups@.len() implies {
                        &&& #[trigger] groups@[q].play_count == plays(obs, window_size, groups@[q].group(), k + 1)
                        &&& groups@[q].placement_total == placement_sum(obs, window_size, groups@[q].group(), k + 1)
                        &&& groups@[q].top_four_count == top_fours(obs, window_size, groups@[q].group(), k + 1)
                        &&& groups@[q].play_count > 0
                    } by {
                        lemma_group_step(obs, window_size, groups@[q].group(), k);
                        if q != last {
                            assert(groups@[q] == old_groups[q]);
                            assert(old_groups[q].group() != g);
                        } else {
                            assert(groups@[q].group() == g);
                            assert(groups@[q].play_count == 1);
                            assert(plays(obs, window_size, g, k) == 0);
                            assert(group_of(obs, window_size, obs[k]) == g);
                            assert(plays(obs, window_size, g, k + 1) == plays(obs, window_size, g, k) + 1);
                            assert(placement_sum(obs, window_size, g, k + 1) == placement_sum(obs, window_size, g, k) + placement as nat);
                            assert(top_fours(obs, window_size, g, k + 1) == top_fours(obs, window_size, g, k) + if top_four { 1nat } else { 0nat });
                        }
                    }
                    assert forall|m: int| 0 <= m < k + 1 implies lists_group(groups@, group_of(obs, window_size, #[trigger] obs[m])) by {
                        if m < k {
                            let q = choose|q: int| 0 <= q < old_groups.len() && #[trigger] old_groups[q].group() == group_of(obs, window_size, obs[m]);
                            assert(groups@[q] == old_groups[q]);
                        } else {
                            assert(groups@[last].group() == g);
                        }
                    }
                    assert forall|a: int, b: int| 0 <= a < b < groups@.len() implies #[trigger] groups@[a].group() != #[trigger] groups@[b].group() by {
                        assert(groups@[a] == old_groups[a]);
                        if b < last {
                            assert(groups@[b] == old_groups[b]);
                        }
                    }
                }
            },
        }
}

#[verifier::spinoff_prover]
fn record_in_windows(
    windows: &mut Vec<WindowTally>,
    patch: &String,
    window: TimeWindow,
    Ghost(obs): Ghost<Seq<MatchObservation>>,
    Ghost(window_size): Ghost<u64>,
    Ghost(k): Ghost<int>,
)
    requires
        0 <= k < obs.len(),
        obs.len() <= usize::MAX,
        tallies_windows(obs, window_size, old(windows)@, k),
        obs[k].patch@ == patch@,
        window_of(obs[k].timestamp, window_size) == window,
    ensures
        tallies_windows(obs, window_size, final(windows)@, k + 1),
{
        let ghost old_windows = windows@;
        let ghost p = patch@;
        match find_window(&windows, patch, window) {
            Some(j) => {
                proof {
                    lemma_window_plays_bounded(obs, window_size, p, window, k);
                }
                let updated = WindowTally {
                    patch: windows[j].patch.clone(),
                    window: windows[j].window,
                    play_count: windows[j].play_count + 1,
                };
                windows.set(j, updated);
                proof {
                    assert forall|q: int| 0 <= q < windows@.len() implies #[trigger] windows@[q].play_count == window_plays(obs, window_size, windows@[q].patch@, windows@[q].window, k + 1) by {
                        lemma_window_step(obs, window_size, windows@[q].patch@, windows@[q].window, k);
                        if q != j {
                            assert(windows@[q] == old_windows[q]);
                            assert(!(old_windows[q].patch@ == old_windows[j as int].patch@ && old_windows[q].window == old_windows[j as int].window));
                        }
                    }
                    assert forall|a: int, b: int| 0 <= a < b < windows@.len() implies !(#[trigger] windows@[a].patch@ == #[trigger] windows@[b].patch@
                        && windows@[a].window == windows@[b].window) by {
                        assert(windows@[a].patch@ == old_windows[a].patch@);
                        assert(windows@[b].patch@ == old_windows[b].patch@);
                    }
                    assert forall|m: int| 0 <= m < k + 1 implies lists_window(windows@, (#[trigger] obs[m]).patch@, window_of(obs[m].timestamp, window_size)) by {
                        if m < k {
                            let q = choose|q: int| 0 <= q < old_windows.len() && #[trigger] old_windows[q].patch@ == obs[m].patch@ && old_windows[q].window == window_of(obs[m].timestamp, window_size);
                            assert(windows@[q].patch@ == old_windows[q].patch@);
                        } else {
                            assert(windows@[j as int].patch@ == p);
                        }
                    }
                }
            },
            None => {
                proof {
                    assert forall|m: int| 0 <= m < k implies !(#[trigger] obs[m].patch@ == p && window_of(obs[m].timestamp, window_size) == window) by {
                        let q = choose|q: int| 0 <= q < old_windows.len() && #[trigger] old_windows[q].patch@ == obs[m].patch@ && old_windows[q].window == window_of(obs[m].timestamp, window_size);
                    }
                    lemma_window_plays_zero(obs, window_size, p, window, k);
                }
                windows.push(WindowTally { patch: patch.clone(), window, play_count: 1 });
                proof {
                    let last = old_windows.len() as int;
                    assert forall|q: int| 0 <= q < windows@.len() implies #[trigger] windows@[q].play_count == window_plays(obs, window_size, windows@[q].patch@, windows@[q].window, k + 1) by {
                        lemma_window_step(obs, window_size, windows@[q].patch@, windows@[q].window, k);
                        if q != last {
                            assert(windows@[q] == old_windows[q]);
                        } else {
                            assert(windows@[q].patch@ == p);
                            assert(windows@[q].window == window);
                            assert(windows@[q].play_count == 1);
                            assert(window_plays(obs, window_size, p, window, k) == 0);
                            assert(obs[k].patch@ == p && window_of(obs[k].timestamp, window_size) == window);
                            assert(window_plays(obs, window_size, p, window, k + 1) == window_plays(obs, window_size, p, window, k) + 1);
                        }
                    }
                    assert forall|m: int| 0 <= m < k + 1 implies lists_window(windows@, (#[trigger] obs[m]).patch@, window_of(obs[m].timestamp, window_size)) by {
                        if m < k {
                            let q = choose|q: int| 0 <= q < old_windows.len() && #[trigger] old_windows[q].patch@ == obs[m].patch@ && old_windows[q].window == window_of(obs[m].timestamp, window_size);
                            assert(windows@[q] == old_windows[q]);
                        } else {
                            assert(windows@[last].patch@ == p);
                        }
                    }
                    assert forall|a: int, b: int| 0 <= a < b < windows@.len() implies !(#[trigger] windows@[a].patch@ == #[trigger] windows@[b].patch@
                        && windows@[a].window == windows@[b].window) by {
                        assert(windows@[a] == old_windows[a]);
                        if b < last {
                            assert(windows@[b] == old_windows[b]);
                        }
                    }
                }
            },
        }
}

} // verus!

verus! {

/// Usage of a family in the previous populated window of the same patch.
/// The usage-rate change of a summary is its usage rate minus
/// `previous_play_count / previous_window_play_count`.
#[derive(Debug, Clone, Copy, PartialEq, Eq)]
pub struct UsageRateChange {
    pub previous_window: TimeWindow,
    pub previous_play_count: usize,
    pub previous_window_play_count: usize,
}

/// Statistics of one composition family in one patch and time window.
///
/// The usage rate is `play_count / window_play_count`, the average placement
/// `placement_total / play_count` and the top-four rate
/// `top_four_count / play_count`.
#[derive(Debug, Clone, PartialEq)]
pub struct CompositionSummary {
    pub patch: String,
    pub window: TimeWindow,
    pub composition: Composition,
    pub play_count: usize,
    /// Plays of any composition in this patch and window.
    pub window_play_count: usize,
    pub placement_total: u64,
    pub top_four_count: usize,
    /// Present when the patch has an earlier populated window.
    pub usage_rate_change: Option<UsageRateChange>,
}

impl CompositionSummary {
    pub open spec fn group(self) -> (Seq<char>, TimeWindow, Seq<Seq<char>>) {
        (self.patch@, self.window, self.composition@)
    }

    pub fn duplicate(&self) -> (r: CompositionSummary)
        ensures
            r.patch@ == self.patch@,
            r.window == self.window,
            r.composition@ == self.composition@,
            r.play_count == self.play_count,
            r.window_play_count == self.window_play_count,
            r.placement_total == self.placement_total,
            r.top_four_count == self.top_four_count,
            r.usage_rate_change == self.usage_rate_change,
    {
        CompositionSummary {
            patch: self.patch.clone(),
            window: self.window,
            composition: self.composition.duplicate(),
            play_count: self.play_count,
            window_play_count: self.window_play_count,
            placement_total: self.placement_total,
            top_four_count: self.top_four_count,
            usage_rate_change: self.usage_rate_change,
        }
    }
}

pub open spec fn window_before(a: TimeWindow, b: TimeWindow) -> bool {
    a.start < b.start || (a.start == b.start && a.end_exclusive < b.end_exclusive)
}

/// Summaries are listed by patch, then window, then most plays first, then
/// alphabetically by composition.
pub open spec fn summary_before(a: CompositionSummary, b: CompositionSummary) -> bool {
    ||| text_before(a.patch@, b.patch@)
    ||| a.patch@ == b.patch@ && window_before(a.window, b.window)
    ||| a.patch@ == b.patch@ && a.window == b.window && a.play_count > b.play_count
    ||| a.patch@ == b.patch@ && a.window == b.window && a.play_count == b.play_count
        && texts_before(a.composition@, b.composition@)
}

pub open spec fn summary_order() -> spec_fn(CompositionSummary, CompositionSummary) -> bool {
    |a: CompositionSummary, b: CompositionSummary| summary_before(a, b)
}

/// Some observation of patch `p` falls in window `w`.
pub open spec fn populated(obs: Seq<MatchObservation>, window_size: u64, p: Seq<char>, w: TimeWindow) -> bool {
    exists|k: int|
        0 <= k < obs.len() && #[trigger] obs[k].patch@ == p && window_of(obs[k].timestamp, window_size) == w
}

/// `w2` is the latest populated window of patch `p` before window `w`.
pub open spec fn is_previous_window(
    obs: Seq<MatchObservation>,
    window_size: u64,
    p: Seq<char>,
    w: TimeWindow,
    w2: TimeWindow,
) -> bool {
    &&& populated(obs, window_size, p, w2)
    &&& window_before(w2, w)
    &&& forall|k: int|
        0 <= k < obs.len() && #[trigger] obs[k].patch@ == p && window_before(
            window_of(obs[k].timestamp, window_size),
            w,
        ) ==> !window_before(w2, window_of(obs[k].timestamp, window_size))
}

/// Patch `p` has a populated window before `w`.
pub open spec fn has_previous_window(obs: Seq<MatchObservation>, window_size: u64, p: Seq<char>, w: TimeWindow) -> bool {
    exists|k: int|
        0 <= k < obs.len() && #[trigger] obs[k].patch@ == p && window_before(
            window_of(obs[k].timestamp, window_size),
            w,
        )
}

/// `s` holds the statistics of its group among the observations.
pub open spec fn summarizes(obs: Seq<MatchObservation>, window_size: u64, s: CompositionSummary) -> bool {
    let n = obs.len() as int;
    &&& s.play_count == plays(obs, window_size, s.group(), n)
    &&& s.play_count > 0
    &&& s.placement_total == placement_sum(obs, window_size, s.group(), n)
    &&& s.top_four_count == top_fours(obs, window_size, s.group(), n)
    &&& s.window_play_count == window_plays(obs, window_size, s.patch@, s.window, n)
    &&& (s.usage_rate_change is None <==> !has_previous_window(obs, window_size, s.patch@, s.window))
    &&& s.usage_rate_change matches Some(change) ==> {
        &&& is_previous_window(obs, window_size, s.patch@, s.window, change.previous_window)
        &&& change.previous_play_count == plays(
            obs,
            window_size,
            (s.patch@, change.previous_window, s.composition@),
            n,
        )
        &&& change.previous_window_play_count == window_plays(
            obs,
            window_size,
            s.patch@,
            change.previous_window,
            n,
        )
    }
}

/// Some summary is of group `g`.
pub open spec fn lists_summary(summaries: Seq<CompositionSummary>, g: (Seq<char>, TimeWindow, Seq<Seq<char>>)) -> bool {
    exists|i: int| 0 <= i < summaries.len() && #[trigger] summaries[i].group() == g
}

pub proof fn lemma_plays_witness(
    obs: Seq<MatchObservation>,
    window_size: u64,
    g: (Seq<char>, TimeWindow, Seq<Seq<char>>),
    n: int,
) -> (k: int)
    requires
        0 <= n <= obs.len(),
        plays(obs, window_size, g, n) > 0,
    ensures
        0 <= k < n,
        group_of(obs, window_size, obs[k]) == g,
    decreases n,
{
    if group_of(obs, window_size, obs[n - 1]) == g {
        n - 1
    } else {
        lemma_plays_witness(obs, window_size, g, n - 1)
    }
}

} // verus!

verus! {

/// The counts of `s` match its group (its usage change aside).
pub open spec fn counts_group(obs: Seq<MatchObservation>, window_size: u64, s: CompositionSummary) -> bool {
    let n = obs.len() as int;
    &&& s.play_count == plays(obs, window_size, s.group(), n)
    &&& s.play_count > 0
    &&& s.placement_total == placement_sum(obs, window_size, s.group(), n)
    &&& s.top_four_count == top_fours(obs, window_size, s.group(), n)
    &&& s.window_play_count == window_plays(obs, window_size, s.patch@, s.window, n)
}

proof fn lemma_summary_order()
    ensures
        crate::sorting::strict_order(summary_order()),
        forall|a: CompositionSummary, b: CompositionSummary|
            (a.patch@, a.window, a.play_count, a.composition@) != (b.patch@, b.window, b.play_count, b.composition@)
                ==> #[trigger] summary_before(a, b) || summary_before(b, a),
        forall|a: CompositionSummary, b: CompositionSummary, c: CompositionSummary|
            #[trigger] summary_before(a, b) && #[trigger] summary_before(b, c) ==> summary_before(a, c),
{
    assert forall|x: CompositionSummary| !#[trigger] summary_order()(x, x) by {
        crate::text::lemma_text_irreflexive(x.patch@);
        crate::text::lemma_texts_irreflexive(x.composition@);
    }
    assert forall|x: CompositionSummary, y: CompositionSummary|
        #[trigger] summary_order()(x, y) implies !summary_order()(y, x) by {
        crate::text::lemma_text_asymmetric(x.patch@, y.patch@);
        crate::text::lemma_text_irreflexive(x.patch@);
        crate::text::lemma_texts_asymmetric(x.composition@, y.composition@);
    }
    assert forall|a: CompositionSummary, b: CompositionSummary|
        (a.patch@, a.window, a.play_count, a.composition@) != (b.patch@, b.window, b.play_count, b.composition@)
            implies #[trigger] summary_before(a, b) || summary_before(b, a) by {
        crate::text::lemma_text_total(a.patch@, b.patch@);
        crate::text::lemma_texts_total(a.composition@, b.composition@);
    }
    assert forall|a: CompositionSummary, b: CompositionSummary, c: CompositionSummary|
        #[trigger] summary_before(a, b) && #[trigger] summary_before(b, c) implies summary_before(a, c) by {
        crate::text::lemma_text_transitive(a.patch@, b.patch@, c.patch@);
        crate::text::lemma_texts_transitive(a.composition@, b.composition@, c.composition@);
    }
}

/// The listing order of summaries.
pub struct SummaryOrder;

impl TotalPreorder<CompositionSummary> for SummaryOrder {
    open spec fn precedes(&self, a: CompositionSummary, b: CompositionSummary) -> bool {
        !summary_before(b, a)
    }

    fn precedes_exec(&self, a: &CompositionSummary, b: &CompositionSummary) -> (r: bool) {
        match compare_text(b.patch.as_str(), a.patch.as_str()) {
            Precedence::Before => false,
            Precedence::After => true,
            Precedence::Same => {
                if b.window.start != a.window.start {
                    b.window.start > a.window.start
                } else if b.window.end_exclusive != a.window.end_exclusive {
                    b.window.end_exclusive > a.window.end_exclusive
                } else if b.play_count != a.play_count {
                    b.play_count < a.play_count
                } else {
                    match b.composition.compare(&a.composition) {
                        Precedence::Before => false,
                        _ => true,
                    }
                }
            },
        }
    }

    proof fn lemma_total_preorder(&self) {
        lemma_summary_order();
        assert forall|a: CompositionSummary, b: CompositionSummary|
            #[trigger] self.precedes(a, b) || self.precedes(b, a) by {
            assert(summary_order()(a, b) ==> !summary_order()(b, a));
        }
        assert forall|a: CompositionSummary, b: CompositionSummary, c: CompositionSummary|
            #[trigger] self.precedes(a, b) && #[trigger] self.precedes(b, c) implies self.precedes(a, c) by {
            if summary_before(c, a) {
                if (a.patch@, a.window, a.play_count, a.composition@) == (b.patch@, b.window, b.play_count, b.composition@) {
                    assert(summary_before(c, b));
                } else if summary_before(a, b) {
                } else {
                    assert(summary_before(b, a));
                }
            }
        }
    }
}

/// One summary per group, without usage changes, in tally order.
fn build_summaries(
    groups: &Vec<GroupTally>,
    windows: &Vec<WindowTally>,
    Ghost(obs): Ghost<Seq<MatchObservation>>,
    Ghost(window_size): Ghost<u64>,
) -> (summaries: Vec<CompositionSummary>)
    requires
        tallies_groups(obs, window_size, groups@, obs.len() as int),
        tallies_windows(obs, window_size, windows@, obs.len() as int),
    ensures
        summaries@.len() == groups@.len(),
        forall|i: int| 0 <= i < summaries@.len() ==> counts_group(obs, window_size, #[trigger] summaries@[i]),
        forall|i: int| 0 <= i < summaries@.len() ==> #[trigger] summaries@[i].group() == groups@[i].group(),
{
    let n = Ghost(obs.len() as int);
    let mut summaries: Vec<CompositionSummary> = Vec::new();
    let mut i: usize = 0;
    while i < groups.len()
        invariant
            0 <= i <= groups@.len(),
            n@ == obs.len(),
            tallies_groups(obs, window_size, groups@, obs.len() as int),
            tallies_windows(obs, window_size, windows@, obs.len() as int),
            summaries@.len() == i,
            forall|q: int| 0 <= q < i ==> counts_group(obs, window_size, #[trigger] summaries@[q]),
            forall|q: int| 0 <= q < i ==> #[trigger] summaries@[q].group() == groups@[q].group(),
        decreases groups@.len() - i,
    {
        let group = &groups[i];
        let ghost g = group.group();
        proof {
            assert(group.play_count > 0);
            let k = lemma_plays_witness(obs, window_size, g, n@);
            assert(lists_window(windows@, obs[k].patch@, window_of(obs[k].timestamp, window_size)));
        }
        let window_play_count = match find_window(windows, &group.patch, group.window) {
            Some(j) => windows[j].play_count,
            None => 0,
        };
        summaries.push(CompositionSummary {
            patch: group.patch.clone(),
            window: group.window,
            composition: group.composition.duplicate(),
            play_count: group.play_count,
            window_play_count,
            placement_total: group.placement_total,
            top_four_count: group.top_four_count,
            usage_rate_change: None,
        });
        i = i + 1;
    }
    summaries
}

} // verus!

verus! {

fn find_summary(
    summaries: &Vec<CompositionSummary>,
    patch: &String,
    window: TimeWindow,
    composition: &Composition,
) -> (r: Option<usize>)
    ensures
        r matches Some(j) ==> j < summaries@.len() && summaries@[j as int].group() == (patch@, window, composition@),
        r is None ==> !lists_summary(summaries@, (patch@, window, composition@)),
{
    let mut j: usize = 0;
    while j < summaries.len()
        invariant
            0 <= j <= summaries@.len(),
            forall|q: int| 0 <= q < j ==> #[trigger] summaries@[q].group() != (patch@, window, composition@),
        decreases summaries@.len() - j,
    {
        if summaries[j].window == window && same_text(&summaries[j].patch, patch) {
            if let Precedence::Same = summaries[j].composition.compare(composition) {
                return Some(j);
            }
        }
        j = j + 1;
    }
    None
}

/// Whether the summaries cover every observation's group.
pub open spec fn covers_observations(
    obs: Seq<MatchObservation>,
    window_size: u64,
    summaries: Seq<CompositionSummary>,
) -> bool {
    forall|k: int| 0 <= k < obs.len() ==> lists_summary(summaries, group_of(obs, window_size, #[trigger] obs[k]))
}

/// The usage change of the `i`-th summary.
#[verifier::spinoff_prover]
fn usage_change_of(
    summaries: &Vec<CompositionSummary>,
    i: usize,
    Ghost(obs): Ghost<Seq<MatchObservation>>,
    Ghost(window_size): Ghost<u64>,
) -> (r: Option<UsageRateChange>)
    requires
        i < summaries@.len(),
        forall|q: int| 0 <= q < summaries@.len() ==> counts_group(obs, window_size, #[trigger] summaries@[q]),
        covers_observations(obs, window_size, summaries@),
    ensures
        r is None <==> !has_previous_window(obs, window_size, summaries@[i as int].patch@, summaries@[i as int].window),
        r matches Some(change) ==> {
            &&& is_previous_window(obs, window_size, summaries@[i as int].patch@, summaries@[i as int].window, change.previous_window)
            &&& change.previous_play_count == plays(obs, window_size, (summaries@[i as int].patch@, change.previous_window, summaries@[i as int].composition@), obs.len() as int)
            &&& change.previous_window_play_count == window_plays(obs, window_size, summaries@[i as int].patch@, change.previous_window, obs.len() as int)
        },
{
    let current = &summaries[i];
    let ghost p = current.patch@;
    let ghost w = current.window;
    let mut best: Option<usize> = None;
    let mut j: usize = 0;
    while j < summaries.len()
        invariant
            0 <= j <= summaries@.len(),
            i < summaries@.len(),
            current == summaries@[i as int],
            p == current.patch@,
            w == current.window,
            best is None ==> forall|q: int|
                0 <= q < j ==> !(#[trigger] summaries@[q].patch@ == p && window_before(summaries@[q].window, w)),
            best matches Some(b) ==> b < j && summaries@[b as int].patch@ == p && window_before(summaries@[b as int].window, w)
                && forall|q: int|
                    0 <= q < j && #[trigger] summaries@[q].patch@ == p && window_before(summaries@[q].window, w)
                        ==> !window_before(summaries@[b as int].window, summaries@[q].window),
        decreases summaries@.len() - j,
    {
        let candidate = &summaries[j];
        let earlier = candidate.window.start < current.window.start || (candidate.window.start
            == current.window.start && candidate.window.end_exclusive < current.window.end_exclusive);
        if earlier && same_text(&candidate.patch, &current.patch) {
            let later_than_best = match best {
                None => true,
                Some(b) => summaries[b].window.start < candidate.window.start || (summaries[b].window.start
                    == candidate.window.start && summaries[b].window.end_exclusive < candidate.window.end_exclusive),
            };
            if later_than_best {
                best = Some(j);
            }
        }
        j = j + 1;
    }
    match best {
        None => {
            proof {
                if has_previous_window(obs, window_size, p, w) {
                    let k = choose|k: int|
                        0 <= k < obs.len() && #[trigger] obs[k].patch@ == p && window_before(window_of(obs[k].timestamp, window_size), w);
                    assert(lists_summary(summaries@, group_of(obs, window_size, obs[k])));
                    let q = choose|q: int| 0 <= q < summaries@.len() && #[trigger] summaries@[q].group() == group_of(obs, window_size, obs[k]);
                    assert(summaries@[q].patch@ == p);
                }
            }
            None
        },
        Some(b) => {
            let previous = &summaries[b];
            let ghost w2 = previous.window;
            proof {
                assert(counts_group(obs, window_size, summaries@[b as int]));
                let k = lemma_plays_witness(obs, window_size, previous.group(), obs.len() as int);
                assert(obs[k].patch@ == p);
                assert(populated(obs, window_size, p, w2));
                assert forall|m: int|
                    0 <= m < obs.len() && #[trigger] obs[m].patch@ == p && window_before(window_of(obs[m].timestamp, window_size), w)
                        implies !window_before(w2, window_of(obs[m].timestamp, window_size)) by {
                    assert(lists_summary(summaries@, group_of(obs, window_size, obs[m])));
                    let q = choose|q: int| 0 <= q < summaries@.len() && #[trigger] summaries@[q].group() == group_of(obs, window_size, obs[m]);
                    assert(summaries@[q].patch@ == p);
                }
                assert(is_previous_window(obs, window_size, p, w, w2));
                assert(has_previous_window(obs, window_size, p, w));
            }
            let previous_play_count = match find_summary(summaries, &current.patch, previous.window, &current.composition) {
                Some(q) => summaries[q].play_count,
                None => {
                    proof {
                        let g2 = (p, w2, current.composition@);
                        assert forall|m: int| 0 <= m < obs.len() implies group_of(obs, window_size, #[trigger] obs[m]) != g2 by {
                            assert(lists_summary(summaries@, group_of(obs, window_size, obs[m])));
                        }
                        lemma_plays_zero(obs, window_size, g2, obs.len() as int);
                    }
                    0
                },
            };
            Some(UsageRateChange {
                previous_window: previous.window,
                previous_play_count,
                previous_window_play_count: previous.window_play_count,
            })
        },
    }
}

} // verus!

verus! {

/// Groups observations into similar composition families and calculates
/// basic statistics for each family in each patch and time window. Time
/// windows are fixed and non-overlapping, with boundaries anchored at
/// timestamp zero. A family is shown by its founding exact board, the one
/// first seen (ties broken alphabetically).
pub fn summarize_compositions(
    observations: &[MatchObservation],
    window_size: u64,
) -> (summaries: Vec<CompositionSummary>)
    requires
        window_size > 0,
        all_windows_fit(observations@, window_size),
        observations@.len() * 255 <= u64::MAX,
    ensures
        crate::sorting::strictly_ordered(summaries@, summary_order()),
        forall|i: int|
            0 <= i < summaries@.len() ==> summarizes(observations@, window_size, #[trigger] summaries@[i]),
        covers_observations(observations@, window_size, summaries@),
{
    let families = assign_composition_families(observations);
    summarize_with_families(observations, window_size, &families)
}

/// `families` assigns every exact board of `obs` to its family.
pub open spec fn families_of(families: Seq<Family>, obs: Seq<MatchObservation>) -> bool {
    &&& describes_families(families, board_list(obs))
    &&& is_board_list(obs, board_list(obs))
    &&& forall|m: int| 0 <= m < obs.len() ==> covers(board_list(obs), board_of(#[trigger] obs[m]))
}

pub fn summarize_with_families(
    observations: &[MatchObservation],
    window_size: u64,
    families: &Vec<Family>,
) -> (summaries: Vec<CompositionSummary>)
    requires
        window_size > 0,
        all_windows_fit(observations@, window_size),
        observations@.len() * 255 <= u64::MAX,
        families_of(families@, observations@),
    ensures
        crate::sorting::strictly_ordered(summaries@, summary_order()),
        forall|i: int|
            0 <= i < summaries@.len() ==> summarizes(observations@, window_size, #[trigger] summaries@[i]),
        covers_observations(observations@, window_size, summaries@),
{
    let ghost obs = observations@;
    let (groups, windows) = tally_groups(observations, window_size, families);
    let mut sorted = build_summaries(&groups, &windows, Ghost(obs), Ghost(window_size));
    let ghost unsorted = sorted@;
    let order = SummaryOrder;
    crate::sorting::stable_sort(&mut sorted, &order);
    proof {
        lemma_summary_order();
        order.lemma_total_preorder();
        assert forall|a: int, b: int|
            0 <= a < b < unsorted.len() implies !crate::sorting::equivalent(order, #[trigger] unsorted[a], #[trigger] unsorted[b]) by {
            assert(unsorted[a].group() == groups@[a].group());
            assert(unsorted[b].group() == groups@[b].group());
            assert(groups@[a].group() != groups@[b].group());
            if (unsorted[a].patch@, unsorted[a].window, unsorted[a].play_count, unsorted[a].composition@)
                == (unsorted[b].patch@, unsorted[b].window, unsorted[b].play_count, unsorted[b].composition@) {
                assert(unsorted[a].group() == unsorted[b].group());
            }
        }
        crate::sorting::lemma_rearrangement_distinct(order, sorted@, unsorted);
        assert forall|a: int, b: int| 0 <= a < b < sorted@.len() implies #[trigger] summary_order()(sorted@[a], sorted@[b]) by {
            assert(order.precedes(sorted@[a], sorted@[b]));
            assert(!crate::sorting::equivalent(order, sorted@[a], sorted@[b]));
        }
        assert forall|q: int| 0 <= q < sorted@.len() implies counts_group(obs, window_size, #[trigger] sorted@[q]) by {
            crate::sorting::lemma_rearrangement_contains(order, sorted@, unsorted, q);
            let j = choose|j: int| 0 <= j < unsorted.len() && unsorted[j] == sorted@[q];
        }
        assert forall|k: int| 0 <= k < obs.len() implies lists_summary(sorted@, group_of(obs, window_size, #[trigger] obs[k])) by {
            assert(lists_group(groups@, group_of(obs, window_size, obs[k])));
            let j = choose|j: int| 0 <= j < groups@.len() && #[trigger] groups@[j].group() == group_of(obs, window_size, obs[k]);
            assert(unsorted[j].group() == groups@[j].group());
            crate::sorting::lemma_rearrangement_keeps(order, sorted@, unsorted, j);
            let q = choose|q: int| 0 <= q < sorted@.len() && sorted@[q] == unsorted[j];
            assert(sorted@[q].group() == group_of(obs, window_size, obs[k]));
        }
    }
    let mut summaries: Vec<CompositionSummary> = Vec::new();
    let mut i: usize = 0;
    while i < sorted.len()
        invariant
            0 <= i <= sorted@.len(),
            summaries@.len() == i,
            crate::sorting::strictly_ordered(sorted@, summary_order()),
            forall|q: int| 0 <= q < sorted@.len() ==> counts_group(obs, window_size, #[trigger] sorted@[q]),
            covers_observations(obs, window_size, sorted@),
            forall|q: int| 0 <= q < i ==> summarizes(obs, window_size, #[trigger] summaries@[q]),
            forall|q: int| 0 <= q < i ==> #[trigger] summaries@[q].group() == sorted@[q].group()
                && summaries@[q].play_count == sorted@[q].play_count,
        decreases sorted@.len() - i,
    {
        let change = usage_change_of(&sorted, i, Ghost(obs), Ghost(window_size));
        let mut summary = sorted[i].duplicate();
        summary.usage_rate_change = change;
        summaries.push(summary);
        i = i + 1;
    }
    proof {
        assert forall|a: int, b: int| 0 <= a < b < summaries@.len() implies #[trigger] summary_order()(summaries@[a], summaries@[b]) by {
            assert(summary_order()(sorted@[a], sorted@[b]));
            assert(summaries@[a].group() == sorted@[a].group());
            assert(summaries@[b].group() == sorted@[b].group());
        }
        assert forall|k: int| 0 <= k < obs.len() implies lists_summary(summaries@, group_of(obs, window_size, #[trigger] obs[k])) by {
            let q = choose|q: int| 0 <= q < sorted@.len() && #[trigger] sorted@[q].group() == group_of(obs, window_size, obs[k]);
            assert(summaries@[q].group() == sorted@[q].group());
        }
    }
    summaries
}

/// Time windows are fixed, half-open and anchored at zero: two timestamps
/// share a window exactly when the second lies in the window of the first,
/// and every window spans `window_size`.
pub proof fn lemma_windows_partition(t: u64, u: u64, window_size: u64)
    requires
        window_size > 0,
        window_fits(t, window_size),
        window_fits(u, window_size),
    ensures
        window_of(t, window_size).start <= t < window_of(t, window_size).end_exclusive,
        window_of(t, window_size).end_exclusive - window_of(t, window_size).start == window_size,
        window_of(t, window_size) == window_of(u, window_size) <==> window_of(t, window_size).start <= u
            < window_of(t, window_size).end_exclusive,
{
    let w = window_size as int;
    let ti = t as int;
    let ui = u as int;
    let a = ti % w;
    let b = ui % w;
    assert(0 <= a < w && 0 <= b < w && a <= ti && b <= ui) by (nonlinear_arith)
        requires
            w > 0,
            ti >= 0,
            ui >= 0,
            a == ti % w,
            b == ui % w,
    ;
    let st = ti - a;
    let su = ui - b;
    assert(st % w == 0 && su % w == 0) by (nonlinear_arith)
        requires
            w > 0,
            a == ti % w,
            b == ui % w,
            st == ti - a,
            su == ui - b,
    ;
    if st <= ui < st + w {
        assert(su == st) by (nonlinear_arith)
            requires
                w > 0,
                st % w == 0,
                su % w == 0,
                st <= ui < st + w,
                su <= ui < su + w,
        ;
    }
}

/// No family of a patch and window is played more often than the patch in
/// that window: a usage rate never exceeds one.
pub proof fn lemma_plays_within_window(
    obs: Seq<MatchObservation>,
    window_size: u64,
    g: (Seq<char>, TimeWindow, Seq<Seq<char>>),
    n: int,
)
    requires
        0 <= n <= obs.len(),
    ensures
        plays(obs, window_size, g, n) <= window_plays(obs, window_size, g.0, g.1, n),
    decreases n,
{
    if n > 0 {
        lemma_plays_within_window(obs, window_size, g, n - 1);
    }
}

/// `a` is listed before `b` among the most played summaries: more plays,
/// then patch, window and composition.
pub open spec fn played_before(a: CompositionSummary, b: CompositionSummary) -> bool {
    ||| a.play_count > b.play_count
    ||| a.play_count == b.play_count && text_before(a.patch@, b.patch@)
    ||| a.play_count == b.play_count && a.patch@ == b.patch@ && window_before(a.window, b.window)
    ||| a.play_count == b.play_count && a.patch@ == b.patch@ && a.window == b.window && texts_before(
        a.composition@,
        b.composition@,
    )
}

proof fn lemma_played_before(a: CompositionSummary, b: CompositionSummary, c: CompositionSummary)
    ensures
        played_before(a, b) ==> !played_before(b, a),
        played_before(a, b) && played_before(b, c) ==> played_before(a, c),
        !played_before(a, b) && !played_before(b, a) ==> (a.play_count, a.patch@, a.window, a.composition@) == (
            b.play_count,
            b.patch@,
            b.window,
            b.composition@,
        ),
{
    crate::text::lemma_text_irreflexive(a.patch@);
    crate::text::lemma_text_asymmetric(a.patch@, b.patch@);
    crate::text::lemma_text_transitive(a.patch@, b.patch@, c.patch@);
    crate::text::lemma_text_total(a.patch@, b.patch@);
    crate::text::lemma_texts_irreflexive(a.composition@);
    crate::text::lemma_texts_asymmetric(a.composition@, b.composition@);
    crate::text::lemma_texts_transitive(a.composition@, b.composition@, c.composition@);
    crate::text::lemma_texts_total(a.composition@, b.composition@);
}

/// The order of the most played summaries.
pub struct MostPlayedOrder;

impl<'a> TotalPreorder<&'a CompositionSummary> for MostPlayedOrder {
    open spec fn precedes(&self, a: &'a CompositionSummary, b: &'a CompositionSummary) -> bool {
        !played_before(*b, *a)
    }

    fn precedes_exec(&self, a: &&'a CompositionSummary, b: &&'a CompositionSummary) -> (r: bool) {
        if b.play_count != a.play_count {
            return b.play_count < a.play_count;
        }
        match compare_text(b.patch.as_str(), a.patch.as_str()) {
            Precedence::Before => false,
            Precedence::After => true,
            Precedence::Same => {
                if b.window.start != a.window.start {
                    b.window.start > a.window.start
                } else if b.window.end_exclusive != a.window.end_exclusive {
                    b.window.end_exclusive > a.window.end_exclusive
                } else {
                    match b.composition.compare(&a.composition) {
                        Precedence::Before => false,
                        _ => true,
                    }
                }
            },
        }
    }

    proof fn lemma_total_preorder(&self) {
        assert forall|a: &'a CompositionSummary, b: &'a CompositionSummary|
            #[trigger] self.precedes(a, b) || self.precedes(b, a) by {
            lemma_played_before(*a, *b, *b);
        }
        assert forall|a: &'a CompositionSummary, b: &'a CompositionSummary, c: &'a CompositionSummary|
            #[trigger] self.precedes(a, b) && #[trigger] self.precedes(b, c) implies self.precedes(a, c) by {
            lemma_played_before(*c, *b, *a);
            lemma_played_before(*a, *b, *c);
            lemma_played_before(*b, *a, *c);
            lemma_played_before(*c, *a, *b);
            lemma_played_before(*b, *c, *a);
            lemma_played_before(*a, *c, *b);
        }
    }
}

/// The summaries, most played first, then by patch, window and composition.
pub fn most_played(summaries: &[CompositionSummary]) -> (ranked: Vec<&CompositionSummary>)
    ensures
        crate::sorting::sorted_under(MostPlayedOrder, ranked@),
        crate::sorting::stable_rearrangement(MostPlayedOrder, ranked@, summaries@.as_ref()),
{
    let mut ranked: Vec<&CompositionSummary> = Vec::new();
    let mut i: usize = 0;
    while i < summaries.len()
        invariant
            0 <= i <= summaries@.len(),
            ranked@ == summaries@.as_ref().take(i as int),
        decreases summaries@.len() - i,
    {
        ranked.push(&summaries[i]);
        assert(ranked@ =~= summaries@.as_ref().take(i + 1));
        i = i + 1;
    }
    assert(ranked@ =~= summaries@.as_ref());
    crate::sorting::stable_sort(&mut ranked, &MostPlayedOrder);
    ranked
}

/// A summary as the values it holds.
pub type SummaryView = (Seq<char>, TimeWindow, Seq<Seq<char>>, usize, usize, u64, usize, Option<UsageRateChange>);

pub open spec fn summary_view(s: CompositionSummary) -> SummaryView {
    (
        s.patch@,
        s.window,
        s.composition@,
        s.play_count,
        s.window_play_count,
        s.placement_total,
        s.top_four_count,
        s.usage_rate_change,
    )
}

pub open spec fn summary_views(s: Seq<CompositionSummary>) -> Seq<SummaryView> {
    s.map_values(|x: CompositionSummary| summary_view(x))
}

/// The listing order of summaries, on their values.
pub open spec fn view_before(a: SummaryView, b: SummaryView) -> bool {
    ||| text_before(a.0, b.0)
    ||| a.0 == b.0 && window_before(a.1, b.1)
    ||| a.0 == b.0 && a.1 == b.1 && a.3 > b.3
    ||| a.0 == b.0 && a.1 == b.1 && a.3 == b.3 && texts_before(a.2, b.2)
}

pub open spec fn view_order() -> spec_fn(SummaryView, SummaryView) -> bool {
    |a: SummaryView, b: SummaryView| view_before(a, b)
}

/// Patch `p` has one latest populated window before `w`.
proof fn lemma_previous_window_unique(
    obs: Seq<MatchObservation>,
    window_size: u64,
    p: Seq<char>,
    w: TimeWindow,
    w1: TimeWindow,
    w2: TimeWindow,
)
    requires
        is_previous_window(obs, window_size, p, w, w1),
        is_previous_window(obs, window_size, p, w, w2),
    ensures
        w1 == w2,
{
    let k1 = choose|k: int| 0 <= k < obs.len() && #[trigger] obs[k].patch@ == p && window_of(obs[k].timestamp, window_size) == w1;
    let k2 = choose|k: int| 0 <= k < obs.len() && #[trigger] obs[k].patch@ == p && window_of(obs[k].timestamp, window_size) == w2;
    assert(!window_before(w1, w2));
    assert(!window_before(w2, w1));
}

/// Two summaries of one group among the same observations hold the same
/// values.
proof fn lemma_summary_of_group(obs: Seq<MatchObservation>, window_size: u64, a: CompositionSummary, b: CompositionSummary)
    requires
        summarizes(obs, window_size, a),
        summarizes(obs, window_size, b),
        a.group() == b.group(),
    ensures
        summary_view(a) == summary_view(b),
{
    if let Some(ca) = a.usage_rate_change {
        if let Some(cb) = b.usage_rate_change {
            lemma_previous_window_unique(obs, window_size, a.patch@, a.window, ca.previous_window, cb.previous_window);
        }
    }
}

/// The summaries of a set of observations are determined by them and the
/// window size: any two strictly ordered lists of summaries that summarize
/// the observations and cover every observation's group hold the same
/// values, in the same order.
pub proof fn lemma_summaries_determined(
    obs: Seq<MatchObservation>,
    window_size: u64,
    s1: Seq<CompositionSummary>,
    s2: Seq<CompositionSummary>,
)
    requires
        crate::sorting::strictly_ordered(s1, summary_order()),
        forall|i: int| 0 <= i < s1.len() ==> summarizes(obs, window_size, #[trigger] s1[i]),
        covers_observations(obs, window_size, s1),
        crate::sorting::strictly_ordered(s2, summary_order()),
        forall|i: int| 0 <= i < s2.len() ==> summarizes(obs, window_size, #[trigger] s2[i]),
        covers_observations(obs, window_size, s2),
    ensures
        summary_views(s1) == summary_views(s2),
{
    let v1 = summary_views(s1);
    let v2 = summary_views(s2);
    assert forall|x: SummaryView| !#[trigger] view_order()(x, x) by {
        crate::text::lemma_text_irreflexive(x.0);
        crate::text::lemma_texts_irreflexive(x.2);
    }
    assert forall|x: SummaryView, y: SummaryView| #[trigger] view_order()(x, y) implies !view_order()(y, x) by {
        crate::text::lemma_text_asymmetric(x.0, y.0);
        crate::text::lemma_text_irreflexive(x.0);
        crate::text::lemma_texts_asymmetric(x.2, y.2);
    }
    assert forall|i: int, j: int| 0 <= i < j < v1.len() implies #[trigger] view_order()(v1[i], v1[j]) by {
        assert(summary_order()(s1[i], s1[j]));
    }
    assert forall|i: int, j: int| 0 <= i < j < v2.len() implies #[trigger] view_order()(v2[i], v2[j]) by {
        assert(summary_order()(s2[i], s2[j]));
    }
    assert forall|x: SummaryView| v1.contains(x) implies v2.contains(x) by {
        let i = choose|i: int| 0 <= i < v1.len() && v1[i] == x;
        assert(summarizes(obs, window_size, s1[i]));
        let k = lemma_plays_witness(obs, window_size, s1[i].group(), obs.len() as int);
        assert(lists_summary(s2, group_of(obs, window_size, obs[k])));
        let j = choose|j: int| 0 <= j < s2.len() && #[trigger] s2[j].group() == group_of(obs, window_size, obs[k]);
        lemma_summary_of_group(obs, window_size, s1[i], s2[j]);
        assert(v2[j] == x);
    }
    assert forall|x: SummaryView| v2.contains(x) implies v1.contains(x) by {
        let j = choose|j: int| 0 <= j < v2.len() && v2[j] == x;
        assert(summarizes(obs, window_size, s2[j]));
        let k = lemma_plays_witness(obs, window_size, s2[j].group(), obs.len() as int);
        assert(lists_summary(s1, group_of(obs, window_size, obs[k])));
        let i = choose|i: int| 0 <= i < s1.len() && #[trigger] s1[i].group() == group_of(obs, window_size, obs[k]);
        lemma_summary_of_group(obs, window_size, s2[j], s1[i]);
        assert(v1[i] == x);
    }
    crate::sorting::lemma_strictly_ordered_unique(v1, v2, view_order());
}

/// The plays of the first `m` summaries of patch `p` and window `w`.
pub open spec fn window_share_total(s: Seq<CompositionSummary>, p: Seq<char>, w: TimeWindow, m: int) -> nat
    decreases m,
{
    if m <= 0 {
        0
    } else {
        window_share_total(s, p, w, m - 1) + if s[m - 1].patch@ == p && s[m - 1].window == w {
            s[m - 1].play_count as nat
        } else {
            0nat
        }
    }
}

/// The plays among the first `n` observations of the groups of the first
/// `m` summaries of patch `p` and window `w`.
spec fn group_plays_total(
    obs: Seq<MatchObservation>,
    window_size: u64,
    s: Seq<CompositionSummary>,
    p: Seq<char>,
    w: TimeWindow,
    m: int,
    n: int,
) -> nat
    decreases m,
{
    if m <= 0 {
        0
    } else {
        group_plays_total(obs, window_size, s, p, w, m - 1, n) + if s[m - 1].patch@ == p && s[m - 1].window == w {
            plays(obs, window_size, s[m - 1].group(), n)
        } else {
            0nat
        }
    }
}

/// The number of the first `m` summaries of patch `p` and window `w` whose
/// group is `g`.
spec fn group_hits(s: Seq<CompositionSummary>, p: Seq<char>, w: TimeWindow, g: (Seq<char>, TimeWindow, Seq<Seq<char>>), m: int) -> nat
    decreases m,
{
    if m <= 0 {
        0
    } else {
        group_hits(s, p, w, g, m - 1) + if s[m - 1].patch@ == p && s[m - 1].window == w && s[m - 1].group() == g {
            1nat
        } else {
            0nat
        }
    }
}

proof fn lemma_group_plays_step(
    obs: Seq<MatchObservation>,
    window_size: u64,
    s: Seq<CompositionSummary>,
    p: Seq<char>,
    w: TimeWindow,
    m: int,
    n: int,
)
    requires
        0 < n <= obs.len(),
    ensures
        group_plays_total(obs, window_size, s, p, w, m, n) == group_plays_total(obs, window_size, s, p, w, m, n - 1)
            + group_hits(s, p, w, group_of(obs, window_size, obs[n - 1]), m),
    decreases m,
{
    if m > 0 {
        lemma_group_plays_step(obs, window_size, s, p, w, m - 1, n);
    }
}

proof fn lemma_group_plays_zero(
    obs: Seq<MatchObservation>,
    window_size: u64,
    s: Seq<CompositionSummary>,
    p: Seq<char>,
    w: TimeWindow,
    m: int,
)
    ensures
        group_plays_total(obs, window_size, s, p, w, m, 0) == 0,
    decreases m,
{
    if m > 0 {
        lemma_group_plays_zero(obs, window_size, s, p, w, m - 1);
    }
}

proof fn lemma_group_hits(s: Seq<CompositionSummary>, p: Seq<char>, w: TimeWindow, g: (Seq<char>, TimeWindow, Seq<Seq<char>>), m: int)
    requires
        0 <= m <= s.len(),
        forall|i: int, j: int| 0 <= i < j < s.len() ==> #[trigger] s[i].group() != #[trigger] s[j].group(),
    ensures
        group_hits(s, p, w, g, m) <= 1,
        (g.0 == p && g.1 == w && exists|i: int| 0 <= i < m && #[trigger] s[i].group() == g) ==> group_hits(s, p, w, g, m) == 1,
        !(g.0 == p && g.1 == w) ==> group_hits(s, p, w, g, m) == 0,
        (forall|i: int| 0 <= i < m ==> #[trigger] s[i].group() != g) ==> group_hits(s, p, w, g, m) == 0,
    decreases m,
{
    if m > 0 {
        lemma_group_hits(s, p, w, g, m - 1);
        if s[m - 1].group() == g {
            assert forall|i: int| 0 <= i < m - 1 implies #[trigger] s[i].group() != g by {
                assert(s[i].group() != s[m - 1].group());
            }
        }
        if g.0 == p && g.1 == w && exists|i: int| 0 <= i < m && #[trigger] s[i].group() == g {
            if s[m - 1].group() != g {
                let i = choose|i: int| 0 <= i < m && #[trigger] s[i].group() == g;
                assert(0 <= i < m - 1);
            }
        }
    }
}

proof fn lemma_group_plays_total(
    obs: Seq<MatchObservation>,
    window_size: u64,
    s: Seq<CompositionSummary>,
    p: Seq<char>,
    w: TimeWindow,
    n: int,
)
    requires
        0 <= n <= obs.len(),
        forall|i: int, j: int| 0 <= i < j < s.len() ==> #[trigger] s[i].group() != #[trigger] s[j].group(),
        covers_observations(obs, window_size, s),
    ensures
        group_plays_total(obs, window_size, s, p, w, s.len() as int, n) == window_plays(obs, window_size, p, w, n),
    decreases n,
{
    if n > 0 {
        lemma_group_plays_total(obs, window_size, s, p, w, n - 1);
        lemma_group_plays_step(obs, window_size, s, p, w, s.len() as int, n);
        let g = group_of(obs, window_size, obs[n - 1]);
        lemma_group_hits(s, p, w, g, s.len() as int);
        assert(lists_summary(s, g));
        let i = choose|i: int| 0 <= i < s.len() && #[trigger] s[i].group() == g;
        assert(0 <= i < s.len() && s[i].group() == g);
    } else {
        lemma_group_plays_zero(obs, window_size, s, p, w, s.len() as int);
    }
}

proof fn lemma_share_total(obs: Seq<MatchObservation>, window_size: u64, s: Seq<CompositionSummary>, p: Seq<char>, w: TimeWindow, m: int)
    requires
        0 <= m <= s.len(),
        forall|i: int| 0 <= i < s.len() ==> summarizes(obs, window_size, #[trigger] s[i]),
    ensures
        window_share_total(s, p, w, m) == group_plays_total(obs, window_size, s, p, w, m, obs.len() as int),
    decreases m,
{
    if m > 0 {
        lemma_share_total(obs, window_size, s, p, w, m - 1);
        assert(summarizes(obs, window_size, s[m - 1]));
    }
}

/// Every observation is counted in exactly one summary: the plays of the
/// summaries of a patch and window add up to the plays of that patch in that
/// window, so the usage rates of a window add up to one.
pub proof fn lemma_window_shares(
    obs: Seq<MatchObservation>,
    window_size: u64,
    s: Seq<CompositionSummary>,
    p: Seq<char>,
    w: TimeWindow,
)
    requires
        crate::sorting::strictly_ordered(s, summary_order()),
        forall|i: int| 0 <= i < s.len() ==> summarizes(obs, window_size, #[trigger] s[i]),
        covers_observations(obs, window_size, s),
    ensures
        window_share_total(s, p, w, s.len() as int) == window_plays(obs, window_size, p, w, obs.len() as int),
{
    assert forall|i: int, j: int| 0 <= i < j < s.len() implies #[trigger] s[i].group() != #[trigger] s[j].group() by {
        assert(summary_order()(s[i], s[j]));
        assert(summarizes(obs, window_size, s[i]) && summarizes(obs, window_size, s[j]));
        if s[i].group() == s[j].group() {
            crate::text::lemma_text_irreflexive(s[i].patch@);
            crate::text::lemma_texts_irreflexive(s[i].composition@);
        }
    }
    lemma_share_total(obs, window_size, s, p, w, s.len() as int);
    lemma_group_plays_total(obs, window_size, s, p, w, obs.len() as int);
}


/// How many of `xs` fall in group `g`, their families taken from `ctx`, the
/// sum of their placements, and how many of them placed in the top four.
spec fn group_tally(
    ctx: Seq<MatchObservation>,
    window_size: u64,
    g: (Seq<char>, TimeWindow, Seq<Seq<char>>),
    xs: Seq<MatchObservation>,
) -> (nat, nat, nat)
    decreases xs.len(),
{
    if xs.len() == 0 {
        (0, 0, 0)
    } else {
        let t = group_tally(ctx, window_size, g, xs.drop_last());
        if group_of(ctx, window_size, xs.last()) == g {
            (t.0 + 1, t.1 + xs.last().placement as nat, t.2 + if xs.last().placement <= 4 {
                1nat
            } else {
                0nat
            })
        } else {
            t
        }
    }
}

proof fn lemma_tally_prefix(
    obs: Seq<MatchObservation>,
    window_size: u64,
    g: (Seq<char>, TimeWindow, Seq<Seq<char>>),
    n: int,
)
    requires
        0 <= n <= obs.len(),
    ensures
        group_tally(obs, window_size, g, obs.take(n)) == (
            plays(obs, window_size, g, n),
            placement_sum(obs, window_size, g, n),
            top_fours(obs, window_size, g, n),
        ),
    decreases n,
{
    if n > 0 {
        lemma_tally_prefix(obs, window_size, g, n - 1);
        assert(obs.take(n).drop_last() == obs.take(n - 1));
    }
}

proof fn lemma_tally_filter(
    ctx: Seq<MatchObservation>,
    window_size: u64,
    g: (Seq<char>, TimeWindow, Seq<Seq<char>>),
    xs: Seq<MatchObservation>,
    pred: spec_fn(MatchObservation) -> bool,
)
    requires
        forall|i: int| 0 <= i < xs.len() && !pred(xs[i]) ==> group_of(ctx, window_size, #[trigger] xs[i]) != g,
    ensures
        group_tally(ctx, window_size, g, xs) == group_tally(ctx, window_size, g, xs.filter(pred)),
    decreases xs.len(),
{
    reveal(Seq::filter);
    if xs.len() > 0 {
        let init = xs.drop_last();
        assert forall|i: int| 0 <= i < init.len() && !pred(init[i]) implies group_of(
            ctx,
            window_size,
            #[trigger] init[i],
        ) != g by {
            assert(init[i] == xs[i]);
        }
        lemma_tally_filter(ctx, window_size, g, init, pred);
        if pred(xs.last()) {
            let f = init.filter(pred).push(xs.last());
            assert(f.drop_last() == init.filter(pred));
        } else {
            assert(group_of(ctx, window_size, xs[xs.len() - 1]) != g);
        }
    }
}

proof fn lemma_tally_context(
    ctx1: Seq<MatchObservation>,
    ctx2: Seq<MatchObservation>,
    window_size: u64,
    g: (Seq<char>, TimeWindow, Seq<Seq<char>>),
    xs: Seq<MatchObservation>,
)
    requires
        forall|i: int| 0 <= i < xs.len() ==> group_of(ctx1, window_size, #[trigger] xs[i]) == group_of(
            ctx2,
            window_size,
            xs[i],
        ),
    ensures
        group_tally(ctx1, window_size, g, xs) == group_tally(ctx2, window_size, g, xs),
    decreases xs.len(),
{
    if xs.len() > 0 {
        let init = xs.drop_last();
        assert forall|i: int| 0 <= i < init.len() implies group_of(ctx1, window_size, #[trigger] init[i])
            == group_of(ctx2, window_size, init[i]) by {
            assert(init[i] == xs[i]);
        }
        lemma_tally_context(ctx1, ctx2, window_size, g, init);
        assert(group_of(ctx1, window_size, xs[xs.len() - 1]) == group_of(ctx2, window_size, xs[xs.len() - 1]));
    }
}

/// How many of `xs` are of patch `p` and fall in window `w`.
spec fn window_tally(window_size: u64, p: Seq<char>, w: TimeWindow, xs: Seq<MatchObservation>) -> nat
    decreases xs.len(),
{
    if xs.len() == 0 {
        0
    } else {
        window_tally(window_size, p, w, xs.drop_last()) + if xs.last().patch@ == p && window_of(
            xs.last().timestamp,
            window_size,
        ) == w {
            1nat
        } else {
            0nat
        }
    }
}

proof fn lemma_window_tally_prefix(obs: Seq<MatchObservation>, window_size: u64, p: Seq<char>, w: TimeWindow, n: int)
    requires
        0 <= n <= obs.len(),
    ensures
        window_tally(window_size, p, w, obs.take(n)) == window_plays(obs, window_size, p, w, n),
    decreases n,
{
    if n > 0 {
        lemma_window_tally_prefix(obs, window_size, p, w, n - 1);
        assert(obs.take(n).drop_last() == obs.take(n - 1));
    }
}

proof fn lemma_window_tally_filter(
    window_size: u64,
    p: Seq<char>,
    w: TimeWindow,
    xs: Seq<MatchObservation>,
    pred: spec_fn(MatchObservation) -> bool,
)
    requires
        forall|i: int| 0 <= i < xs.len() && !pred(xs[i]) ==> window_of(#[trigger] xs[i].timestamp, window_size) != w,
    ensures
        window_tally(window_size, p, w, xs) == window_tally(window_size, p, w, xs.filter(pred)),
    decreases xs.len(),
{
    reveal(Seq::filter);
    if xs.len() > 0 {
        let init = xs.drop_last();
        assert forall|i: int| 0 <= i < init.len() && !pred(init[i]) implies window_of(
            #[trigger] init[i].timestamp,
            window_size,
        ) != w by {
            assert(init[i] == xs[i]);
        }
        lemma_window_tally_filter(window_size, p, w, init, pred);
        if pred(xs.last()) {
            let f = init.filter(pred).push(xs.last());
            assert(f.drop_last() == init.filter(pred));
        } else {
            assert(window_of(xs[xs.len() - 1].timestamp, window_size) != w);
        }
    }
}

/// Each observation lies before the end of its window, and each window
/// spans `window_size`.
pub proof fn lemma_window_facts(obs: Seq<MatchObservation>, window_size: u64)
    requires
        window_size > 0,
        all_windows_fit(obs, window_size),
    ensures
        forall|k: int|
            0 <= k < obs.len() ==> {
                &&& window_of(#[trigger] obs[k].timestamp, window_size).start <= obs[k].timestamp
                &&& obs[k].timestamp < window_of(obs[k].timestamp, window_size).end_exclusive
                &&& window_of(obs[k].timestamp, window_size).end_exclusive == window_of(
                    obs[k].timestamp,
                    window_size,
                ).start + window_size
            },
{
    assert forall|k: int| 0 <= k < obs.len() implies {
        &&& window_of(#[trigger] obs[k].timestamp, window_size).start <= obs[k].timestamp
        &&& obs[k].timestamp < window_of(obs[k].timestamp, window_size).end_exclusive
        &&& window_of(obs[k].timestamp, window_size).end_exclusive == window_of(
            obs[k].timestamp,
            window_size,
        ).start + window_size
    } by {
        let t = obs[k].timestamp;
        assert(window_fits(t, window_size));
        assert(t % window_size < window_size && t % window_size <= t) by (nonlinear_arith)
            requires
                window_size > 0,
        ;
    }
}

/// No observation made at or after `e` falls in a window that ends by `e`.
proof fn lemma_late_outside(
    obs: Seq<MatchObservation>,
    window_size: u64,
    e: u64,
    w: TimeWindow,
)
    requires
        window_size > 0,
        all_windows_fit(obs, window_size),
        w.end_exclusive <= e,
    ensures
        forall|k: int|
            0 <= k < obs.len() && !seen_before(e)(obs[k]) ==> window_of(#[trigger] obs[k].timestamp, window_size)
                != w,
{
    lemma_window_facts(obs, window_size);
    assert forall|k: int| 0 <= k < obs.len() && !seen_before(e)(obs[k]) implies window_of(
        #[trigger] obs[k].timestamp,
        window_size,
    ) != w by {
        assert(obs[k].timestamp < window_of(obs[k].timestamp, window_size).end_exclusive);
    }
}

/// An observation made before `e` in one of two sets of observations that
/// agree before `e` is in the other too.
pub proof fn lemma_member_before(obs1: Seq<MatchObservation>, obs2: Seq<MatchObservation>, e: u64, o: MatchObservation)
    requires
        obs1.filter(seen_before(e)) == obs2.filter(seen_before(e)),
        obs1.contains(o),
        o.timestamp < e,
    ensures
        obs2.contains(o),
{
    broadcast use vstd::seq_lib::group_seq_properties;
    let k = choose|k: int| 0 <= k < obs1.len() && obs1[k] == o;
    assert(seen_before(e)(obs1[k]));
    assert(obs1.filter(seen_before(e)).contains(obs1[k]));
    obs2.lemma_filter_contains_rev(seen_before(e), o);
}

/// The number of plays of a patch in a window that ends by `e` is the same
/// in two sets of observations that agree before `e`.
pub proof fn lemma_window_plays_before(
    obs1: Seq<MatchObservation>,
    obs2: Seq<MatchObservation>,
    window_size: u64,
    e: u64,
    p: Seq<char>,
    w: TimeWindow,
)
    requires
        window_size > 0,
        all_windows_fit(obs1, window_size),
        all_windows_fit(obs2, window_size),
        obs1.filter(seen_before(e)) == obs2.filter(seen_before(e)),
        w.end_exclusive <= e,
    ensures
        window_plays(obs1, window_size, p, w, obs1.len() as int) == window_plays(obs2, window_size, p, w, obs2.len() as int),
{
    lemma_window_tally_prefix(obs1, window_size, p, w, obs1.len() as int);
    lemma_window_tally_prefix(obs2, window_size, p, w, obs2.len() as int);
    assert(obs1.take(obs1.len() as int) == obs1);
    assert(obs2.take(obs2.len() as int) == obs2);
    lemma_late_outside(obs1, window_size, e, w);
    lemma_late_outside(obs2, window_size, e, w);
    lemma_window_tally_filter(window_size, p, w, obs1, seen_before(e));
    lemma_window_tally_filter(window_size, p, w, obs2, seen_before(e));
}

/// The plays and placements of a group whose window ends by `e` are the
/// same in two sets of observations that agree before `e`.
pub proof fn lemma_group_counts_before(
    obs1: Seq<MatchObservation>,
    obs2: Seq<MatchObservation>,
    window_size: u64,
    e: u64,
    g: (Seq<char>, TimeWindow, Seq<Seq<char>>),
)
    requires
        window_size > 0,
        all_windows_fit(obs1, window_size),
        all_windows_fit(obs2, window_size),
        obs1.filter(seen_before(e)) == obs2.filter(seen_before(e)),
        g.1.end_exclusive <= e,
    ensures
        plays(obs1, window_size, g, obs1.len() as int) == plays(obs2, window_size, g, obs2.len() as int),
        placement_sum(obs1, window_size, g, obs1.len() as int) == placement_sum(
            obs2,
            window_size,
            g,
            obs2.len() as int,
        ),
        top_fours(obs1, window_size, g, obs1.len() as int) == top_fours(obs2, window_size, g, obs2.len() as int),
{
    broadcast use vstd::seq_lib::group_seq_properties;
    let pred = seen_before(e);
    let common = obs1.filter(pred);
    lemma_tally_prefix(obs1, window_size, g, obs1.len() as int);
    lemma_tally_prefix(obs2, window_size, g, obs2.len() as int);
    assert(obs1.take(obs1.len() as int) == obs1);
    assert(obs2.take(obs2.len() as int) == obs2);
    lemma_late_outside(obs1, window_size, e, g.1);
    lemma_late_outside(obs2, window_size, e, g.1);
    lemma_tally_filter(obs1, window_size, g, obs1, pred);
    lemma_tally_filter(obs2, window_size, g, obs2, pred);
    assert forall|i: int| 0 <= i < common.len() implies group_of(obs1, window_size, #[trigger] common[i])
        == group_of(obs2, window_size, common[i]) by {
        obs1.lemma_filter_pred(pred, i);
        assert(common.contains(common[i]));
        obs1.lemma_filter_contains_rev(pred, common[i]);
        lemma_family_agrees_before(obs1, obs2, e, common[i]);
    }
    lemma_tally_context(obs1, obs2, window_size, g, common);
}


/// What two sets of observations that agree before `e` say of the windows
/// before a window `w` that ends by `e`: one has a populated window of patch
/// `p` before `w`, or `w2` as the latest of them, only if the other does.
proof fn lemma_previous_one_way(
    obs1: Seq<MatchObservation>,
    obs2: Seq<MatchObservation>,
    window_size: u64,
    e: u64,
    p: Seq<char>,
    w: TimeWindow,
    w2: TimeWindow,
)
    requires
        window_size > 0,
        all_windows_fit(obs1, window_size),
        all_windows_fit(obs2, window_size),
        obs1.filter(seen_before(e)) == obs2.filter(seen_before(e)),
        w.end_exclusive <= e,
        w.end_exclusive == w.start + window_size,
    ensures
        has_previous_window(obs1, window_size, p, w) ==> has_previous_window(obs2, window_size, p, w),
        is_previous_window(obs1, window_size, p, w, w2) ==> is_previous_window(obs2, window_size, p, w, w2),
{
    broadcast use vstd::seq_lib::group_seq_properties;
    lemma_window_facts(obs1, window_size);
    lemma_window_facts(obs2, window_size);
    if has_previous_window(obs1, window_size, p, w) {
        let k = choose|k: int|
            0 <= k < obs1.len() && #[trigger] obs1[k].patch@ == p && window_before(
                window_of(obs1[k].timestamp, window_size),
                w,
            );
        assert(obs1[k].timestamp < e);
        assert(obs1.contains(obs1[k]));
        lemma_member_before(obs1, obs2, e, obs1[k]);
        let k2 = choose|k2: int| 0 <= k2 < obs2.len() && obs2[k2] == obs1[k];
        assert(obs2[k2].patch@ == p);
    }
    if is_previous_window(obs1, window_size, p, w, w2) {
        let k = choose|k: int|
            0 <= k < obs1.len() && #[trigger] obs1[k].patch@ == p && window_of(obs1[k].timestamp, window_size) == w2;
        assert(obs1[k].timestamp < e);
        assert(obs1.contains(obs1[k]));
        lemma_member_before(obs1, obs2, e, obs1[k]);
        let k2 = choose|k2: int| 0 <= k2 < obs2.len() && obs2[k2] == obs1[k];
        assert(obs2[k2].patch@ == p);
        assert forall|m: int|
            0 <= m < obs2.len() && #[trigger] obs2[m].patch@ == p && window_before(
                window_of(obs2[m].timestamp, window_size),
                w,
            ) implies !window_before(w2, window_of(obs2[m].timestamp, window_size)) by {
            assert(obs2[m].timestamp < e);
            assert(obs2.contains(obs2[m]));
            lemma_member_before(obs2, obs1, e, obs2[m]);
            let m1 = choose|m1: int| 0 <= m1 < obs1.len() && obs1[m1] == obs2[m];
            assert(obs1[m1].patch@ == p);
        }
    }
}

/// A summary of a window that ends by `e` has a summary with the same values
/// among the summaries of any set of observations that agrees with its own
/// before `e`.
pub proof fn lemma_summary_agrees_before(
    obs1: Seq<MatchObservation>,
    obs2: Seq<MatchObservation>,
    window_size: u64,
    e: u64,
    x: CompositionSummary,
    s2: Seq<CompositionSummary>,
)
    requires
        window_size > 0,
        all_windows_fit(obs1, window_size),
        all_windows_fit(obs2, window_size),
        obs1.filter(seen_before(e)) == obs2.filter(seen_before(e)),
        summarizes(obs1, window_size, x),
        x.window.end_exclusive <= e,
        forall|i: int| 0 <= i < s2.len() ==> summarizes(obs2, window_size, #[trigger] s2[i]),
        covers_observations(obs2, window_size, s2),
    ensures
        exists|j: int| 0 <= j < s2.len() && #[trigger] summary_view(s2[j]) == summary_view(x),
{
    let g = x.group();
    lemma_group_counts_before(obs1, obs2, window_size, e, g);
    let k = lemma_plays_witness(obs2, window_size, g, obs2.len() as int);
    assert(lists_summary(s2, group_of(obs2, window_size, obs2[k])));
    let j = choose|j: int| 0 <= j < s2.len() && #[trigger] s2[j].group() == group_of(obs2, window_size, obs2[k]);
    let y = s2[j];
    assert(summarizes(obs2, window_size, y));
    lemma_window_plays_before(obs1, obs2, window_size, e, x.patch@, x.window);
    lemma_window_facts(obs1, window_size);
    lemma_window_facts(obs2, window_size);
    assert(x.window == window_of(obs2[k].timestamp, window_size));
    let w2 = match x.usage_rate_change {
        Some(c) => c.previous_window,
        None => x.window,
    };
    lemma_previous_one_way(obs1, obs2, window_size, e, x.patch@, x.window, w2);
    lemma_previous_one_way(obs2, obs1, window_size, e, x.patch@, x.window, w2);
    if let Some(c1) = x.usage_rate_change {
        let c2 = y.usage_rate_change.unwrap();
        lemma_previous_window_unique(obs2, window_size, x.patch@, x.window, c1.previous_window, c2.previous_window);
        let kp = choose|kp: int|
            0 <= kp < obs1.len() && #[trigger] obs1[kp].patch@ == x.patch@ && window_of(obs1[kp].timestamp, window_size)
                == c1.previous_window;
        assert(c1.previous_window.end_exclusive <= e);
        lemma_group_counts_before(obs1, obs2, window_size, e, (x.patch@, c1.previous_window, x.composition@));
        lemma_window_plays_before(obs1, obs2, window_size, e, x.patch@, c1.previous_window);
    }
    assert(summary_view(y) == summary_view(x));
}

} // verus!
