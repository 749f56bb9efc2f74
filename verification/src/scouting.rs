//! Early adopters of emerging families, the scouts among them, and their
//! forecasts.
use vstd::prelude::*;

use crate::analysis::{
    CompositionSummary, TimeWindow, all_windows_fit, families_of, group_of, summarize_with_families,
    summarizes, summary_order, covers_observations, window_of,
};
use crate::families::{Family, assign_composition_families, family_representative, board_of};
use crate::model::{Composition, MatchObservation};
use crate::text::{Precedence, compare_text, text_before, texts_before, texts_of};
use crate::sorting::TotalPreorder;

verus! {

/// Observations prepared for composition analysis: every exact board already
/// assigned to its family.
pub struct CompositionAnalysis<'a> {
    observations: &'a [MatchObservation],
    window_size: u64,
    families: Vec<Family>,
    /// The window and family of each observation.
    groups: Vec<(TimeWindow, Composition)>,
}

impl<'a> CompositionAnalysis<'a> {
    #[verifier::type_invariant]
    spec fn well_formed(self) -> bool {
        &&& self.window_size > 0
        &&& all_windows_fit(self.observations@, self.window_size)
        &&& self.observations@.len() * 255 <= u64::MAX
        &&& families_of(self.families@, self.observations@)
        &&& self.groups@.len() == self.observations@.len()
        &&& forall|k: int|
            0 <= k < self.groups@.len() ==> {
                &&& (#[trigger] self.groups@[k]).0 == window_of(self.observations@[k].timestamp, self.window_size)
                &&& self.groups@[k].1@ == group_of(self.observations@, self.window_size, self.observations@[k]).2
            }
    }

    pub closed spec fn spec_observations(self) -> Seq<MatchObservation> {
        self.observations@
    }

    pub closed spec fn spec_window_size(self) -> u64 {
        self.window_size
    }

    pub fn new(observations: &'a [MatchObservation], window_size: u64) -> (analysis: Self)
        requires
            window_size > 0,
            all_windows_fit(observations@, window_size),
            observations@.len() * 255 <= u64::MAX,
        ensures
            analysis.spec_observations() == observations@,
            analysis.spec_window_size() == window_size,
    {
        let families = assign_composition_families(observations);
        let mut groups: Vec<(TimeWindow, Composition)> = Vec::new();
        let mut k: usize = 0;
        while k < observations.len()
            invariant
                0 <= k <= observations@.len(),
                window_size > 0,
                all_windows_fit(observations@, window_size),
                families_of(families@, observations@),
                groups@.len() == k,
                forall|q: int|
                    0 <= q < k ==> {
                        &&& (#[trigger] groups@[q]).0 == window_of(observations@[q].timestamp, window_size)
                        &&& groups@[q].1@ == group_of(observations@, window_size, observations@[q]).2
                    },
            decreases observations@.len() - k,
        {
            let observation = &observations[k];
            let exact = Composition::from_units(observation.units.as_slice());
            assert(board_of(observations@[k as int]) == (observation.patch@, exact@));
            let family = family_representative(&families, &observation.patch, &exact, Ghost(observations@));
            let window = TimeWindow::containing(observation.timestamp, window_size);
            groups.push((window, family));
            k = k + 1;
        }
        CompositionAnalysis { observations, window_size, families, groups }
    }

    pub fn observations(&self) -> (observations: &'a [MatchObservation])
        ensures
            observations@ == self.spec_observations(),
    {
        self.observations
    }

    pub fn window_size(&self) -> (window_size: u64)
        ensures
            window_size == self.spec_window_size(),
            window_size > 0,
    {
        proof {
            use_type_invariant(self);
        }
        self.window_size
    }

    /// The statistics of each family in each patch and window.
    pub fn summarize_compositions(&self) -> (summaries: Vec<CompositionSummary>)
        ensures
            crate::sorting::strictly_ordered(summaries@, summary_order()),
            forall|i: int|
                0 <= i < summaries@.len() ==> summarizes(
                    self.spec_observations(),
                    self.spec_window_size(),
                    #[trigger] summaries@[i],
                ),
            covers_observations(self.spec_observations(), self.spec_window_size(), summaries@),
    {
        proof {
            use_type_invariant(self);
        }
        summarize_with_families(self.observations, self.window_size, &self.families)
    }

    /// The window and family of the `k`-th observation.
    pub(crate) fn group_at(&self, k: usize) -> (group: &(TimeWindow, Composition))
        requires
            k < self.spec_observations().len(),
        ensures
            group.0 == window_of(self.spec_observations()[k as int].timestamp, self.spec_window_size()),
            group.1@ == group_of(self.spec_observations(), self.spec_window_size(), self.spec_observations()[k as int]).2,
    {
        proof {
            use_type_invariant(self);
        }
        &self.groups[k]
    }
}

} // verus!

verus! {

/// A play of a family in the populated window before the family emerged.
pub struct EarlyAdopter {
    pub player_id: String,
    pub patch: String,
    pub composition: Composition,
    pub adoption_window: TimeWindow,
    pub emergence_window: TimeWindow,
    pub placement: u8,
}

impl EarlyAdopter {
    pub open spec fn view_tuple(self) -> (Seq<char>, Seq<char>, Seq<Seq<char>>, TimeWindow, TimeWindow, u8) {
        (self.player_id@, self.patch@, self.composition@, self.adoption_window, self.emergence_window, self.placement)
    }

    pub fn duplicate(&self) -> (r: EarlyAdopter)
        ensures
            r.view_tuple() == self.view_tuple(),
    {
        EarlyAdopter {
            player_id: self.player_id.clone(),
            patch: self.patch.clone(),
            composition: self.composition.duplicate(),
            adoption_window: self.adoption_window,
            emergence_window: self.emergence_window,
            placement: self.placement,
        }
    }
}

pub open spec fn adopter_views(adopters: Seq<EarlyAdopter>) -> Seq<(Seq<char>, Seq<char>, Seq<Seq<char>>, TimeWindow, TimeWindow, u8)> {
    adopters.map_values(|a: EarlyAdopter| a.view_tuple())
}

/// The early games of the family of `event`: its plays in the previous
/// populated window of its patch.
pub open spec fn early_games(
    obs: Seq<MatchObservation>,
    window_size: u64,
    event: CompositionSummary,
) -> Seq<(Seq<char>, Seq<char>, Seq<Seq<char>>, TimeWindow, TimeWindow, u8)> {
    match event.usage_rate_change {
        None => Seq::empty(),
        Some(c) => obs.filter(
            |o: MatchObservation|
                group_of(obs, window_size, o) == (event.patch@, c.previous_window, event.composition@),
        ).map_values(
            |o: MatchObservation|
                (o.player_id@, event.patch@, event.composition@, c.previous_window, event.window, o.placement),
        ),
    }
}

/// The early games of every event, event by event.
pub open spec fn all_early_games(
    obs: Seq<MatchObservation>,
    window_size: u64,
    events: Seq<&CompositionSummary>,
) -> Seq<(Seq<char>, Seq<char>, Seq<Seq<char>>, TimeWindow, TimeWindow, u8)>
    decreases events.len(),
{
    if events.len() == 0 {
        Seq::empty()
    } else {
        all_early_games(obs, window_size, events.drop_last()) + early_games(obs, window_size, *events.last())
    }
}

impl<'a> CompositionAnalysis<'a> {
    /// The early games of one event.
    fn early_games_of(&self, event: &CompositionSummary, adopters: &mut Vec<EarlyAdopter>)
        ensures
            adopter_views(final(adopters)@) == adopter_views(old(adopters)@) + early_games(
                self.spec_observations(),
                self.spec_window_size(),
                *event,
            ),
    {
        proof {
            use_type_invariant(self);
        }
        let ghost obs = self.observations@;
        let ghost window_size = self.window_size;
        let ghost start = adopter_views(adopters@);
        match event.usage_rate_change {
            None => {
                assert(adopter_views(adopters@) =~= start + Seq::empty());
            },
            Some(change) => {
                let ghost pred = |o: MatchObservation|
                    group_of(obs, window_size, o) == (event.patch@, change.previous_window, event.composition@);
                let ghost f = |o: MatchObservation|
                    (o.player_id@, event.patch@, event.composition@, change.previous_window, event.window, o.placement);
                let mut k: usize = 0;
                assert(obs.take(0).filter(pred) =~= Seq::<MatchObservation>::empty()) by {
                    reveal(Seq::filter);
                }
                assert(adopter_views(adopters@) =~= start + obs.take(0).filter(pred).map_values(f));
                while k < self.observations.len()
                    invariant
                        obs == self.observations@,
                        window_size == self.window_size,
                        0 <= k <= obs.len(),
                        event.usage_rate_change == Some(change),
                        pred == (|o: MatchObservation|
                            group_of(obs, window_size, o) == (event.patch@, change.previous_window, event.composition@)),
                        f == (|o: MatchObservation|
                            (o.player_id@, event.patch@, event.composition@, change.previous_window, event.window, o.placement)),
                        adopter_views(adopters@) == start + obs.take(k as int).filter(pred).map_values(f),
                    decreases obs.len() - k,
                {
                    let observation = &self.observations[k];
                    let group = self.group_at(k);
                    proof {
                        assert(obs.take(k + 1) =~= obs.take(k as int).push(obs[k as int]));
                        obs.take(k as int).lemma_filter_push(obs[k as int], pred);
                    }
                    let ghost before = adopters@;
                    let same = group.0 == change.previous_window && match compare_text(
                        observation.patch.as_str(),
                        event.patch.as_str(),
                    ) {
                        Precedence::Same => true,
                        _ => false,
                    } && match group.1.compare(&event.composition) {
                        Precedence::Same => true,
                        _ => false,
                    };
                    if same {
                        adopters.push(
                            EarlyAdopter {
                                player_id: observation.player_id.clone(),
                                patch: event.patch.clone(),
                                composition: event.composition.duplicate(),
                                adoption_window: change.previous_window,
                                emergence_window: event.window,
                                placement: observation.placement,
                            },
                        );
                        assert(adopter_views(adopters@) =~= adopter_views(before).push(f(obs[k as int])));
                        assert(obs.take(k as int).filter(pred).push(obs[k as int]).map_values(f) =~= obs.take(
                            k as int,
                        ).filter(pred).map_values(f).push(f(obs[k as int])));
                    }
                    k = k + 1;
                }
                assert(obs.take(obs.len() as int) =~= obs);
            },
        }
    }

    /// The early games of the given events, event by event. A player who
    /// played an event's family in the previous populated window of its patch
    /// adopted it early.
    pub fn early_adopters(&self, events: &[&CompositionSummary]) -> (adopters: Vec<EarlyAdopter>)
        ensures
            adopter_views(adopters@) == all_early_games(self.spec_observations(), self.spec_window_size(), events@),
    {
        let mut adopters: Vec<EarlyAdopter> = Vec::new();
        let mut i: usize = 0;
        assert(events@.take(0) =~= Seq::<&CompositionSummary>::empty());
        assert(adopter_views(adopters@) =~= all_early_games(self.spec_observations(), self.spec_window_size(), events@.take(0)));
        while i < events.len()
            invariant
                0 <= i <= events@.len(),
                adopter_views(adopters@) == all_early_games(self.spec_observations(), self.spec_window_size(), events@.take(i as int)),
            decreases events@.len() - i,
        {
            self.early_games_of(events[i], &mut adopters);
            assert(events@.take(i + 1).drop_last() =~= events@.take(i as int));
            assert(events@.take(i + 1).last() == events@[i as int]);
            i = i + 1;
        }
        assert(events@.take(events@.len() as int) =~= events@);
        adopters
    }
}

} // verus!

verus! {

pub type AdopterView = (Seq<char>, Seq<char>, Seq<Seq<char>>, TimeWindow, TimeWindow, u8);

/// The number of the first `n` early games that player `p` played.
pub open spec fn signal_count(a: Seq<AdopterView>, p: Seq<char>, n: int) -> nat
    decreases n,
{
    if n <= 0 {
        0
    } else {
        signal_count(a, p, n - 1) + if a[n - 1].0 == p {
            1nat
        } else {
            0nat
        }
    }
}

/// The sum of placements of player `p` in the first `n` early games.
pub open spec fn early_placement_sum(a: Seq<AdopterView>, p: Seq<char>, n: int) -> nat
    decreases n,
{
    if n <= 0 {
        0
    } else {
        early_placement_sum(a, p, n - 1) + if a[n - 1].0 == p {
            a[n - 1].5 as nat
        } else {
            0nat
        }
    }
}

/// Player `p` has an early game of patch `t` among the first `n`.
pub open spec fn has_patch_signal(a: Seq<AdopterView>, p: Seq<char>, t: Seq<char>, n: int) -> bool {
    exists|j: int| 0 <= j < n && #[trigger] a[j].0 == p && a[j].1 == t
}

/// The number of distinct patches of player `p`'s first `n` early games.
pub open spec fn patch_count(a: Seq<AdopterView>, p: Seq<char>, n: int) -> nat
    decreases n,
{
    if n <= 0 {
        0
    } else {
        patch_count(a, p, n - 1) + if a[n - 1].0 == p && !has_patch_signal(a, p, a[n - 1].1, n - 1) {
            1nat
        } else {
            0nat
        }
    }
}

/// A player's early-adoption record.
#[derive(Debug)]
pub struct ScoutSummary {
    pub player_id: String,
    /// Early games of families that went on to emerge.
    pub signals: usize,
    /// Distinct patches among those games.
    pub patches: usize,
    /// Sum of placements in those games.
    pub placement_total: u128,
}

/// `s` is player `s.player_id`'s record among the early games `a`.
pub open spec fn records_scout(a: Seq<AdopterView>, s: ScoutSummary) -> bool {
    &&& s.signals == signal_count(a, s.player_id@, a.len() as int)
    &&& s.signals > 0
    &&& s.patches == patch_count(a, s.player_id@, a.len() as int)
    &&& s.placement_total == early_placement_sum(a, s.player_id@, a.len() as int)
}

/// Players with at least two signals are established scouts.
pub open spec fn is_established(s: ScoutSummary) -> bool {
    s.signals >= 2
}

pub open spec fn signal_denominator(s: ScoutSummary) -> int {
    if s.signals > 0 {
        s.signals as int
    } else {
        1
    }
}

/// `a` placed better on average than `b` in their early games.
pub open spec fn scout_placed_better(a: ScoutSummary, b: ScoutSummary) -> bool {
    a.placement_total * signal_denominator(b) < b.placement_total * signal_denominator(a)
}

/// Scouts are ranked by signals, then patches covered (most first), then
/// average early placement (best first), then player id.
pub open spec fn scout_before(a: ScoutSummary, b: ScoutSummary) -> bool {
    ||| a.signals > b.signals
    ||| a.signals == b.signals && a.patches > b.patches
    ||| a.signals == b.signals && a.patches == b.patches && scout_placed_better(a, b)
    ||| a.signals == b.signals && a.patches == b.patches && !scout_placed_better(a, b)
        && !scout_placed_better(b, a) && text_before(a.player_id@, b.player_id@)
}

pub open spec fn scout_order() -> spec_fn(ScoutSummary, ScoutSummary) -> bool {
    |a: ScoutSummary, b: ScoutSummary| scout_before(a, b)
}

proof fn lemma_scout_order(a: ScoutSummary, b: ScoutSummary, c: ScoutSummary)
    ensures
        scout_before(a, b) ==> !scout_before(b, a),
        scout_before(c, a) ==> scout_before(c, b) || scout_before(b, a),
        !scout_before(a, b) && !scout_before(b, a) ==> a.player_id@ == b.player_id@,
        !scout_before(a, a),
{
    assert(signal_denominator(a) > 0 && signal_denominator(b) > 0 && signal_denominator(c) > 0);
    let pa = a.placement_total as int;
    let pb = b.placement_total as int;
    let pc = c.placement_total as int;
    let da = signal_denominator(a);
    let db = signal_denominator(b);
    let dc = signal_denominator(c);
    if pc * da < pa * dc && !(pc * db < pb * dc) {
        crate::fraction::lemma_fraction_mixed_transitive(pb, db, pc, dc, pa, da);
    }
    if !(pa * dc < pc * da) && !(pc * da < pa * dc) {
        if pb * dc < pc * db {
            crate::fraction::lemma_fraction_mixed_transitive(pb, db, pc, dc, pa, da);
        }
        if pc * db < pb * dc {
            crate::fraction::lemma_fraction_mixed_transitive(pa, da, pc, dc, pb, db);
        }
    }
    crate::text::lemma_text_asymmetric(a.player_id@, b.player_id@);
    crate::text::lemma_text_irreflexive(a.player_id@);
    crate::text::lemma_text_total(a.player_id@, b.player_id@);
    crate::text::lemma_text_total(b.player_id@, c.player_id@);
    crate::text::lemma_text_total(a.player_id@, c.player_id@);
    crate::text::lemma_text_transitive(c.player_id@, b.player_id@, a.player_id@);
    crate::text::lemma_text_transitive(c.player_id@, a.player_id@, b.player_id@);
    crate::text::lemma_text_transitive(b.player_id@, a.player_id@, c.player_id@);
    if !(pa * db < pb * da) && !(pb * da < pa * db) && !(pb * dc < pc * db) && !(pc * db < pb * dc) {
        crate::fraction::lemma_fraction_mixed_transitive(pa, da, pb, db, pc, dc);
        crate::fraction::lemma_fraction_mixed_transitive(pc, dc, pb, db, pa, da);
    }
}

} // verus!

verus! {

/// The ranking order of scouts.
pub struct ScoutOrder;

impl crate::sorting::TotalPreorder<ScoutSummary> for ScoutOrder {
    open spec fn precedes(&self, a: ScoutSummary, b: ScoutSummary) -> bool {
        !scout_before(b, a)
    }

    fn precedes_exec(&self, a: &ScoutSummary, b: &ScoutSummary) -> (r: bool) {
        !scout_before_exec(b, a)
    }

    proof fn lemma_total_preorder(&self) {
        assert forall|a: ScoutSummary, b: ScoutSummary| #[trigger] self.precedes(a, b) || self.precedes(b, a) by {
            lemma_scout_order(a, b, b);
        }
        assert forall|a: ScoutSummary, b: ScoutSummary, c: ScoutSummary|
            #[trigger] self.precedes(a, b) && #[trigger] self.precedes(b, c) implies self.precedes(a, c) by {
            lemma_scout_order(a, b, c);
        }
    }
}

fn scout_before_exec(a: &ScoutSummary, b: &ScoutSummary) -> (r: bool)
    ensures
        r == scout_before(*a, *b),
{
    if a.signals != b.signals {
        return a.signals > b.signals;
    }
    if a.patches != b.patches {
        return a.patches > b.patches;
    }
    let da: u64 = if a.signals > 0 { a.signals as u64 } else { 1 };
    let db: u64 = if b.signals > 0 { b.signals as u64 } else { 1 };
    match crate::fraction::compare_fractions(a.placement_total, da as u128, b.placement_total, db as u128) {
        Precedence::Before => true,
        Precedence::After => false,
        Precedence::Same => match compare_text(a.player_id.as_str(), b.player_id.as_str()) {
            Precedence::Before => true,
            _ => false,
        },
    }
}

struct ScoutTally {
    player_id: String,
    signals: usize,
    patches: Vec<String>,
    placement_total: u128,
}

spec fn tallies_scout(a: Seq<AdopterView>, t: ScoutTally, n: int) -> bool {
    let p = t.player_id@;
    &&& t.signals == signal_count(a, p, n)
    &&& t.signals > 0
    &&& t.placement_total == early_placement_sum(a, p, n)
    &&& t.patches@.len() == patch_count(a, p, n)
    &&& forall|q: Seq<char>| #[trigger] crate::text::texts_of(t.patches@).contains(q) <==> has_patch_signal(a, p, q, n)
}

spec fn lists_player(tallies: Seq<ScoutTally>, p: Seq<char>) -> bool {
    exists|j: int| 0 <= j < tallies.len() && #[trigger] tallies[j].player_id@ == p
}

proof fn lemma_scout_bounds(a: Seq<AdopterView>, p: Seq<char>, n: int)
    requires
        0 <= n <= a.len(),
    ensures
        signal_count(a, p, n) <= n,
        early_placement_sum(a, p, n) <= 255 * signal_count(a, p, n),
    decreases n,
{
    if n > 0 {
        lemma_scout_bounds(a, p, n - 1);
    }
}

/// A player with a signal played one of the early games.
pub proof fn lemma_signal_witness(a: Seq<AdopterView>, p: Seq<char>, n: int) -> (m: int)
    requires
        signal_count(a, p, n) > 0,
    ensures
        0 <= m < n,
        a[m].0 == p,
    decreases n,
{
    if a[n - 1].0 == p {
        n - 1
    } else {
        lemma_signal_witness(a, p, n - 1)
    }
}

proof fn lemma_scout_zero(a: Seq<AdopterView>, p: Seq<char>, n: int)
    requires
        0 <= n <= a.len(),
        forall|j: int| 0 <= j < n ==> (#[trigger] a[j]).0 != p,
    ensures
        signal_count(a, p, n) == 0,
        early_placement_sum(a, p, n) == 0,
        patch_count(a, p, n) == 0,
    decreases n,
{
    if n > 0 {
        lemma_scout_zero(a, p, n - 1);
    }
}

fn find_player(tallies: &Vec<ScoutTally>, player: &String) -> (r: Option<usize>)
    ensures
        r matches Some(j) ==> j < tallies@.len() && tallies@[j as int].player_id@ == player@,
        r is None ==> !lists_player(tallies@, player@),
{
    let mut j: usize = 0;
    while j < tallies.len()
        invariant
            0 <= j <= tallies@.len(),
            forall|q: int| 0 <= q < j ==> #[trigger] tallies@[q].player_id@ != player@,
        decreases tallies@.len() - j,
    {
        if let Precedence::Same = compare_text(tallies[j].player_id.as_str(), player.as_str()) {
            return Some(j);
        }
        j = j + 1;
    }
    None
}

#[verifier::spinoff_prover]
fn record_signal(tallies: &mut Vec<ScoutTally>, adopter: &EarlyAdopter, Ghost(a): Ghost<Seq<AdopterView>>, Ghost(n): Ghost<int>)
    requires
        0 <= n < a.len(),
        a.len() <= usize::MAX,
        a[n] == adopter.view_tuple(),
        forall|j: int| 0 <= j < old(tallies)@.len() ==> tallies_scout(a, #[trigger] old(tallies)@[j], n),
        forall|m: int| 0 <= m < n ==> lists_player(old(tallies)@, (#[trigger] a[m]).0),
        forall|i: int, j: int| 0 <= i < j < old(tallies)@.len() ==> #[trigger] old(tallies)@[i].player_id@ != #[trigger] old(tallies)@[j].player_id@,
    ensures
        forall|j: int| 0 <= j < final(tallies)@.len() ==> tallies_scout(a, #[trigger] final(tallies)@[j], n + 1),
        forall|m: int| 0 <= m < n + 1 ==> lists_player(final(tallies)@, (#[trigger] a[m]).0),
        forall|i: int, j: int| 0 <= i < j < final(tallies)@.len() ==> #[trigger] final(tallies)@[i].player_id@ != #[trigger] final(tallies)@[j].player_id@,
{
    let ghost old_tallies = tallies@;
    let ghost p = adopter.player_id@;
    let ghost t = adopter.patch@;
    match find_player(tallies, &adopter.player_id) {
        Some(j) => {
            let old = &tallies[j];
            proof {
                lemma_scout_bounds(a, p, n);
            }
            let known = crate::model::contains_text(&old.patches, &adopter.patch);
            let mut patches = crate::model::copy_strings(&old.patches);
            if !known {
                patches.push(adopter.patch.clone());
            }
            let updated = ScoutTally {
                player_id: old.player_id.clone(),
                signals: old.signals + 1,
                patches,
                placement_total: old.placement_total + adopter.placement as u128,
            };
            tallies.set(j, updated);
            proof {
                assert forall|q: int| 0 <= q < tallies@.len() implies tallies_scout(a, #[trigger] tallies@[q], n + 1) by {
                    let pq = tallies@[q].player_id@;
                    assert(signal_count(a, pq, n + 1) == signal_count(a, pq, n) + if a[n].0 == pq { 1nat } else { 0nat });
                    assert(early_placement_sum(a, pq, n + 1) == early_placement_sum(a, pq, n) + if a[n].0 == pq { a[n].5 as nat } else { 0nat });
                    assert(patch_count(a, pq, n + 1) == patch_count(a, pq, n) + if a[n].0 == pq && !has_patch_signal(a, pq, a[n].1, n) { 1nat } else { 0nat });
                    assert forall|r: Seq<char>| has_patch_signal(a, pq, r, n + 1) <==> (has_patch_signal(a, pq, r, n) || (a[n].0 == pq && a[n].1 == r)) by {
                        if has_patch_signal(a, pq, r, n + 1) {
                            let w = choose|w: int| 0 <= w < n + 1 && #[trigger] a[w].0 == pq && a[w].1 == r;
                            if w < n {
                                assert(has_patch_signal(a, pq, r, n));
                            }
                        }
                        if has_patch_signal(a, pq, r, n) {
                            let w = choose|w: int| 0 <= w < n && #[trigger] a[w].0 == pq && a[w].1 == r;
                            assert(0 <= w < n + 1 && a[w].0 == pq && a[w].1 == r);
                        }
                        if a[n].0 == pq && a[n].1 == r {
                            assert(0 <= n < n + 1 && a[n].0 == pq && a[n].1 == r);
                        }
                    }
                    if q != j {
                        assert(tallies@[q] == old_tallies[q]);
                        assert(old_tallies[q].player_id@ != old_tallies[j as int].player_id@);
                    } else {
                        assert(tallies_scout(a, old_tallies[q], n));
                        assert(pq == p);
                        assert(known == has_patch_signal(a, p, t, n));
                        let before = crate::text::texts_of(old_tallies[q].patches@);
                        let after = crate::text::texts_of(tallies@[q].patches@);
                        if known {
                            assert(after == before);
                        } else {
                            assert(after =~= before.push(t));
                            assert forall|r: Seq<char>| #[trigger] after.contains(r) <==> has_patch_signal(a, p, r, n + 1) by {
                                if after.contains(r) {
                                    let w = choose|w: int| 0 <= w < after.len() && after[w] == r;
                                    if w < before.len() {
                                        assert(before.contains(r));
                                    }
                                }
                                if before.contains(r) {
                                    let w = choose|w: int| 0 <= w < before.len() && before[w] == r;
                                    assert(after[w] == r);
                                }
                                if r == t {
                                    assert(after[before.len() as int] == r);
                                }
                            }
                        }
                    }
                }
                assert forall|m: int| 0 <= m < n + 1 implies lists_player(tallies@, (#[trigger] a[m]).0) by {
                    if m < n {
                        let q = choose|q: int| 0 <= q < old_tallies.len() && #[trigger] old_tallies[q].player_id@ == a[m].0;
                        assert(tallies@[q].player_id@ == old_tallies[q].player_id@);
                    } else {
                        assert(tallies@[j as int].player_id@ == a[m].0);
                    }
                }
                assert forall|x: int, y: int| 0 <= x < y < tallies@.len() implies #[trigger] tallies@[x].player_id@ != #[trigger] tallies@[y].player_id@ by {
                    assert(tallies@[x].player_id@ == old_tallies[x].player_id@);
                    assert(tallies@[y].player_id@ == old_tallies[y].player_id@);
                }
            }
        },
        None => {
            proof {
                assert forall|m: int| 0 <= m < n implies (#[trigger] a[m]).0 != p by {
                    let q = choose|q: int| 0 <= q < old_tallies.len() && #[trigger] old_tallies[q].player_id@ == a[m].0;
                }
                lemma_scout_zero(a, p, n);
            }
            let mut patches: Vec<String> = Vec::new();
            patches.push(adopter.patch.clone());
            tallies.push(ScoutTally {
                player_id: adopter.player_id.clone(),
                signals: 1,
                patches,
                placement_total: adopter.placement as u128,
            });
            proof {
                let last = old_tallies.len() as int;
                assert forall|q: int| 0 <= q < tallies@.len() implies tallies_scout(a, #[trigger] tallies@[q], n + 1) by {
                    let pq = tallies@[q].player_id@;
                    assert(signal_count(a, pq, n + 1) == signal_count(a, pq, n) + if a[n].0 == pq { 1nat } else { 0nat });
                    assert(early_placement_sum(a, pq, n + 1) == early_placement_sum(a, pq, n) + if a[n].0 == pq { a[n].5 as nat } else { 0nat });
                    assert(patch_count(a, pq, n + 1) == patch_count(a, pq, n) + if a[n].0 == pq && !has_patch_signal(a, pq, a[n].1, n) { 1nat } else { 0nat });
                    if q != last {
                        assert(tallies@[q] == old_tallies[q]);
                        assert(old_tallies[q].player_id@ != p);
                        assert forall|r: Seq<char>| has_patch_signal(a, pq, r, n + 1) <==> has_patch_signal(a, pq, r, n) by {
                            if has_patch_signal(a, pq, r, n + 1) {
                                let w = choose|w: int| 0 <= w < n + 1 && #[trigger] a[w].0 == pq && a[w].1 == r;
                                assert(w < n);
                            }
                            if has_patch_signal(a, pq, r, n) {
                                let w = choose|w: int| 0 <= w < n && #[trigger] a[w].0 == pq && a[w].1 == r;
                                assert(0 <= w < n + 1);
                            }
                        }
                    } else {
                        assert(pq == p);
                        assert(!has_patch_signal(a, p, t, n));
                        let after = crate::text::texts_of(tallies@[q].patches@);
                        assert(after =~= seq![t]);
                        assert forall|r: Seq<char>| #[trigger] after.contains(r) <==> has_patch_signal(a, p, r, n + 1) by {
                            if has_patch_signal(a, p, r, n + 1) {
                                let w = choose|w: int| 0 <= w < n + 1 && #[trigger] a[w].0 == p && a[w].1 == r;
                                assert(w == n);
                                assert(after[0] == r);
                            }
                            if after.contains(r) {
                                assert(0 <= n < n + 1 && a[n].0 == p && a[n].1 == r);
                            }
                        }
                    }
                }
                assert forall|m: int| 0 <= m < n + 1 implies lists_player(tallies@, (#[trigger] a[m]).0) by {
                    if m < n {
                        let q = choose|q: int| 0 <= q < old_tallies.len() && #[trigger] old_tallies[q].player_id@ == a[m].0;
                        assert(tallies@[q] == old_tallies[q]);
                    } else {
                        assert(tallies@[last].player_id@ == a[m].0);
                    }
                }
                assert forall|x: int, y: int| 0 <= x < y < tallies@.len() implies #[trigger] tallies@[x].player_id@ != #[trigger] tallies@[y].player_id@ by {
                    assert(tallies@[x] == old_tallies[x]);
                    if y < last {
                        assert(tallies@[y] == old_tallies[y]);
                    }
                }
            }
        },
    }
}

/// Some scout is player `p`.
pub open spec fn lists_scout(scouts: Seq<ScoutSummary>, p: Seq<char>) -> bool {
    exists|j: int| 0 <= j < scouts.len() && #[trigger] scouts[j].player_id@ == p
}

/// Ranks the players of the early games: one record per player, by signals,
/// patches covered, average early placement and player id.
pub fn summarize_scouts(adopters: &[EarlyAdopter]) -> (scouts: Vec<ScoutSummary>)
    ensures
        crate::sorting::strictly_ordered(scouts@, scout_order()),
        forall|i: int| 0 <= i < scouts@.len() ==> records_scout(adopter_views(adopters@), #[trigger] scouts@[i]),
        forall|m: int| 0 <= m < adopters@.len() ==> lists_scout(scouts@, (#[trigger] adopters@[m]).player_id@),
{
    let ghost a = adopter_views(adopters@);
    let total = adopters.len();
    assert(a.len() == total);
    let mut tallies: Vec<ScoutTally> = Vec::new();
    let mut n: usize = 0;
    while n < adopters.len()
        invariant
            a == adopter_views(adopters@),
            0 <= n <= a.len(),
            a.len() <= usize::MAX,
            forall|j: int| 0 <= j < tallies@.len() ==> tallies_scout(a, #[trigger] tallies@[j], n as int),
            forall|m: int| 0 <= m < n ==> lists_player(tallies@, (#[trigger] a[m]).0),
            forall|i: int, j: int| 0 <= i < j < tallies@.len() ==> #[trigger] tallies@[i].player_id@ != #[trigger] tallies@[j].player_id@,
        decreases a.len() - n,
    {
        record_signal(&mut tallies, &adopters[n], Ghost(a), Ghost(n as int));
        n = n + 1;
    }
    let mut scouts: Vec<ScoutSummary> = Vec::new();
    let mut i: usize = 0;
    while i < tallies.len()
        invariant
            0 <= i <= tallies@.len(),
            forall|j: int| 0 <= j < tallies@.len() ==> tallies_scout(a, #[trigger] tallies@[j], a.len() as int),
            forall|x: int, y: int| 0 <= x < y < tallies@.len() ==> #[trigger] tallies@[x].player_id@ != #[trigger] tallies@[y].player_id@,
            scouts@.len() == i,
            forall|j: int| 0 <= j < i ==> records_scout(a, #[trigger] scouts@[j]),
            forall|j: int| 0 <= j < i ==> #[trigger] scouts@[j].player_id@ == tallies@[j].player_id@,
        decreases tallies@.len() - i,
    {
        let tally = &tallies[i];
        scouts.push(ScoutSummary {
            player_id: tally.player_id.clone(),
            signals: tally.signals,
            patches: tally.patches.len(),
            placement_total: tally.placement_total,
        });
        i = i + 1;
    }
    let ghost unsorted = scouts@;
    let order = ScoutOrder;
    crate::sorting::stable_sort(&mut scouts, &order);
    proof {
        order.lemma_total_preorder();
        assert forall|x: int, y: int| 0 <= x < y < unsorted.len() implies !crate::sorting::equivalent(order, #[trigger] unsorted[x], #[trigger] unsorted[y]) by {
            lemma_scout_order(unsorted[x], unsorted[y], unsorted[y]);
        }
        crate::sorting::lemma_rearrangement_distinct(order, scouts@, unsorted);
        assert forall|x: int, y: int| 0 <= x < y < scouts@.len() implies #[trigger] scout_order()(scouts@[x], scouts@[y]) by {
            assert(order.precedes(scouts@[x], scouts@[y]));
            assert(!crate::sorting::equivalent(order, scouts@[x], scouts@[y]));
        }
        assert forall|q: int| 0 <= q < scouts@.len() implies records_scout(a, #[trigger] scouts@[q]) by {
            crate::sorting::lemma_rearrangement_contains(order, scouts@, unsorted, q);
            let j = choose|j: int| 0 <= j < unsorted.len() && unsorted[j] == scouts@[q];
        }
        assert forall|m: int| 0 <= m < adopters@.len() implies lists_scout(scouts@, (#[trigger] adopters@[m]).player_id@) by {
            assert(a[m].0 == adopters@[m].player_id@);
            let j = choose|j: int| 0 <= j < tallies@.len() && #[trigger] tallies@[j].player_id@ == a[m].0;
            crate::sorting::lemma_rearrangement_keeps(order, scouts@, unsorted, j);
            let q = choose|q: int| 0 <= q < scouts@.len() && scouts@[q] == unsorted[j];
        }
    }
    scouts
}


impl ScoutSummary {
    /// Whether the player is an established scout.
    pub fn is_established_scout(&self) -> (r: bool)
        ensures
            r == is_established(*self),
    {
        self.signals >= 2
    }
}

/// `a` is an early game of the family of `candidate`, in the window before
/// it emerged.
pub open spec fn adopted(candidate: CompositionSummary) -> spec_fn(AdopterView) -> bool {
    |a: AdopterView| a.1 == candidate.patch@ && a.4 == candidate.window && a.2 == candidate.composition@
}

/// The players of the early games of `candidate` among `adopters`, in order.
pub fn early_players_of(adopters: &[EarlyAdopter], candidate: &CompositionSummary) -> (players: Vec<String>)
    ensures
        texts_of(players@) == adopter_views(adopters@).filter(adopted(*candidate)).map_values(|a: AdopterView| a.0),
{
    let ghost views = adopter_views(adopters@);
    let mut players: Vec<String> = Vec::new();
    let mut i: usize = 0;
    while i < adopters.len()
        invariant
            0 <= i <= adopters@.len(),
            views == adopter_views(adopters@),
            texts_of(players@) == views.take(i as int).filter(adopted(*candidate)).map_values(|a: AdopterView| a.0),
        decreases adopters@.len() - i,
    {
        let adopter = &adopters[i];
        let same_patch = match compare_text(adopter.patch.as_str(), candidate.patch.as_str()) {
            Precedence::Same => true,
            _ => false,
        };
        let same_family = match adopter.composition.compare(&candidate.composition) {
            Precedence::Same => true,
            _ => false,
        };
        let ghost before = players@;
        proof {
            assert(views.take(i + 1) == views.take(i as int).push(views[i as int]));
            views.take(i as int).lemma_filter_push(views[i as int], adopted(*candidate));
            assert(views[i as int] == adopter.view_tuple());
        }
        if same_patch && adopter.emergence_window == candidate.window && same_family {
            players.push(adopter.player_id.clone());
            proof {
                assert(texts_of(players@) =~= texts_of(before).push(adopter.player_id@));
            }
        }
        i = i + 1;
    }
    proof {
        assert(views.take(adopters@.len() as int) == views);
    }
    players
}


/// In a ranking of scouts, more signals rank first; among equal signals,
/// more patches rank first; among equal signals and patches, the better
/// average early placement ranks first, and then the player id that comes
/// first alphabetically.
pub proof fn lemma_scouts_ranked(scouts: Seq<ScoutSummary>, i: int, j: int)
    requires
        crate::sorting::strictly_ordered(scouts, scout_order()),
        0 <= i < scouts.len(),
        0 <= j < scouts.len(),
    ensures
        scouts[i].signals > scouts[j].signals ==> i < j,
        scouts[i].signals == scouts[j].signals && scouts[i].patches > scouts[j].patches ==> i < j,
        scouts[i].signals == scouts[j].signals && scouts[i].patches == scouts[j].patches && scouts[i].placement_total
            * scouts[j].signals < scouts[j].placement_total * scouts[i].signals ==> i < j,
        scouts[i].signals == scouts[j].signals && scouts[i].patches == scouts[j].patches && scouts[i].placement_total
            == scouts[j].placement_total && text_before(scouts[i].player_id@, scouts[j].player_id@) ==> i < j,
{
    crate::text::lemma_text_irreflexive(scouts[i].player_id@);
    if j < i {
        assert(scout_order()(scouts[j], scouts[i]));
        let a = scouts[i];
        let b = scouts[j];
        crate::text::lemma_text_asymmetric(a.player_id@, b.player_id@);
        if a.signals == b.signals && a.signals == 0 {
            assert(a.placement_total * b.signals == 0 && b.placement_total * a.signals == 0) by (nonlinear_arith)
                requires
                    a.signals == 0,
                    b.signals == 0,
            ;
        }
    }
}

} // verus!
