//! Decisions of ladder ingestion and set backfill: which players to follow,
//! which matches to count, and when a history has gone back far enough.
use vstd::prelude::*;

use crate::api::LeagueEntry;
use crate::dataset::STANDARD_RANKED_QUEUE_ID;
use crate::model::{TextOrder, contains_text};
use crate::sorting::{TotalPreorder, sorted_under, stable_rearrangement};
use crate::text::{Precedence, compare_text, text_before, texts_of};

verus! {

broadcast use vstd::seq_lib::group_seq_properties;

/// The number of match ids asked for per page of a backfill.
pub const BACKFILL_PAGE_SIZE: u8 = 100;

/// How many players to follow and how many recent matches of each.
#[derive(Debug, Clone, Copy)]
pub struct IngestionConfig {
    pub player_limit: usize,
    pub matches_per_player: u8,
}

impl Default for IngestionConfig {
    fn default() -> (config: Self)
        ensures
            config.player_limit == 3,
            config.matches_per_player == 5,
    {
        IngestionConfig { player_limit: 3, matches_per_player: 5 }
    }
}

/// The outcome of an ingestion run.
#[derive(Debug)]
pub struct IngestionReport {
    /// Where the ladder snapshot was saved.
    pub ladder_snapshot: String,
    pub players_considered: usize,
    pub unique_matches: usize,
    pub downloaded_matches: usize,
    pub cached_matches: usize,
    pub observations: usize,
}

/// The set to backfill and how many players to follow.
#[derive(Debug, Clone, Copy)]
pub struct BackfillConfig {
    pub set_number: i32,
    pub player_limit: usize,
}

/// The outcome of a backfill run.
#[derive(Debug)]
pub struct BackfillReport {
    /// Where the ladder snapshot was saved.
    pub ladder_snapshot: String,
    pub players_considered: usize,
    pub pages_requested: usize,
    pub unique_matches: usize,
    pub target_set_ranked_matches: usize,
    pub downloaded_matches: usize,
    pub cached_matches: usize,
}

/// A history goes on to its next page unless an earlier set was reached or
/// the page was empty or short.
pub open spec fn continues_history(page_len: usize, reached_previous_set: bool) -> bool {
    !reached_previous_set && page_len >= BACKFILL_PAGE_SIZE as usize
}

/// A standard ranked match of an earlier set ends the backfill of a history.
pub open spec fn previous_standard_set(target_set: i32, match_set: i32, queue_id: i32) -> bool {
    queue_id == STANDARD_RANKED_QUEUE_ID && match_set < target_set
}

pub fn is_previous_standard_set(target_set: i32, match_set: i32, queue_id: i32) -> (r: bool)
    ensures
        r == previous_standard_set(target_set, match_set, queue_id),
{
    queue_id == STANDARD_RANKED_QUEUE_ID && match_set < target_set
}

/// Ladder entries by league points, most first.
pub struct LeaguePointsOrder;

impl TotalPreorder<LeagueEntry> for LeaguePointsOrder {
    open spec fn precedes(&self, a: LeagueEntry, b: LeagueEntry) -> bool {
        a.league_points >= b.league_points
    }

    fn precedes_exec(&self, a: &LeagueEntry, b: &LeagueEntry) -> (r: bool) {
        a.league_points >= b.league_points
    }

    proof fn lemma_total_preorder(&self) {
    }
}

/// Sorts the ladder by league points, most first and stably, and returns
/// the first `limit` entries.
pub fn select_highest_lp_players(entries: &mut Vec<LeagueEntry>, limit: usize) -> (selected: Vec<LeagueEntry>)
    ensures
        sorted_under(LeaguePointsOrder, final(entries)@),
        stable_rearrangement(LeaguePointsOrder, final(entries)@, old(entries)@),
        selected@.len() == if limit < old(entries)@.len() {
            limit as int
        } else {
            old(entries)@.len() as int
        },
        forall|i: int|
            0 <= i < selected@.len() ==> (#[trigger] selected@[i]).puuid@ == final(entries)@[i].puuid@
                && selected@[i].league_points == final(entries)@[i].league_points,
{
    let order = LeaguePointsOrder;
    crate::sorting::stable_sort(entries, &order);
    let count = if limit < entries.len() {
        limit
    } else {
        entries.len()
    };
    let mut selected: Vec<LeagueEntry> = Vec::new();
    let mut i: usize = 0;
    while i < count
        invariant
            0 <= i <= count,
            count <= entries@.len(),
            selected@.len() == i,
            forall|j: int|
                0 <= j < i ==> (#[trigger] selected@[j]).puuid@ == entries@[j].puuid@ && selected@[j].league_points
                    == entries@[j].league_points,
        decreases count - i,
    {
        selected.push(LeagueEntry { puuid: entries[i].puuid.clone(), league_points: entries[i].league_points });
        i = i + 1;
    }
    selected
}

/// After the ladder is sorted by league points, the players selected have at
/// least as many points as any player left out.
pub proof fn lemma_selected_lead(entries: Seq<LeagueEntry>, count: int)
    requires
        sorted_under(LeaguePointsOrder, entries),
        0 <= count <= entries.len(),
    ensures
        forall|i: int, j: int|
            0 <= i < count <= j < entries.len() ==> (#[trigger] entries[i]).league_points >= (#[trigger] entries[j]).league_points,
{
    assert forall|i: int, j: int| 0 <= i < count <= j < entries.len() implies (#[trigger] entries[i]).league_points
        >= (#[trigger] entries[j]).league_points by {
        assert(LeaguePointsOrder.precedes(entries[i], entries[j]));
    }
}

/// Some history holds match id `id`.
pub open spec fn in_histories(histories: Seq<Vec<String>>, id: Seq<char>) -> bool {
    exists|h: int, k: int|
        0 <= h < histories.len() && 0 <= k < histories[h]@.len() && #[trigger] histories[h]@[k]@ == id
}

/// The distinct match ids of the players' histories, in lexicographic order.
pub fn unique_match_ids(histories: &Vec<Vec<String>>) -> (ids: Vec<String>)
    ensures
        forall|i: int, j: int| 0 <= i < j < ids@.len() ==> text_before(#[trigger] ids@[i]@, #[trigger] ids@[j]@),
        forall|id: Seq<char>| texts_of(ids@).contains(id) <==> in_histories(histories@, id),
{
    let mut ids: Vec<String> = Vec::new();
    let mut h: usize = 0;
    while h < histories.len()
        invariant
            0 <= h <= histories@.len(),
            texts_of(ids@).no_duplicates(),
            forall|id: Seq<char>|
                texts_of(ids@).contains(id) <==> exists|g: int, k: int|
                    0 <= g < h && 0 <= k < histories@[g]@.len() && #[trigger] histories@[g]@[k]@ == id,
        decreases histories@.len() - h,
    {
        let history = &histories[h];
        let mut k: usize = 0;
        while k < history.len()
            invariant
                0 <= h < histories@.len(),
                history == histories@[h as int],
                0 <= k <= history@.len(),
                texts_of(ids@).no_duplicates(),
                forall|id: Seq<char>|
                    texts_of(ids@).contains(id) <==> (exists|g: int, q: int|
                        0 <= g < h && 0 <= q < histories@[g]@.len() && #[trigger] histories@[g]@[q]@ == id) || (exists|q: int|
                        0 <= q < k && #[trigger] history@[q]@ == id),
            decreases history@.len() - k,
        {
            let ghost before = texts_of(ids@);
            if !contains_text(&ids, &history[k]) {
                ids.push(history[k].clone());
                proof {
                    assert(texts_of(ids@) =~= before.push(history@[k as int]@));
                }
            }
            proof {
                assert forall|id: Seq<char>|
                    texts_of(ids@).contains(id) <==> (exists|g: int, q: int|
                        0 <= g < h && 0 <= q < histories@[g]@.len() && #[trigger] histories@[g]@[q]@ == id) || (exists|q: int|
                        0 <= q < k + 1 && #[trigger] history@[q]@ == id) by {
                    if texts_of(ids@).contains(id) && !before.contains(id) {
                        assert(history@[k as int]@ == id);
                    }
                    if before.contains(id) {
                        let w = choose|w: int| 0 <= w < before.len() && before[w] == id;
                        assert(texts_of(ids@)[w] == id);
                    }
                    if exists|q: int| 0 <= q < k + 1 && #[trigger] history@[q]@ == id {
                        let q = choose|q: int| 0 <= q < k + 1 && #[trigger] history@[q]@ == id;
                        if q == k && !before.contains(id) {
                            assert(texts_of(ids@)[before.len() as int] == id);
                        }
                        if q < k {
                            assert(before.contains(id));
                        }
                    }
                }
            }
            k = k + 1;
        }
        proof {
            assert forall|id: Seq<char>|
                texts_of(ids@).contains(id) <==> exists|g: int, q: int|
                    0 <= g < h + 1 && 0 <= q < histories@[g]@.len() && #[trigger] histories@[g]@[q]@ == id by {
                if exists|g: int, q: int| 0 <= g < h + 1 && 0 <= q < histories@[g]@.len() && #[trigger] histories@[g]@[q]@ == id {
                    let (g, q) = choose|g: int, q: int|
                        0 <= g < h + 1 && 0 <= q < histories@[g]@.len() && #[trigger] histories@[g]@[q]@ == id;
                    if g == h {
                        assert(history@[q]@ == id);
                    }
                }
            }
        }
        h = h + 1;
    }
    proof {
        assert forall|id: Seq<char>| texts_of(ids@).contains(id) <==> in_histories(histories@, id) by {
            if in_histories(histories@, id) {
                let (g, q) = choose|g: int, q: int|
                    0 <= g < histories@.len() && 0 <= q < histories@[g]@.len() && #[trigger] histories@[g]@[q]@ == id;
                assert(histories@[g]@[q]@ == id);
            }
        }
    }
    let ghost unsorted = ids@;
    let order = TextOrder;
    crate::sorting::stable_sort(&mut ids, &order);
    proof {
        order.lemma_total_preorder();
        assert forall|x: int, y: int| 0 <= x < y < unsorted.len() implies !crate::sorting::equivalent(order, #[trigger] unsorted[x], #[trigger] unsorted[y]) by {
            crate::text::lemma_text_asymmetric(unsorted[x]@, unsorted[y]@);
            assert(texts_of(unsorted)[x] != texts_of(unsorted)[y]);
        }
        crate::sorting::lemma_rearrangement_distinct(order, ids@, unsorted);
        assert forall|x: int, y: int| 0 <= x < y < ids@.len() implies text_before(#[trigger] ids@[x]@, #[trigger] ids@[y]@) by {
            assert(order.precedes(ids@[x], ids@[y]));
            assert(!crate::sorting::equivalent(order, ids@[x], ids@[y]));
        }
        assert forall|id: Seq<char>| texts_of(ids@).contains(id) <==> texts_of(unsorted).contains(id) by {
            if texts_of(ids@).contains(id) {
                let a = choose|a: int| 0 <= a < texts_of(ids@).len() && texts_of(ids@)[a] == id;
                crate::sorting::lemma_rearrangement_contains(order, ids@, unsorted, a);
                let j = choose|j: int| 0 <= j < unsorted.len() && unsorted[j] == ids@[a];
                assert(texts_of(unsorted)[j] == id);
            }
            if texts_of(unsorted).contains(id) {
                let j = choose|j: int| 0 <= j < texts_of(unsorted).len() && texts_of(unsorted)[j] == id;
                crate::sorting::lemma_rearrangement_keeps(order, ids@, unsorted, j);
                let a = choose|a: int| 0 <= a < ids@.len() && ids@[a] == unsorted[j];
                assert(texts_of(ids@)[a] == id);
            }
        }
    }
    ids
}

/// The number of the first `n` loaded matches that were downloaded
/// (`downloaded` true) or read from the cache (false).
pub open spec fn loads_where(loads: Seq<(bool, usize)>, downloaded: bool, n: int) -> nat
    decreases n,
{
    if n <= 0 {
        0
    } else {
        loads_where(loads, downloaded, n - 1) + if loads[n - 1].0 == downloaded {
            1nat
        } else {
            0nat
        }
    }
}

/// The observations of the first `n` loaded matches.
pub open spec fn observations_loaded(loads: Seq<(bool, usize)>, n: int) -> nat
    decreases n,
{
    if n <= 0 {
        0
    } else {
        observations_loaded(loads, n - 1) + loads[n - 1].1 as nat
    }
}

proof fn lemma_loads_bounded(loads: Seq<(bool, usize)>, n: int)
    requires
        0 <= n,
    ensures
        loads_where(loads, true, n) + loads_where(loads, false, n) == n,
    decreases n,
{
    if n > 0 {
        lemma_loads_bounded(loads, n - 1);
    }
}

proof fn lemma_observations_monotone(loads: Seq<(bool, usize)>, m: int, n: int)
    requires
        0 <= m <= n,
    ensures
        observations_loaded(loads, m) <= observations_loaded(loads, n),
    decreases n,
{
    if m < n {
        lemma_observations_monotone(loads, m, n - 1);
    }
}

/// The report of an ingestion whose unique matches were loaded as `loads`:
/// for each match, whether it was downloaded and how many observations it
/// held.
pub fn ingestion_report(ladder_snapshot: String, players_considered: usize, loads: &Vec<(bool, usize)>) -> (report: IngestionReport)
    requires
        observations_loaded(loads@, loads@.len() as int) <= usize::MAX,
    ensures
        report.ladder_snapshot@ == ladder_snapshot@,
        report.players_considered == players_considered,
        report.unique_matches == loads@.len(),
        report.downloaded_matches == loads_where(loads@, true, loads@.len() as int),
        report.cached_matches == loads_where(loads@, false, loads@.len() as int),
        report.observations == observations_loaded(loads@, loads@.len() as int),
{
    let mut downloaded_matches: usize = 0;
    let mut cached_matches: usize = 0;
    let mut observations: usize = 0;
    let mut i: usize = 0;
    while i < loads.len()
        invariant
            0 <= i <= loads@.len(),
            observations_loaded(loads@, loads@.len() as int) <= usize::MAX,
            downloaded_matches == loads_where(loads@, true, i as int),
            cached_matches == loads_where(loads@, false, i as int),
            observations == observations_loaded(loads@, i as int),
        decreases loads@.len() - i,
    {
        proof {
            lemma_loads_bounded(loads@, i as int);
            lemma_observations_monotone(loads@, i + 1, loads@.len() as int);
        }
        if loads[i].0 {
            downloaded_matches = downloaded_matches + 1;
        } else {
            cached_matches = cached_matches + 1;
        }
        observations = observations + loads[i].1;
        i = i + 1;
    }
    IngestionReport {
        ladder_snapshot,
        players_considered,
        unique_matches: loads.len(),
        downloaded_matches,
        cached_matches,
        observations,
    }
}

/// The running state of a backfill: the match ids met so far and the counts.
pub struct BackfillProgress {
    pub seen: Vec<String>,
    pub pages_requested: usize,
    pub target_set_ranked_matches: usize,
    pub downloaded_matches: usize,
    pub cached_matches: usize,
}

impl BackfillProgress {
    /// No match id is met twice, each match met was loaded and counted once,
    /// and only those count toward the target set.
    pub open spec fn well_formed(self) -> bool {
        &&& texts_of(self.seen@).no_duplicates()
        &&& self.downloaded_matches + self.cached_matches == self.seen@.len()
        &&& self.target_set_ranked_matches <= self.downloaded_matches + self.cached_matches
    }

    pub fn new() -> (progress: Self)
        ensures
            progress.well_formed(),
            progress.seen@.len() == 0,
            progress.pages_requested == 0,
            progress.target_set_ranked_matches == 0,
            progress.downloaded_matches == 0,
            progress.cached_matches == 0,
    {
        let progress = BackfillProgress {
            seen: Vec::new(),
            pages_requested: 0,
            target_set_ranked_matches: 0,
            downloaded_matches: 0,
            cached_matches: 0,
        };
        assert(texts_of(progress.seen@) =~= Seq::<Seq<char>>::empty());
        progress
    }

    /// Counts a requested page of match ids.
    pub fn page_requested(&mut self)
        requires
            old(self).pages_requested < usize::MAX,
        ensures
            final(self).pages_requested == old(self).pages_requested + 1,
            final(self).seen@ == old(self).seen@,
            final(self).target_set_ranked_matches == old(self).target_set_ranked_matches,
            final(self).downloaded_matches == old(self).downloaded_matches,
            final(self).cached_matches == old(self).cached_matches,
    {
        self.pages_requested = self.pages_requested + 1;
    }

    /// Whether the run meets `match_id` for the first time.
    pub fn is_new_match(&self, match_id: &String) -> (is_new: bool)
        ensures
            is_new == !texts_of(self.seen@).contains(match_id@),
    {
        !contains_text(&self.seen, match_id)
    }

    /// Counts a match id that a page listed, once its match was loaded
    /// (`downloaded`, or read from the cache): a match met for the first time
    /// is noted and counted once. Returns whether the match is a standard
    /// ranked match of an earlier set, which ends the backfill of this
    /// history.
    pub fn record_match(
        &mut self,
        match_id: &String,
        downloaded: bool,
        set_number: i32,
        queue_id: i32,
        target_set: i32,
    ) -> (ends: bool)
        requires
            old(self).well_formed(),
            old(self).seen@.len() < usize::MAX,
        ensures
            final(self).well_formed(),
            ends == previous_standard_set(target_set, set_number, queue_id),
            texts_of(final(self).seen@) == if !texts_of(old(self).seen@).contains(match_id@) {
                texts_of(old(self).seen@).push(match_id@)
            } else {
                texts_of(old(self).seen@)
            },
            final(self).downloaded_matches == old(self).downloaded_matches + if !texts_of(old(self).seen@).contains(
                match_id@,
            ) && downloaded {
                1int
            } else {
                0int
            },
            final(self).cached_matches == old(self).cached_matches + if !texts_of(old(self).seen@).contains(
                match_id@,
            ) && !downloaded {
                1int
            } else {
                0int
            },
            final(self).target_set_ranked_matches == old(self).target_set_ranked_matches + if !texts_of(
                old(self).seen@,
            ).contains(match_id@) && set_number == target_set && queue_id == STANDARD_RANKED_QUEUE_ID {
                1int
            } else {
                0int
            },
            final(self).pages_requested == old(self).pages_requested,
    {
        let ghost before = texts_of(self.seen@);
        if !contains_text(&self.seen, match_id) {
            self.seen.push(match_id.clone());
            proof {
                assert(texts_of(self.seen@) =~= before.push(match_id@));
                assert forall|a: int, b: int| 0 <= a < b < texts_of(self.seen@).len() implies texts_of(self.seen@)[a] != texts_of(self.seen@)[b] by {
                    if b == before.len() {
                        assert(before.contains(before[a]));
                    }
                }
            }
            if downloaded {
                self.downloaded_matches = self.downloaded_matches + 1;
            } else {
                self.cached_matches = self.cached_matches + 1;
            }
            if set_number == target_set && queue_id == STANDARD_RANKED_QUEUE_ID {
                self.target_set_ranked_matches = self.target_set_ranked_matches + 1;
            }
        }
        is_previous_standard_set(target_set, set_number, queue_id)
    }

    /// Whether to ask for the next page of a history, after a page of
    /// `page_len` match ids: not once an earlier set was reached, nor after
    /// an empty or short page.
    pub fn continue_history(page_len: usize, reached_previous_set: bool) -> (next: bool)
        ensures
            next == continues_history(page_len, reached_previous_set),
    {
        !reached_previous_set && page_len >= BACKFILL_PAGE_SIZE as usize
    }

    /// Where the next page of a history starts, after a page of `page_len`
    /// match ids that started at `start`; `None` when the history is done.
    pub fn next_start(start: u32, page_len: usize, reached_previous_set: bool) -> (next: Option<u32>)
        requires
            continues_history(page_len, reached_previous_set) ==> start + page_len <= u32::MAX,
        ensures
            next == if continues_history(page_len, reached_previous_set) {
                Some((start + page_len) as u32)
            } else {
                None
            },
    {
        if Self::continue_history(page_len, reached_previous_set) {
            Some(start + page_len as u32)
        } else {
            None
        }
    }

    /// The report of the finished backfill.
    pub fn report(self, ladder_snapshot: String, players_considered: usize) -> (report: BackfillReport)
        requires
            self.well_formed(),
        ensures
            report.unique_matches == report.downloaded_matches + report.cached_matches,
            report.ladder_snapshot@ == ladder_snapshot@,
            report.players_considered == players_considered,
            report.pages_requested == self.pages_requested,
            report.unique_matches == self.seen@.len(),
            report.target_set_ranked_matches == self.target_set_ranked_matches,
            report.downloaded_matches == self.downloaded_matches,
            report.cached_matches == self.cached_matches,
    {
        BackfillReport {
            ladder_snapshot,
            players_considered,
            pages_requested: self.pages_requested,
            unique_matches: self.seen.len(),
            target_set_ranked_matches: self.target_set_ranked_matches,
            downloaded_matches: self.downloaded_matches,
            cached_matches: self.cached_matches,
        }
    }
}

} // verus!
