//! The standard ranked matches of one set.
use vstd::prelude::*;

use crate::api::{Participant, TftMatch, observes_participant, patch_of};
use crate::model::MatchObservation;

verus! {

/// The queue of standard ranked games.
pub const STANDARD_RANKED_QUEUE_ID: i32 = 1100;

/// Observations of the standard ranked matches of one set.
pub struct StandardRankedDataset {
    pub matches: usize,
    pub excluded_matches: usize,
    pub observations: Vec<MatchObservation>,
}

/// The match is a standard ranked match of the set.
pub open spec fn is_kept(m: TftMatch, set_number: i32) -> bool {
    m.queue_id == STANDARD_RANKED_QUEUE_ID && m.set_number == set_number
}

/// A participant together with the patch and time of its match.
pub open spec fn placed_participants(m: TftMatch) -> Seq<(Participant, Seq<char>, u64)> {
    m.participants@.map_values(|p: Participant| (p, patch_of(m.game_version@), m.game_datetime))
}

/// The participants of the kept matches, match by match.
pub open spec fn kept_participants(ms: Seq<TftMatch>, set_number: i32) -> Seq<(Participant, Seq<char>, u64)>
    decreases ms.len(),
{
    if ms.len() == 0 {
        Seq::empty()
    } else {
        kept_participants(ms.drop_last(), set_number) + if is_kept(ms.last(), set_number) {
            placed_participants(ms.last())
        } else {
            Seq::empty()
        }
    }
}

/// The number of kept matches.
pub open spec fn kept_count(ms: Seq<TftMatch>, set_number: i32) -> nat
    decreases ms.len(),
{
    if ms.len() == 0 {
        0
    } else {
        kept_count(ms.drop_last(), set_number) + if is_kept(ms.last(), set_number) {
            1nat
        } else {
            0nat
        }
    }
}

proof fn lemma_kept_count_bounded(ms: Seq<TftMatch>, set_number: i32)
    ensures
        kept_count(ms, set_number) <= ms.len(),
    decreases ms.len(),
{
    if ms.len() > 0 {
        lemma_kept_count_bounded(ms.drop_last(), set_number);
    }
}

/// Keeps the standard ranked matches of `set_number` and turns them into
/// observations; other matches are counted as excluded.
pub fn load_standard_ranked_dataset(cached_matches: Vec<TftMatch>, set_number: i32) -> (dataset: StandardRankedDataset)
    ensures
        dataset.matches == kept_count(cached_matches@, set_number),
        dataset.matches + dataset.excluded_matches == cached_matches@.len(),
        dataset.observations@.len() == kept_participants(cached_matches@, set_number).len(),
        forall|k: int|
            0 <= k < dataset.observations@.len() ==> {
                let kp = kept_participants(cached_matches@, set_number)[k];
                observes_participant(#[trigger] dataset.observations@[k], kp.0, kp.1, kp.2)
            },
{
    let ghost ms = cached_matches@;
    let mut dataset = StandardRankedDataset { matches: 0, excluded_matches: 0, observations: Vec::new() };
    let mut i: usize = 0;
    while i < cached_matches.len()
        invariant
            ms == cached_matches@,
            0 <= i <= ms.len(),
            dataset.matches == kept_count(ms.take(i as int), set_number),
            dataset.matches + dataset.excluded_matches == i,
            dataset.observations@.len() == kept_participants(ms.take(i as int), set_number).len(),
            forall|k: int|
                0 <= k < dataset.observations@.len() ==> {
                    let kp = kept_participants(ms.take(i as int), set_number)[k];
                    observes_participant(#[trigger] dataset.observations@[k], kp.0, kp.1, kp.2)
                },
        decreases ms.len() - i,
    {
        let riot_match = &cached_matches[i];
        assert(ms.take(i + 1).drop_last() =~= ms.take(i as int));
        assert(ms.take(i + 1).last() == ms[i as int]);
        assert(kept_count(ms.take(i + 1), set_number) == kept_count(ms.take(i as int), set_number) + if is_kept(ms[i as int], set_number) { 1nat } else { 0nat });
        assert(kept_count(ms.take(i as int), set_number) <= i) by {
            lemma_kept_count_bounded(ms.take(i as int), set_number);
        }
        if riot_match.queue_id != STANDARD_RANKED_QUEUE_ID || riot_match.set_number != set_number {
            dataset.excluded_matches = dataset.excluded_matches + 1;
            assert(kept_participants(ms.take(i + 1), set_number) =~= kept_participants(ms.take(i as int), set_number));
        } else {
            dataset.matches = dataset.matches + 1;
            let observations = riot_match.observations();
            let ghost before = dataset.observations@;
            let ghost prior = kept_participants(ms.take(i as int), set_number);
            let ghost added = placed_participants(ms[i as int]);
            let ghost counted = dataset.matches;
            let ghost excluded = dataset.excluded_matches;
            assert(kept_participants(ms.take(i + 1), set_number) == prior + added);
            let mut j: usize = 0;
            while j < observations.len()
                invariant
                    0 <= j <= observations@.len(),
                    observations@.len() == riot_match.participants@.len(),
                    added == placed_participants(*riot_match),
                    dataset.matches == counted,
                    dataset.excluded_matches == excluded,
                    forall|k: int|
                        0 <= k < observations@.len() ==> observes_participant(
                            #[trigger] observations@[k],
                            riot_match.participants@[k],
                            patch_of(riot_match.game_version@),
                            riot_match.game_datetime,
                        ),
                    before.len() == prior.len(),
                    dataset.observations@.len() == before.len() + j,
                    forall|k: int| 0 <= k < before.len() ==> #[trigger] dataset.observations@[k] == before[k],
                    forall|k: int|
                        0 <= k < before.len() ==> {
                            let kp = prior[k];
                            observes_participant(#[trigger] before[k], kp.0, kp.1, kp.2)
                        },
                    forall|k: int|
                        before.len() <= k < dataset.observations@.len() ==> {
                            let kp = (prior + added)[k];
                            observes_participant(#[trigger] dataset.observations@[k], kp.0, kp.1, kp.2)
                        },
                decreases observations@.len() - j,
            {
                dataset.observations.push(observations[j].clone_observation());
                j = j + 1;
            }
            proof {
                assert forall|k: int| 0 <= k < dataset.observations@.len() implies {
                    let kp = kept_participants(ms.take(i + 1), set_number)[k];
                    observes_participant(#[trigger] dataset.observations@[k], kp.0, kp.1, kp.2)
                } by {
                    if k < before.len() {
                        assert((prior + added)[k] == prior[k]);
                    }
                }
            }
        }
        i = i + 1;
    }
    assert(ms.take(ms.len() as int) =~= ms);
    dataset
}

} // verus!
