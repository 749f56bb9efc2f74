//! A summary of the cached matches: how many there are, of which queues, sets
//! and patches, and which boards they hold.
use std::collections::BTreeMap;

use vstd::prelude::*;

use crate::api::{Participant, TftMatch, Unit};
use crate::dataset::placed_participants;
use crate::model::{Composition, MatchObservation, UnitObservation, identity, is_identity_of};
use crate::sorting::TotalPreorder;
use crate::text::{Precedence, compare_text, text_before, texts_before};

verus! {

broadcast use vstd::seq_lib::group_seq_properties;

/// A participant together with the patch and time of its match.
pub type Placed = (Participant, Seq<char>, u64);

/// The participants of all matches, match by match.
pub open spec fn all_participants(ms: Seq<TftMatch>) -> Seq<Placed>
    decreases ms.len(),
{
    if ms.len() == 0 {
        Seq::empty()
    } else {
        all_participants(ms.drop_last()) + placed_participants(ms.last())
    }
}

/// The number of final-board units over the participants.
pub open spec fn unit_total(ps: Seq<Placed>) -> nat
    decreases ps.len(),
{
    if ps.len() == 0 {
        0
    } else {
        unit_total(ps.drop_last()) + ps.last().0.units@.len()
    }
}

/// The number of participants with an empty final board.
pub open spec fn without_units(ps: Seq<Placed>) -> nat
    decreases ps.len(),
{
    if ps.len() == 0 {
        0
    } else {
        without_units(ps.drop_last()) + if ps.last().0.units@.len() == 0 {
            1nat
        } else {
            0nat
        }
    }
}

/// The number of participants without augments.
pub open spec fn without_augments(ps: Seq<Placed>) -> nat
    decreases ps.len(),
{
    if ps.len() == 0 {
        0
    } else {
        without_augments(ps.drop_last()) + if ps.last().0.augments@.len() == 0 {
            1nat
        } else {
            0nat
        }
    }
}

/// The number of participants in matches of patch `p`.
pub open spec fn patch_plays(ps: Seq<Placed>, p: Seq<char>) -> nat
    decreases ps.len(),
{
    if ps.len() == 0 {
        0
    } else {
        patch_plays(ps.drop_last(), p) + if ps.last().1 == p {
            1nat
        } else {
            0nat
        }
    }
}

/// The number of matches of queue `q`.
pub open spec fn queue_matches(ms: Seq<TftMatch>, q: i32) -> nat
    decreases ms.len(),
{
    if ms.len() == 0 {
        0
    } else {
        queue_matches(ms.drop_last(), q) + if ms.last().queue_id == q {
            1nat
        } else {
            0nat
        }
    }
}

/// The number of matches of game type `t`.
pub open spec fn type_matches(ms: Seq<TftMatch>, t: Seq<char>) -> nat
    decreases ms.len(),
{
    if ms.len() == 0 {
        0
    } else {
        type_matches(ms.drop_last(), t) + if ms.last().game_type@ == t {
            1nat
        } else {
            0nat
        }
    }
}

/// The number of matches of set `s`.
pub open spec fn set_matches(ms: Seq<TftMatch>, s: i32) -> nat
    decreases ms.len(),
{
    if ms.len() == 0 {
        0
    } else {
        set_matches(ms.drop_last(), s) + if ms.last().set_number == s {
            1nat
        } else {
            0nat
        }
    }
}

/// `t` is the earliest match time of the participants.
pub open spec fn is_earliest(ps: Seq<Placed>, t: u64) -> bool {
    &&& exists|k: int| 0 <= k < ps.len() && #[trigger] ps[k].2 == t
    &&& forall|k: int| 0 <= k < ps.len() ==> t <= (#[trigger] ps[k]).2
}

/// `t` is the latest match time of the participants.
pub open spec fn is_latest(ps: Seq<Placed>, t: u64) -> bool {
    &&& exists|k: int| 0 <= k < ps.len() && #[trigger] ps[k].2 == t
    &&& forall|k: int| 0 <= k < ps.len() ==> (#[trigger] ps[k]).2 <= t
}

/// The players among the participants.
pub open spec fn players_of(ps: Seq<Placed>) -> Set<Seq<char>> {
    ps.map_values(|x: Placed| x.0.puuid@).to_set()
}

/// A Riot unit as the observation model records it.
pub open spec fn unit_as_observed(u: Unit) -> UnitObservation {
    UnitObservation { champion: u.character_id, star_level: u.tier, items: u.item_names }
}

/// The composition identity of a participant's final board.
pub open spec fn board_identity(p: Participant) -> Seq<Seq<char>> {
    identity(p.units@.map_values(|u: Unit| unit_as_observed(u)))
}

/// The distinct boards among the participants.
pub open spec fn boards_of(ps: Seq<Placed>) -> Set<Seq<Seq<char>>> {
    ps.map_values(|x: Placed| board_identity(x.0)).to_set()
}

/// The number of participants whose board has identity `c`.
pub open spec fn board_plays(ps: Seq<Placed>, c: Seq<Seq<char>>) -> nat
    decreases ps.len(),
{
    if ps.len() == 0 {
        0
    } else {
        board_plays(ps.drop_last(), c) + if board_identity(ps.last().0) == c {
            1nat
        } else {
            0nat
        }
    }
}

pub open spec fn lists_text(v: Seq<(String, usize)>, key: Seq<char>) -> bool {
    exists|i: int| 0 <= i < v.len() && #[trigger] v[i].0@ == key
}

/// `v` tallies `count` by text: keys in increasing order, each with its
/// positive count, and every key with a positive count listed.
pub open spec fn counts_texts(v: Seq<(String, usize)>, count: spec_fn(Seq<char>) -> nat) -> bool {
    &&& forall|i: int, j: int| 0 <= i < j < v.len() ==> text_before(#[trigger] v[i].0@, #[trigger] v[j].0@)
    &&& forall|i: int| 0 <= i < v.len() ==> (#[trigger] v[i]).1 == count(v[i].0@) && v[i].1 > 0
    &&& forall|key: Seq<char>|
        #![trigger count(key)]
        #![trigger lists_text(v, key)]
        count(key) > 0 <==> lists_text(v, key)
}

/// `m` maps each number with a positive count to that count, and holds no
/// other number.
pub open spec fn counts_map(m: Map<i32, usize>, count: spec_fn(i32) -> nat) -> bool {
    forall|key: i32|
        #![trigger count(key)]
        #![trigger m.contains_key(key)]
        (m.contains_key(key) <==> count(key) > 0) && (m.contains_key(key) ==> m[key] == count(key))
}

/// Counts one more occurrence of `key`.
#[verifier::spinoff_prover]
fn add_text(
    v: &mut Vec<(String, usize)>,
    key: &String,
    Ghost(before): Ghost<spec_fn(Seq<char>) -> nat>,
    Ghost(after): Ghost<spec_fn(Seq<char>) -> nat>,
)
    requires
        counts_texts(old(v)@, before),
        forall|k: Seq<char>| #[trigger] after(k) == before(k) + if k == key@ { 1nat } else { 0nat },
        before(key@) < usize::MAX,
    ensures
        counts_texts(final(v)@, after),
{
    let ghost old_v = v@;
    let mut i: usize = 0;
    while i < v.len()
        invariant
            0 <= i <= v@.len(),
            v@ == old_v,
            forall|j: int| 0 <= j < i ==> text_before((#[trigger] v@[j]).0@, key@),
        ensures
            0 <= i <= v@.len(),
            v@ == old_v,
            forall|j: int| 0 <= j < i ==> text_before((#[trigger] v@[j]).0@, key@),
            i == v@.len() || !text_before(v@[i as int].0@, key@),
        decreases v@.len() - i,
    {
        match compare_text(v[i].0.as_str(), key.as_str()) {
            Precedence::Before => {},
            _ => break,
        }
        i = i + 1;
    }
    if i < v.len() && match compare_text(v[i].0.as_str(), key.as_str()) {
        Precedence::Same => true,
        _ => false,
    } {
        let count = v[i].1;
        let name = v[i].0.clone();
        v.set(i, (name, count + 1));
        proof {
            assert forall|j: int| 0 <= j < v@.len() implies (#[trigger] v@[j]).1 == after(v@[j].0@) && v@[j].1 > 0 by {
                if j != i {
                    assert(v@[j] == old_v[j]);
                    if v@[j].0@ == key@ {
                        if j < i {
                            crate::text::lemma_text_irreflexive(key@);
                        } else {
                            assert(text_before(old_v[i as int].0@, old_v[j].0@));
                            crate::text::lemma_text_irreflexive(key@);
                        }
                    }
                }
            }
            assert forall|k: Seq<char>|
                #![trigger after(k)]
                #![trigger lists_text(v@, k)]
                after(k) > 0 <==> lists_text(v@, k) by {
                if lists_text(v@, k) {
                    let j = choose|j: int| 0 <= j < v@.len() && #[trigger] v@[j].0@ == k;
                    assert(old_v[j].0@ == k);
                    assert(lists_text(old_v, k));
                }
                if after(k) > 0 && k != key@ {
                    assert(lists_text(old_v, k));
                    let j = choose|j: int| 0 <= j < old_v.len() && #[trigger] old_v[j].0@ == k;
                    assert(v@[j].0@ == k);
                }
                if k == key@ {
                    assert(v@[i as int].0@ == k);
                }
            }
        }
    } else {
        proof {
            assert forall|j: int| i <= j < old_v.len() implies text_before(key@, (#[trigger] old_v[j]).0@) by {
                crate::text::lemma_text_total(key@, old_v[i as int].0@);
                if j > i {
                    crate::text::lemma_text_transitive(key@, old_v[i as int].0@, old_v[j].0@);
                }
            }
            assert(!lists_text(old_v, key@)) by {
                if lists_text(old_v, key@) {
                    let j = choose|j: int| 0 <= j < old_v.len() && #[trigger] old_v[j].0@ == key@;
                    crate::text::lemma_text_irreflexive(key@);
                }
            }
        }
        v.insert(i, (key.clone(), 1));
        proof {
            assert forall|a: int, b: int| 0 <= a < b < v@.len() implies text_before(#[trigger] v@[a].0@, #[trigger] v@[b].0@) by {
                if b < i {
                } else if a < i && b == i {
                } else if a < i {
                    assert(v@[b] == old_v[b - 1]);
                    crate::text::lemma_text_transitive(v@[a].0@, key@, v@[b].0@);
                } else if a == i {
                    assert(v@[b] == old_v[b - 1]);
                } else {
                    assert(v@[a] == old_v[a - 1]);
                    assert(v@[b] == old_v[b - 1]);
                }
            }
            assert forall|j: int| 0 <= j < v@.len() implies (#[trigger] v@[j]).1 == after(v@[j].0@) && v@[j].1 > 0 by {
                if j < i {
                    assert(v@[j] == old_v[j]);
                    if v@[j].0@ == key@ {
                        crate::text::lemma_text_irreflexive(key@);
                    }
                } else if j > i {
                    assert(v@[j] == old_v[j - 1]);
                    if v@[j].0@ == key@ {
                        crate::text::lemma_text_irreflexive(key@);
                    }
                }
            }
            assert forall|k: Seq<char>|
                #![trigger after(k)]
                #![trigger lists_text(v@, k)]
                after(k) > 0 <==> lists_text(v@, k) by {
                if lists_text(v@, k) {
                    let j = choose|j: int| 0 <= j < v@.len() && #[trigger] v@[j].0@ == k;
                    if j < i {
                        assert(old_v[j].0@ == k);
                        assert(lists_text(old_v, k));
                    } else if j > i {
                        assert(old_v[j - 1].0@ == k);
                        assert(lists_text(old_v, k));
                    }
                }
                if after(k) > 0 && k != key@ {
                    assert(lists_text(old_v, k));
                    let j = choose|j: int| 0 <= j < old_v.len() && #[trigger] old_v[j].0@ == k;
                    if j < i {
                        assert(v@[j].0@ == k);
                    } else {
                        assert(v@[j + 1].0@ == k);
                    }
                }
                if k == key@ {
                    assert(v@[i as int].0@ == k);
                }
            }
        }
    }
}

/// Counts one more occurrence of `key`.
fn add_number(
    m: &mut BTreeMap<i32, usize>,
    key: i32,
    Ghost(before): Ghost<spec_fn(i32) -> nat>,
    Ghost(after): Ghost<spec_fn(i32) -> nat>,
)
    requires
        counts_map(old(m)@, before),
        forall|k: i32| #[trigger] after(k) == before(k) + if k == key { 1nat } else { 0nat },
        before(key) < usize::MAX,
    ensures
        counts_map(final(m)@, after),
{
    broadcast use vstd::laws_cmp::group_laws_cmp, vstd::std_specs::btree::group_btree_axioms;
    let current: usize = match m.get(&key) {
        Some(count) => *count,
        None => 0,
    };
    m.insert(key, current + 1);
    assert forall|k: i32|
        #![trigger after(k)]
        #![trigger m@.contains_key(k)]
        (m@.contains_key(k) <==> after(k) > 0) && (m@.contains_key(k) ==> m@[k] == after(k)) by {
        if k != key {
            assert(before(k) == after(k));
        }
    }
}

/// The board counts list board `c`.
pub open spec fn lists_board(tally: Seq<(Seq<Seq<char>>, usize)>, c: Seq<Seq<char>>) -> bool {
    exists|i: int| 0 <= i < tally.len() && #[trigger] tally[i].0 == c
}

/// No board is listed twice.
pub open spec fn distinct_boards(tally: Seq<(Seq<Seq<char>>, usize)>) -> bool {
    forall|i: int, j: int| 0 <= i < j < tally.len() ==> #[trigger] tally[i].0 != #[trigger] tally[j].0
}

/// `a` ranks ahead of `b`: more observations, then alphabetically first.
pub open spec fn ranks_ahead(a: (Seq<Seq<char>>, usize), b: (Seq<Seq<char>>, usize)) -> bool {
    a.1 > b.1 || (a.1 == b.1 && texts_before(a.0, b.0))
}

/// Counts over the cached matches.
#[derive(Debug, PartialEq)]
pub struct DatasetAudit {
    pub matches: usize,
    pub observations: usize,
    pub unique_players: usize,
    pub unique_compositions: usize,
    pub total_units: usize,
    pub observations_without_units: usize,
    pub observations_without_augments: usize,
    pub earliest_timestamp: Option<u64>,
    pub latest_timestamp: Option<u64>,
    /// Observations per patch, by patch.
    pub observations_by_patch: Vec<(String, usize)>,
    /// Matches per queue.
    pub matches_by_queue: BTreeMap<i32, usize>,
    /// Matches per game type, by game type.
    pub matches_by_game_type: Vec<(String, usize)>,
    /// Matches per set.
    pub matches_by_set: BTreeMap<i32, usize>,
    /// Observations per exact composition.
    pub composition_counts: Vec<(Composition, usize)>,
}

impl DatasetAudit {
    /// The observations per exact composition.
    pub open spec fn composition_tally(self) -> Seq<(Seq<Seq<char>>, usize)> {
        board_tally(self.composition_counts@)
    }

    pub open spec fn well_formed(self) -> bool {
        distinct_boards(self.composition_tally())
    }

}

fn find_composition(counts: &Vec<(Composition, usize)>, composition: &Composition) -> (r: Option<usize>)
    ensures
        r matches Some(i) ==> i < counts@.len() && counts@[i as int].0@ == composition@,
        r is None ==> !lists_board(board_tally(counts@), composition@),
{
    let ghost t = board_tally(counts@);
    let mut i: usize = 0;
    while i < counts.len()
        invariant
            0 <= i <= counts@.len(),
            t == board_tally(counts@),
            forall|j: int| 0 <= j < i ==> (#[trigger] counts@[j]).0@ != composition@,
        decreases counts@.len() - i,
    {
        if let Precedence::Same = counts[i].0.compare(composition) {
            return Some(i);
        }
        i = i + 1;
    }
    proof {
        if lists_board(t, composition@) {
            let j = choose|j: int| 0 <= j < t.len() && #[trigger] t[j].0 == composition@;
            assert(counts@[j].0@ == composition@);
        }
    }
    None
}

proof fn lemma_ranks(a: (Seq<Seq<char>>, usize), b: (Seq<Seq<char>>, usize), c: (Seq<Seq<char>>, usize))
    ensures
        !ranks_ahead(a, a),
        ranks_ahead(a, b) ==> !ranks_ahead(b, a),
        ranks_ahead(a, b) && ranks_ahead(b, c) ==> ranks_ahead(a, c),
        !ranks_ahead(a, b) && !ranks_ahead(b, a) ==> a == b,
{
    crate::text::lemma_texts_irreflexive(a.0);
    crate::text::lemma_texts_asymmetric(a.0, b.0);
    crate::text::lemma_texts_transitive(a.0, b.0, c.0);
    crate::text::lemma_texts_total(a.0, b.0);
}

/// The ranking order of composition counts: most observations first, then
/// alphabetically.
pub struct CountOrder;

impl<'c> TotalPreorder<(&'c Composition, usize)> for CountOrder {
    open spec fn precedes(&self, a: (&'c Composition, usize), b: (&'c Composition, usize)) -> bool {
        !ranks_ahead((b.0@, b.1), (a.0@, a.1))
    }

    fn precedes_exec(&self, a: &(&'c Composition, usize), b: &(&'c Composition, usize)) -> (r: bool) {
        if b.1 != a.1 {
            return b.1 < a.1;
        }
        match b.0.compare(a.0) {
            Precedence::Before => false,
            _ => true,
        }
    }

    proof fn lemma_total_preorder(&self) {
        assert forall|a: (&'c Composition, usize), b: (&'c Composition, usize)|
            #[trigger] self.precedes(a, b) || self.precedes(b, a) by {
            lemma_ranks((a.0@, a.1), (b.0@, b.1), (b.0@, b.1));
        }
        assert forall|a: (&'c Composition, usize), b: (&'c Composition, usize), c: (&'c Composition, usize)|
            #[trigger] self.precedes(a, b) && #[trigger] self.precedes(b, c) implies self.precedes(a, c) by {
            let (x, y, z) = ((a.0@, a.1), (b.0@, b.1), (c.0@, c.1));
            lemma_ranks(z, x, y);
            lemma_ranks(x, y, z);
            lemma_ranks(y, x, z);
        }
    }
}

impl DatasetAudit {
    /// The five most observed exact compositions, most observed first and
    /// alphabetically among equals.
    pub fn most_common_compositions(&self) -> (r: Vec<(&Composition, usize)>)
        requires
            self.well_formed(),
        ensures
            r@.len() == if self.composition_tally().len() < 5 {
                self.composition_tally().len()
            } else {
                5
            },
            forall|i: int, j: int|
                0 <= i < j < r@.len() ==> ranks_ahead((r@[i].0@, r@[i].1), (r@[j].0@, r@[j].1)),
            forall|i: int| 0 <= i < r@.len() ==> self.composition_tally().contains((r@[i].0@, r@[i].1)),
            forall|q: int|
                0 <= q < self.composition_tally().len() && !(exists|i: int|
                    0 <= i < r@.len() && (r@[i].0@, r@[i].1) == #[trigger] self.composition_tally()[q]) ==> forall|i: int|
                    0 <= i < r@.len() ==> ranks_ahead((r@[i].0@, r@[i].1), self.composition_tally()[q]),
    {
        let ghost t = self.composition_tally();
        let mut counts: Vec<(&Composition, usize)> = Vec::new();
        let mut i: usize = 0;
        while i < self.composition_counts.len()
            invariant
                0 <= i <= t.len(),
                t == self.composition_tally(),
                counts@.len() == i,
                forall|j: int| 0 <= j < i ==> ((#[trigger] counts@[j]).0@, counts@[j].1) == t[j],
            decreases t.len() - i,
        {
            assert(t[i as int] == (self.composition_counts@[i as int].0@, self.composition_counts@[i as int].1));
            counts.push((&self.composition_counts[i].0, self.composition_counts[i].1));
            i = i + 1;
        }
        let ghost unsorted = counts@;
        let order = CountOrder;
        crate::sorting::stable_sort(&mut counts, &order);
        let ghost sorted = counts@;
        proof {
            order.lemma_total_preorder();
            assert forall|x: int, y: int| 0 <= x < y < unsorted.len() implies !crate::sorting::equivalent(order, #[trigger] unsorted[x], #[trigger] unsorted[y]) by {
                lemma_ranks((unsorted[x].0@, unsorted[x].1), (unsorted[y].0@, unsorted[y].1), (unsorted[y].0@, unsorted[y].1));
                assert(unsorted[x].0@ == t[x].0);
                assert(unsorted[y].0@ == t[y].0);
            }
            crate::sorting::lemma_rearrangement_distinct(order, sorted, unsorted);
        }
        counts.truncate(5);
        proof {
            assert forall|a: int, b: int| 0 <= a < b < counts@.len() implies ranks_ahead((counts@[a].0@, counts@[a].1), (counts@[b].0@, counts@[b].1)) by {
                assert(order.precedes(sorted[a], sorted[b]));
                assert(!crate::sorting::equivalent(order, sorted[a], sorted[b]));
            }
            assert forall|a: int| 0 <= a < counts@.len() implies t.contains((counts@[a].0@, counts@[a].1)) by {
                crate::sorting::lemma_rearrangement_contains(order, sorted, unsorted, a);
                let j = choose|j: int| 0 <= j < unsorted.len() && unsorted[j] == sorted[a];
                assert((unsorted[j].0@, unsorted[j].1) == t[j]);
                assert(t[j] == (counts@[a].0@, counts@[a].1));
            }
            assert forall|q: int|
                0 <= q < t.len() && !(exists|a: int|
                    0 <= a < counts@.len() && (counts@[a].0@, counts@[a].1) == #[trigger] t[q]) implies forall|a: int|
                    0 <= a < counts@.len() ==> ranks_ahead((counts@[a].0@, counts@[a].1), t[q]) by {
                crate::sorting::lemma_rearrangement_keeps(order, sorted, unsorted, q);
                let m = choose|m: int| 0 <= m < sorted.len() && sorted[m] == unsorted[q];
                assert((unsorted[q].0@, unsorted[q].1) == t[q]);
                assert((sorted[m].0@, sorted[m].1) == t[q]);
                if m < counts@.len() {
                    assert(counts@[m] == sorted[m]);
                }
                assert forall|a: int| 0 <= a < counts@.len() implies ranks_ahead((counts@[a].0@, counts@[a].1), t[q]) by {
                    assert(counts@[a] == sorted[a]);
                    assert(order.precedes(sorted[a], sorted[m]));
                    assert(!crate::sorting::equivalent(order, sorted[a], sorted[m]));
                }
            }
        }
        counts
    }
}

proof fn lemma_counts_bounded(ps: Seq<Placed>, p: Seq<char>, c: Seq<Seq<char>>)
    ensures
        patch_plays(ps, p) <= ps.len(),
        board_plays(ps, c) <= ps.len(),
        without_units(ps) <= ps.len(),
        without_augments(ps) <= ps.len(),
    decreases ps.len(),
{
    if ps.len() > 0 {
        lemma_counts_bounded(ps.drop_last(), p, c);
    }
}

proof fn lemma_match_counts_bounded(ms: Seq<TftMatch>, q: i32, t: Seq<char>, s: i32)
    ensures
        queue_matches(ms, q) <= ms.len(),
        type_matches(ms, t) <= ms.len(),
        set_matches(ms, s) <= ms.len(),
    decreases ms.len(),
{
    if ms.len() > 0 {
        lemma_match_counts_bounded(ms.drop_last(), q, t, s);
    }
}

proof fn lemma_board_witness(ps: Seq<Placed>, c: Seq<Seq<char>>) -> (k: int)
    requires
        board_plays(ps, c) > 0,
    ensures
        0 <= k < ps.len(),
        board_identity(ps[k].0) == c,
    decreases ps.len(),
{
    if board_identity(ps.last().0) == c {
        ps.len() - 1
    } else {
        lemma_board_witness(ps.drop_last(), c)
    }
}

proof fn lemma_unit_total_prefix(a: Seq<Placed>, b: Seq<Placed>)
    requires
        a.is_prefix_of(b),
    ensures
        unit_total(a) <= unit_total(b),
    decreases b.len(),
{
    if a.len() == b.len() {
        assert(a =~= b);
    } else {
        assert(a.is_prefix_of(b.drop_last()));
        lemma_unit_total_prefix(a, b.drop_last());
    }
}

proof fn lemma_participants_prefix(ms: Seq<TftMatch>, i: int)
    requires
        0 <= i <= ms.len(),
    ensures
        all_participants(ms.take(i)).is_prefix_of(all_participants(ms)),
    decreases ms.len(),
{
    if i == ms.len() {
        assert(ms.take(i) =~= ms);
    } else {
        assert(ms.drop_last().take(i) =~= ms.take(i));
        lemma_participants_prefix(ms.drop_last(), i);
    }
}

proof fn lemma_participants_step(ms: Seq<TftMatch>, i: int)
    requires
        0 <= i < ms.len(),
    ensures
        all_participants(ms.take(i + 1)) == all_participants(ms.take(i)) + placed_participants(ms[i]),
{
    assert(ms.take(i + 1).drop_last() =~= ms.take(i));
}

/// The board identity of a participant is that of its observation.
proof fn lemma_board_identity(o: MatchObservation, p: Participant, patch: Seq<char>, timestamp: u64, names: Seq<Seq<char>>)
    requires
        crate::api::observes_participant(o, p, patch, timestamp),
        is_identity_of(names, o.units@),
    ensures
        board_identity(p) == names,
{
    let mapped = p.units@.map_values(|u: Unit| unit_as_observed(u));
    assert forall|t: Seq<char>| #[trigger] names.contains(t) <==> crate::model::fields_champion(mapped, t) by {
        if crate::model::fields_champion(o.units@, t) {
            let k = choose|k: int| 0 <= k < o.units@.len() && #[trigger] o.units@[k].champion@ == t;
            assert(crate::api::observes_unit(o.units@[k], p.units@[k]));
            assert(mapped[k].champion@ == t);
        }
        if crate::model::fields_champion(mapped, t) {
            let k = choose|k: int| 0 <= k < mapped.len() && #[trigger] mapped[k].champion@ == t;
            assert(crate::api::observes_unit(o.units@[k], p.units@[k]));
            assert(o.units@[k].champion@ == t);
        }
    }
    crate::model::lemma_identity_is(names, mapped);
}

/// Running counts over observations.
struct ObservationTally {
    observations: usize,
    total_units: usize,
    without_units: usize,
    without_augments: usize,
    earliest: Option<u64>,
    latest: Option<u64>,
    by_patch: Vec<(String, usize)>,
    players: Vec<String>,
    boards: Vec<(Composition, usize)>,
}

/// The views of board counts.
pub open spec fn board_tally(boards: Seq<(Composition, usize)>) -> Seq<(Seq<Seq<char>>, usize)> {
    boards.map_values(|e: (Composition, usize)| (e.0@, e.1))
}

impl ObservationTally {
    /// The counts are those of the participants `ps`.
    spec fn tallies(self, ps: Seq<Placed>) -> bool {
        &&& self.observations == ps.len()
        &&& self.total_units == unit_total(ps)
        &&& self.without_units == without_units(ps)
        &&& self.without_augments == without_augments(ps)
        &&& (self.earliest is None <==> ps.len() == 0)
        &&& (self.earliest matches Some(t) ==> is_earliest(ps, t))
        &&& (self.latest is None <==> ps.len() == 0)
        &&& (self.latest matches Some(t) ==> is_latest(ps, t))
        &&& counts_texts(self.by_patch@, |p: Seq<char>| patch_plays(ps, p))
        &&& crate::text::texts_of(self.players@).no_duplicates()
        &&& crate::text::texts_of(self.players@).to_set() == players_of(ps)
        &&& distinct_boards(board_tally(self.boards@))
        &&& forall|i: int|
            0 <= i < self.boards@.len() ==> (#[trigger] self.boards@[i]).1 == board_plays(ps, self.boards@[i].0@)
                && self.boards@[i].1 > 0
        &&& forall|k: int| 0 <= k < ps.len() ==> lists_board(board_tally(self.boards@), board_identity((#[trigger] ps[k]).0))
    }

    /// Counts the observation `o` of the placed participant `x`.
    #[verifier::spinoff_prover]
    fn record(&mut self, o: &MatchObservation, Ghost(ps): Ghost<Seq<Placed>>, Ghost(x): Ghost<Placed>)
        requires
            old(self).tallies(ps),
            crate::api::observes_participant(*o, x.0, x.1, x.2),
            ps.len() + 1 <= usize::MAX,
            unit_total(ps.push(x)) <= usize::MAX,
        ensures
            final(self).tallies(ps.push(x)),
    {
        let ghost qs = ps.push(x);
        proof {
            assert(qs.drop_last() =~= ps);
            assert(qs.last() == x);
            lemma_counts_bounded(ps, x.1, Seq::empty());
            assert(o.units@.len() == x.0.units@.len());
            assert(o.augments@.len() == x.0.augments@.len()) by {
                assert(crate::text::texts_of(o.augments@).len() == o.augments@.len());
                assert(crate::text::texts_of(x.0.augments@).len() == x.0.augments@.len());
            }
        }
        self.observations = self.observations + 1;
        self.total_units = self.total_units + o.units.len();
        if o.units.len() == 0 {
            self.without_units = self.without_units + 1;
        }
        if o.augments.len() == 0 {
            self.without_augments = self.without_augments + 1;
        }
        let t = o.timestamp;
        self.earliest = match self.earliest {
            Some(e) => if t < e { Some(t) } else { Some(e) },
            None => Some(t),
        };
        self.latest = match self.latest {
            Some(l) => if t > l { Some(t) } else { Some(l) },
            None => Some(t),
        };
        proof {
            assert(qs[ps.len() as int].2 == t);
            if let Some(e) = self.earliest {
                assert forall|k: int| 0 <= k < qs.len() implies e <= (#[trigger] qs[k]).2 by {
                    if k < ps.len() {
                        assert(qs[k] == ps[k]);
                    }
                }
                if e != t {
                    let k = choose|k: int| 0 <= k < ps.len() && #[trigger] ps[k].2 == e;
                    assert(qs[k] == ps[k]);
                }
            }
            if let Some(l) = self.latest {
                assert forall|k: int| 0 <= k < qs.len() implies (#[trigger] qs[k]).2 <= l by {
                    if k < ps.len() {
                        assert(qs[k] == ps[k]);
                    }
                }
                if l != t {
                    let k = choose|k: int| 0 <= k < ps.len() && #[trigger] ps[k].2 == l;
                    assert(qs[k] == ps[k]);
                }
            }
        }
        add_text(&mut self.by_patch, &o.patch, Ghost(|p: Seq<char>| patch_plays(ps, p)), Ghost(|p: Seq<char>| patch_plays(qs, p)));
        let ghost players_before = crate::text::texts_of(self.players@);
        if !crate::model::contains_text(&self.players, &o.player_id) {
            self.players.push(o.player_id.clone());
            proof {
                assert(crate::text::texts_of(self.players@) =~= players_before.push(o.player_id@));
                assert forall|a: int, b: int| 0 <= a < b < crate::text::texts_of(self.players@).len() implies crate::text::texts_of(self.players@)[a] != crate::text::texts_of(self.players@)[b] by {
                    if b == players_before.len() {
                        assert(players_before.contains(players_before[a]));
                    }
                }
            }
        }
        proof {
            let f = |y: Placed| y.0.puuid@;
            assert(qs.map_values(f) =~= ps.map_values(f).push(f(x)));
            ps.map_values(f).lemma_push_to_set_commute(f(x));
            assert(o.player_id@ == x.0.puuid@);
            if players_before.contains(o.player_id@) {
                assert(crate::text::texts_of(self.players@) == players_before);
                assert(players_of(qs) =~= players_of(ps));
            } else {
                players_before.lemma_push_to_set_commute(o.player_id@);
            }
        }
        let composition = Composition::from_units(o.units.as_slice());
        proof {
            lemma_board_identity(*o, x.0, x.1, x.2, composition@);
            lemma_counts_bounded(ps, x.1, composition@);
        }
        let ghost boards_before = self.boards@;
        match find_composition(&self.boards, &composition) {
            Some(i) => {
                let count = self.boards[i].1;
                self.boards.set(i, (composition, count + 1));
                proof {
                    assert forall|a: int, b: int| 0 <= a < b < board_tally(self.boards@).len() implies #[trigger] board_tally(self.boards@)[a].0 != #[trigger] board_tally(self.boards@)[b].0 by {
                        assert(board_tally(self.boards@)[a].0 == board_tally(boards_before)[a].0);
                        assert(board_tally(self.boards@)[b].0 == board_tally(boards_before)[b].0);
                    }
                    assert forall|j: int| 0 <= j < self.boards@.len() implies (#[trigger] self.boards@[j]).1 == board_plays(qs, self.boards@[j].0@)
                        && self.boards@[j].1 > 0 by {
                        if j != i {
                            assert(self.boards@[j] == boards_before[j]);
                            assert(board_tally(boards_before)[j].0 != board_tally(boards_before)[i as int].0);
                        }
                    }
                    assert forall|k: int| 0 <= k < qs.len() implies lists_board(board_tally(self.boards@), board_identity((#[trigger] qs[k]).0)) by {
                        if k < ps.len() {
                            assert(qs[k] == ps[k]);
                            let j = choose|j: int| 0 <= j < board_tally(boards_before).len() && #[trigger] board_tally(boards_before)[j].0 == board_identity(ps[k].0);
                            assert(board_tally(self.boards@)[j].0 == board_tally(boards_before)[j].0);
                        } else {
                            assert(board_tally(self.boards@)[i as int].0 == board_identity(x.0));
                        }
                    }
                }
            },
            None => {
                self.boards.push((composition, 1));
                proof {
                    let last = boards_before.len() as int;
                    assert(board_tally(self.boards@) =~= board_tally(boards_before).push((board_identity(x.0), 1usize)));
                    assert(board_plays(ps, board_identity(x.0)) == 0) by {
                        if board_plays(ps, board_identity(x.0)) > 0 {
                            let k = lemma_board_witness(ps, board_identity(x.0));
                            assert(lists_board(board_tally(boards_before), board_identity(ps[k].0)));
                        }
                    }
                    assert forall|a: int, b: int| 0 <= a < b < board_tally(self.boards@).len() implies #[trigger] board_tally(self.boards@)[a].0 != #[trigger] board_tally(self.boards@)[b].0 by {
                        if b == last {
                            assert(board_tally(boards_before)[a].0 == board_tally(self.boards@)[a].0);
                        }
                    }
                    assert forall|j: int| 0 <= j < self.boards@.len() implies (#[trigger] self.boards@[j]).1 == board_plays(qs, self.boards@[j].0@)
                        && self.boards@[j].1 > 0 by {
                        if j != last {
                            assert(self.boards@[j] == boards_before[j]);
                            assert(board_tally(boards_before)[j].0 == boards_before[j].0@);
                        }
                    }
                    assert forall|k: int| 0 <= k < qs.len() implies lists_board(board_tally(self.boards@), board_identity((#[trigger] qs[k]).0)) by {
                        if k < ps.len() {
                            assert(qs[k] == ps[k]);
                            let j = choose|j: int| 0 <= j < board_tally(boards_before).len() && #[trigger] board_tally(boards_before)[j].0 == board_identity(ps[k].0);
                            assert(board_tally(self.boards@)[j].0 == board_tally(boards_before)[j].0);
                        } else {
                            assert(board_tally(self.boards@)[last].0 == board_identity(x.0));
                        }
                    }
                }
            },
        }
    }
}

/// Counts the participants of match `m`, after those of `a`.
#[verifier::spinoff_prover]
fn audit_participants(tally: &mut ObservationTally, m: &TftMatch, Ghost(a): Ghost<Seq<Placed>>, Ghost(ps): Ghost<Seq<Placed>>)
    requires
        old(tally).tallies(a),
        (a + placed_participants(*m)).is_prefix_of(ps),
        ps.len() <= usize::MAX,
        unit_total(ps) <= usize::MAX,
    ensures
        final(tally).tallies(a + placed_participants(*m)),
{
    let observations = m.observations();
    let ghost pl = placed_participants(*m);
    assert(pl.len() == observations@.len());
    let mut j: usize = 0;
    assert(a + pl.take(0) =~= a);
    while j < observations.len()
        invariant
            0 <= j <= pl.len(),
            pl.len() == observations@.len(),
            pl == placed_participants(*m),
            (a + pl).is_prefix_of(ps),
            ps.len() <= usize::MAX,
            unit_total(ps) <= usize::MAX,
            forall|k: int|
                0 <= k < observations@.len() ==> crate::api::observes_participant(
                    #[trigger] observations@[k],
                    m.participants@[k],
                    crate::api::patch_of(m.game_version@),
                    m.game_datetime,
                ),
            tally.tallies(a + pl.take(j as int)),
        decreases pl.len() - j,
    {
        let ghost prefix = a + pl.take(j as int);
        proof {
            assert(prefix.push(pl[j as int]) =~= a + pl.take(j + 1));
            assert((a + pl.take(j + 1)).is_prefix_of(ps));
            lemma_unit_total_prefix(a + pl.take(j + 1), ps);
            assert(pl[j as int] == (m.participants@[j as int], crate::api::patch_of(m.game_version@), m.game_datetime));
        }
        tally.record(&observations[j], Ghost(prefix), Ghost(pl[j as int]));
        j = j + 1;
    }
    assert(a + pl.take(pl.len() as int) =~= a + pl);
}

/// Audits the matches: how many there are and how many participants they
/// hold, per queue, game type, set and patch; the distinct players and exact
/// compositions; the final-board units; the earliest and latest match times.
pub fn audit_cached_matches(matches: &[TftMatch]) -> (audit: DatasetAudit)
    requires
        all_participants(matches@).len() <= usize::MAX,
        unit_total(all_participants(matches@)) <= usize::MAX,
    ensures
        audit.well_formed(),
        audit.matches == matches@.len(),
        audit.observations == all_participants(matches@).len(),
        audit.total_units == unit_total(all_participants(matches@)),
        audit.observations_without_units == without_units(all_participants(matches@)),
        audit.observations_without_augments == without_augments(all_participants(matches@)),
        audit.earliest_timestamp is None <==> all_participants(matches@).len() == 0,
        audit.earliest_timestamp matches Some(t) ==> is_earliest(all_participants(matches@), t),
        audit.latest_timestamp is None <==> all_participants(matches@).len() == 0,
        audit.latest_timestamp matches Some(t) ==> is_latest(all_participants(matches@), t),
        counts_texts(audit.observations_by_patch@, |p: Seq<char>| patch_plays(all_participants(matches@), p)),
        counts_map(audit.matches_by_queue@, |q: i32| queue_matches(matches@, q)),
        counts_texts(audit.matches_by_game_type@, |t: Seq<char>| type_matches(matches@, t)),
        counts_map(audit.matches_by_set@, |s: i32| set_matches(matches@, s)),
        audit.unique_players == players_of(all_participants(matches@)).len(),
        audit.unique_compositions == boards_of(all_participants(matches@)).len(),
        forall|i: int|
            0 <= i < audit.composition_tally().len() ==> (#[trigger] audit.composition_tally()[i]).1 == board_plays(
                all_participants(matches@),
                audit.composition_tally()[i].0,
            ) && audit.composition_tally()[i].1 > 0,
        forall|k: int|
            0 <= k < all_participants(matches@).len() ==> lists_board(
                audit.composition_tally(),
                board_identity((#[trigger] all_participants(matches@)[k]).0),
            ),
{
    let ghost ms = matches@;
    let ghost ps = all_participants(ms);
    let mut tally = ObservationTally {
        observations: 0,
        total_units: 0,
        without_units: 0,
        without_augments: 0,
        earliest: None,
        latest: None,
        by_patch: Vec::new(),
        players: Vec::new(),
        boards: Vec::new(),
    };
    let mut by_queue: BTreeMap<i32, usize> = BTreeMap::new();
    let mut by_type: Vec<(String, usize)> = Vec::new();
    let mut by_set: BTreeMap<i32, usize> = BTreeMap::new();
    proof {
        assert(ms.take(0) =~= Seq::<TftMatch>::empty());
        assert(crate::text::texts_of(tally.players@) =~= Seq::<Seq<char>>::empty());
        assert(players_of(all_participants(ms.take(0))) =~= Set::<Seq<char>>::empty());
        assert(board_tally(tally.boards@) =~= Seq::<(Seq<Seq<char>>, usize)>::empty());
        let e = all_participants(ms.take(0));
        assert(e =~= Seq::<Placed>::empty());
        assert(crate::text::texts_of(tally.players@).to_set() =~= Set::<Seq<char>>::empty());
        assert(counts_texts(tally.by_patch@, |p: Seq<char>| patch_plays(e, p)));
        assert(tally.tallies(e));
    }
    let mut i: usize = 0;
    while i < matches.len()
        invariant
            0 <= i <= ms.len(),
            ms == matches@,
            ps == all_participants(ms),
            ps.len() <= usize::MAX,
            unit_total(ps) <= usize::MAX,
            tally.tallies(all_participants(ms.take(i as int))),
            counts_map(by_queue@, |q: i32| queue_matches(ms.take(i as int), q)),
            counts_texts(by_type@, |t: Seq<char>| type_matches(ms.take(i as int), t)),
            counts_map(by_set@, |s: i32| set_matches(ms.take(i as int), s)),
        decreases ms.len() - i,
    {
        let m = &matches[i];
        let ghost before = ms.take(i as int);
        let ghost after = ms.take(i + 1);
        proof {
            assert(after.drop_last() =~= before);
            assert(after.last() == m);
            lemma_match_counts_bounded(before, m.queue_id, m.game_type@, m.set_number);
            lemma_participants_step(ms, i as int);
            lemma_participants_prefix(ms, i + 1);
        }
        add_number(&mut by_queue, m.queue_id, Ghost(|q: i32| queue_matches(before, q)), Ghost(|q: i32| queue_matches(after, q)));
        add_text(&mut by_type, &m.game_type, Ghost(|t: Seq<char>| type_matches(before, t)), Ghost(|t: Seq<char>| type_matches(after, t)));
        add_number(&mut by_set, m.set_number, Ghost(|s: i32| set_matches(before, s)), Ghost(|s: i32| set_matches(after, s)));
        audit_participants(&mut tally, m, Ghost(all_participants(before)), Ghost(ps));
        i = i + 1;
    }
    proof {
        assert(ms.take(ms.len() as int) =~= ms);
        crate::text::texts_of(tally.players@).unique_seq_to_set();
        let keys = board_tally(tally.boards@).map_values(|e: (Seq<Seq<char>>, usize)| e.0);
        assert(keys.no_duplicates()) by {
            assert forall|x: int, y: int| 0 <= x < keys.len() && 0 <= y < keys.len() && x != y implies keys[x] != keys[y] by {
                if x < y {
                    assert(board_tally(tally.boards@)[x].0 != board_tally(tally.boards@)[y].0);
                } else {
                    assert(board_tally(tally.boards@)[y].0 != board_tally(tally.boards@)[x].0);
                }
            }
        }
        assert forall|c: Seq<Seq<char>>| keys.to_set().contains(c) <==> boards_of(ps).contains(c) by {
            let f = |x: Placed| board_identity(x.0);
            if keys.to_set().contains(c) {
                let i = choose|i: int| 0 <= i < keys.len() && keys[i] == c;
                assert(tally.boards@[i].1 == board_plays(ps, tally.boards@[i].0@));
                let k = lemma_board_witness(ps, c);
                assert(ps.map_values(f)[k] == c);
            }
            if boards_of(ps).contains(c) {
                let k = choose|k: int| 0 <= k < ps.map_values(f).len() && ps.map_values(f)[k] == c;
                assert(lists_board(board_tally(tally.boards@), board_identity(ps[k].0)));
                let i = choose|i: int| 0 <= i < board_tally(tally.boards@).len() && #[trigger] board_tally(tally.boards@)[i].0 == c;
                assert(keys[i] == c);
            }
        }
        assert(keys.to_set() =~= boards_of(ps));
        keys.unique_seq_to_set();
    }
    DatasetAudit {
        matches: matches.len(),
        observations: tally.observations,
        unique_players: tally.players.len(),
        unique_compositions: tally.boards.len(),
        total_units: tally.total_units,
        observations_without_units: tally.without_units,
        observations_without_augments: tally.without_augments,
        earliest_timestamp: tally.earliest,
        latest_timestamp: tally.latest,
        observations_by_patch: tally.by_patch,
        matches_by_queue: by_queue,
        matches_by_game_type: by_type,
        matches_by_set: by_set,
        composition_counts: tally.boards,
    }
}

} // verus!
