//! Grouping exact boards into families of similar compositions.
//!
//! Within a patch, exact boards are visited in the order in which they were
//! first seen (ties broken alphabetically). A board joins the family of the
//! first earlier family founder that it is similar to; a board similar to no
//! founder founds a family of its own.
use vstd::prelude::*;

use crate::model::{
    Composition, MatchObservation, identity, similar,
};
use crate::sorting::{
    TotalPreorder, equivalent, lemma_rearrangement_contains, lemma_rearrangement_distinct,
    lemma_rearrangement_keeps, stable_sort, strict_order, strictly_ordered, lemma_filter_strictly_ordered,
    lemma_take_strictly_ordered, lemma_strictly_ordered_unique,
};
use crate::text::{
    Precedence, compare_text, lemma_text_asymmetric, lemma_text_irreflexive, lemma_text_total,
    lemma_text_transitive, lemma_texts_asymmetric, lemma_texts_irreflexive, lemma_texts_total,
    lemma_texts_transitive, text_before, texts_before,
};

verus! {

/// An exact board of a patch.
pub open spec fn board_of(o: MatchObservation) -> (Seq<char>, Seq<Seq<char>>) {
    (o.patch@, identity(o.units@))
}

/// `t` is the earliest timestamp at which board `b` was observed.
pub open spec fn is_first_seen(
    obs: Seq<MatchObservation>,
    b: (Seq<char>, Seq<Seq<char>>),
    t: u64,
) -> bool {
    &&& exists|k: int| 0 <= k < obs.len() && #[trigger] board_of(obs[k]) == b && obs[k].timestamp == t
    &&& forall|k: int|
        0 <= k < obs.len() && #[trigger] board_of(obs[k]) == b ==> t <= obs[k].timestamp
}

/// The order in which boards are visited: by patch, then first-seen time,
/// then alphabetically by composition.
pub open spec fn board_before(
    x: (Seq<char>, u64, Seq<Seq<char>>),
    y: (Seq<char>, u64, Seq<Seq<char>>),
) -> bool {
    ||| text_before(x.0, y.0)
    ||| x.0 == y.0 && x.1 < y.1
    ||| x.0 == y.0 && x.1 == y.1 && texts_before(x.2, y.2)
}

pub open spec fn board_order() -> spec_fn(
    (Seq<char>, u64, Seq<Seq<char>>),
    (Seq<char>, u64, Seq<Seq<char>>),
) -> bool {
    |x: (Seq<char>, u64, Seq<Seq<char>>), y: (Seq<char>, u64, Seq<Seq<char>>)|
        board_before(x, y)
}

/// `bs` lists every exact board of `obs` once, with its first-seen time, in
/// visiting order.
pub open spec fn is_board_list(
    obs: Seq<MatchObservation>,
    bs: Seq<(Seq<char>, u64, Seq<Seq<char>>)>,
) -> bool {
    &&& strictly_ordered(bs, board_order())
    &&& forall|x: (Seq<char>, u64, Seq<Seq<char>>)| #[trigger]
        bs.contains(x) <==> is_first_seen(obs, (x.0, x.2), x.1)
}

pub open spec fn board_list(obs: Seq<MatchObservation>) -> Seq<(Seq<char>, u64, Seq<Seq<char>>)> {
    choose|bs: Seq<(Seq<char>, u64, Seq<Seq<char>>)>| is_board_list(obs, bs)
}

/// `leader` founds the family that `b` may join.
pub open spec fn joins(leader: (Seq<char>, u64, Seq<Seq<char>>), b: (Seq<char>, u64, Seq<Seq<char>>)) -> bool {
    leader.0 == b.0 && similar(leader.2, b.2)
}

/// The first founder in `founders` whose family `b` joins.
pub open spec fn first_joined(
    founders: Seq<(Seq<char>, u64, Seq<Seq<char>>)>,
    b: (Seq<char>, u64, Seq<Seq<char>>),
) -> Option<(Seq<char>, u64, Seq<Seq<char>>)>
    decreases founders.len(),
{
    if founders.len() == 0 {
        None
    } else if joins(founders[0], b) {
        Some(founders[0])
    } else {
        first_joined(founders.drop_first(), b)
    }
}

/// The family founders among the boards `bs`, visited in order.
pub open spec fn founders(bs: Seq<(Seq<char>, u64, Seq<Seq<char>>)>) -> Seq<(Seq<char>, u64, Seq<Seq<char>>)>
    decreases bs.len(),
{
    if bs.len() == 0 {
        Seq::empty()
    } else {
        let earlier = founders(bs.drop_last());
        if first_joined(earlier, bs.last()) is None {
            earlier.push(bs.last())
        } else {
            earlier
        }
    }
}

/// The composition that represents the family of the `i`-th board.
pub open spec fn representative(bs: Seq<(Seq<char>, u64, Seq<Seq<char>>)>, i: int) -> Seq<Seq<char>> {
    match first_joined(founders(bs.take(i)), bs[i]) {
        Some(founder) => founder.2,
        None => bs[i].2,
    }
}

/// The representative of the family of the exact board (`patch`, `exact`).
pub open spec fn family_of(
    obs: Seq<MatchObservation>,
    patch: Seq<char>,
    exact: Seq<Seq<char>>,
) -> Seq<Seq<char>> {
    let bs = board_list(obs);
    let i = choose|i: int| 0 <= i < bs.len() && bs[i].0 == patch && bs[i].2 == exact;
    representative(bs, i)
}

proof fn lemma_board_before_strict()
    ensures
        strict_order(board_order()),
        forall|x: (Seq<char>, u64, Seq<Seq<char>>), y: (Seq<char>, u64, Seq<Seq<char>>)|
            x != y ==> #[trigger] board_before(x, y) || board_before(y, x),
        forall|
            x: (Seq<char>, u64, Seq<Seq<char>>),
            y: (Seq<char>, u64, Seq<Seq<char>>),
            z: (Seq<char>, u64, Seq<Seq<char>>),
        | #[trigger] board_before(x, y) && #[trigger] board_before(y, z) ==> board_before(x, z),
{
    assert forall|x: (Seq<char>, u64, Seq<Seq<char>>)| !#[trigger] board_order()(x, x) by {
        lemma_text_irreflexive(x.0);
        lemma_texts_irreflexive(x.2);
    }
    assert forall|x: (Seq<char>, u64, Seq<Seq<char>>), y: (Seq<char>, u64, Seq<Seq<char>>)|
        #[trigger] board_order()(x, y) implies !board_order()(y, x) by {
        lemma_text_asymmetric(x.0, y.0);
        lemma_text_irreflexive(x.0);
        lemma_texts_asymmetric(x.2, y.2);
    }
    assert forall|x: (Seq<char>, u64, Seq<Seq<char>>), y: (Seq<char>, u64, Seq<Seq<char>>)|
        x != y implies #[trigger] board_before(x, y) || board_before(y, x) by {
        lemma_text_total(x.0, y.0);
        lemma_texts_total(x.2, y.2);
    }
    assert forall|
        x: (Seq<char>, u64, Seq<Seq<char>>),
        y: (Seq<char>, u64, Seq<Seq<char>>),
        z: (Seq<char>, u64, Seq<Seq<char>>),
    | #[trigger] board_before(x, y) && #[trigger] board_before(y, z) implies board_before(x, z) by {
        lemma_text_transitive(x.0, y.0, z.0);
        lemma_texts_transitive(x.2, y.2, z.2);
    }
}

/// An exact board with the time at which it was first seen.
pub struct Board {
    pub patch: String,
    pub first_seen: u64,
    pub composition: Composition,
}

impl Board {
    pub open spec fn key(self) -> (Seq<char>, u64, Seq<Seq<char>>) {
        (self.patch@, self.first_seen, self.composition@)
    }
}

/// Visiting order of boards.
pub struct BoardOrder;

impl TotalPreorder<Board> for BoardOrder {
    open spec fn precedes(&self, a: Board, b: Board) -> bool {
        !board_before(b.key(), a.key())
    }

    fn precedes_exec(&self, a: &Board, b: &Board) -> (r: bool) {
        match compare_text(b.patch.as_str(), a.patch.as_str()) {
            Precedence::Before => false,
            Precedence::After => true,
            Precedence::Same => {
                if b.first_seen < a.first_seen {
                    false
                } else if b.first_seen > a.first_seen {
                    true
                } else {
                    match b.composition.compare(&a.composition) {
                        Precedence::Before => false,
                        _ => true,
                    }
                }
            },
        }
    }

    proof fn lemma_total_preorder(&self) {
        lemma_board_before_strict();
        assert forall|a: Board, b: Board| #[trigger] self.precedes(a, b) || self.precedes(b, a) by {
            assert(board_order()(a.key(), b.key()) ==> !board_order()(b.key(), a.key()));
        }
        assert forall|a: Board, b: Board, c: Board|
            #[trigger] self.precedes(a, b) && #[trigger] self.precedes(b, c) implies self.precedes(
            a,
            c,
        ) by {
            if board_before(c.key(), a.key()) {
                if a.key() == b.key() {
                } else if board_before(a.key(), b.key()) {
                } else {
                    assert(board_before(b.key(), a.key()));
                }
            }
        }
    }
}

/// A family assignment for one exact board.
pub struct Family {
    pub patch: String,
    pub exact: Composition,
    pub representative: Composition,
}

fn find_board(boards: &Vec<Board>, patch: &String, composition: &Composition) -> (r: Option<usize>)
    ensures
        r matches Some(j) ==> j < boards@.len() && boards@[j as int].patch@ == patch@
            && boards@[j as int].composition@ == composition@,
        r is None ==> forall|j: int|
            0 <= j < boards@.len() ==> !(#[trigger] boards@[j].patch@ == patch@
                && boards@[j].composition@ == composition@),
{
    let mut j: usize = 0;
    while j < boards.len()
        invariant
            0 <= j <= boards@.len(),
            forall|q: int|
                0 <= q < j ==> !(#[trigger] boards@[q].patch@ == patch@ && boards@[q].composition@
                    == composition@),
        decreases boards@.len() - j,
    {
        let same_patch = match compare_text(boards[j].patch.as_str(), patch.as_str()) {
            Precedence::Same => true,
            _ => false,
        };
        if same_patch {
            if let Precedence::Same = boards[j].composition.compare(composition) {
                return Some(j);
            }
        }
        j = j + 1;
    }
    None
}

} // verus!

verus! {

/// Some board in `boards` is the exact board `b`.
pub open spec fn lists_board(boards: Seq<Board>, b: (Seq<char>, Seq<Seq<char>>)) -> bool {
    exists|j: int| 0 <= j < boards.len() && (#[trigger] boards[j].patch@, boards[j].composition@) == b
}

/// The exact boards of `observations`, each once, with its first-seen time.
fn collect_boards(observations: &[MatchObservation]) -> (boards: Vec<Board>)
    ensures
        forall|j: int|
            0 <= j < boards@.len() ==> is_first_seen(
                observations@,
                (#[trigger] boards@[j].patch@, boards@[j].composition@),
                boards@[j].first_seen,
            ),
        forall|m: int|
            0 <= m < observations@.len() ==> lists_board(boards@, board_of(#[trigger] observations@[m])),
        forall|i: int, j: int|
            0 <= i < j < boards@.len() ==> (#[trigger] boards@[i].patch@, boards@[i].composition@)
                != (#[trigger] boards@[j].patch@, boards@[j].composition@),
{
    let ghost obs = observations@;
    let mut boards: Vec<Board> = Vec::new();
    let mut k: usize = 0;
    while k < observations.len()
        invariant
            obs == observations@,
            0 <= k <= obs.len(),
            forall|j: int|
                0 <= j < boards@.len() ==> is_first_seen(
                    obs.take(k as int),
                    (#[trigger] boards@[j].patch@, boards@[j].composition@),
                    boards@[j].first_seen,
                ),
            forall|m: int|
                0 <= m < k ==> exists|j: int|
                    0 <= j < boards@.len() && (#[trigger] boards@[j].patch@, boards@[j].composition@)
                        == board_of(#[trigger] obs[m]),
            forall|i: int, j: int|
                0 <= i < j < boards@.len() ==> (#[trigger] boards@[i].patch@, boards@[i].composition@)
                    != (#[trigger] boards@[j].patch@, boards@[j].composition@),
        decreases obs.len() - k,
    {
        let ghost prev = obs.take(k as int);
        let ghost next = obs.take(k + 1);
        assert(next =~= prev.push(obs[k as int]));
        let ghost old_boards = boards@;
        let observation = &observations[k];
        let composition = Composition::from_units(observation.units.as_slice());
        let ghost b0 = board_of(obs[k as int]);
        assert(b0 == (observation.patch@, composition@));
        let ts = observation.timestamp;
        match find_board(&boards, &observation.patch, &composition) {
            Some(j) => {
                if ts < boards[j].first_seen {
                    let updated = Board {
                        patch: boards[j].patch.clone(),
                        first_seen: ts,
                        composition: boards[j].composition.duplicate(),
                    };
                    boards.set(j, updated);
                }
                proof {
                    assert forall|q: int|
                        0 <= q < boards@.len() implies is_first_seen(
                        next,
                        (#[trigger] boards@[q].patch@, boards@[q].composition@),
                        boards@[q].first_seen,
                    ) by {
                        let bq = (boards@[q].patch@, boards@[q].composition@);
                        assert(is_first_seen(
                            prev,
                            (old_boards[q].patch@, old_boards[q].composition@),
                            old_boards[q].first_seen,
                        ));
                        if q == j {
                            let w = choose|w: int|
                                0 <= w < prev.len() && #[trigger] board_of(prev[w]) == bq
                                    && prev[w].timestamp == old_boards[q].first_seen;
                            if ts < old_boards[q].first_seen {
                                assert(board_of(next[k as int]) == bq);
                                assert(next[k as int].timestamp == boards@[q].first_seen);
                            } else {
                                assert(next[w] == prev[w]);
                            }
                            assert forall|m: int|
                                0 <= m < next.len() && #[trigger] board_of(next[m]) == bq implies boards@[q].first_seen
                                <= next[m].timestamp by {
                                if m < k {
                                    assert(next[m] == prev[m]);
                                }
                            }
                        } else {
                            assert(old_boards[q] == boards@[q]);
                            assert(bq != b0);
                            let w = choose|w: int|
                                0 <= w < prev.len() && #[trigger] board_of(prev[w]) == bq
                                    && prev[w].timestamp == boards@[q].first_seen;
                            assert(next[w] == prev[w]);
                            assert forall|m: int|
                                0 <= m < next.len() && #[trigger] board_of(next[m]) == bq implies boards@[q].first_seen
                                <= next[m].timestamp by {
                                if m < k {
                                    assert(next[m] == prev[m]);
                                }
                            }
                        }
                    }
                    assert forall|m: int| 0 <= m < k + 1 implies exists|q: int|
                        0 <= q < boards@.len() && (#[trigger] boards@[q].patch@, boards@[q].composition@)
                            == board_of(#[trigger] obs[m]) by {
                        if m < k {
                            let q = choose|q: int|
                                0 <= q < old_boards.len() && (#[trigger] old_boards[q].patch@, old_boards[q].composition@)
                                    == board_of(obs[m]);
                            assert((boards@[q].patch@, boards@[q].composition@) == (old_boards[q].patch@, old_boards[q].composition@));
                        } else {
                            assert((boards@[j as int].patch@, boards@[j as int].composition@) == board_of(obs[m]));
                        }
                    }
                    assert forall|a: int, b: int|
                        0 <= a < b < boards@.len() implies (#[trigger] boards@[a].patch@, boards@[a].composition@)
                        != (#[trigger] boards@[b].patch@, boards@[b].composition@) by {
                        assert((boards@[a].patch@, boards@[a].composition@) == (old_boards[a].patch@, old_boards[a].composition@));
                        assert((boards@[b].patch@, boards@[b].composition@) == (old_boards[b].patch@, old_boards[b].composition@));
                    }
                }
            },
            None => {
                let board = Board {
                    patch: observation.patch.clone(),
                    first_seen: ts,
                    composition,
                };
                boards.push(board);
                proof {
                    let last = old_boards.len() as int;
                    assert forall|m: int| 0 <= m < k implies board_of(#[trigger] prev[m]) != b0 by {
                        let q = choose|q: int|
                            0 <= q < old_boards.len() && (#[trigger] old_boards[q].patch@, old_boards[q].composition@)
                                == board_of(obs[m]);
                        assert(prev[m] == obs[m]);
                    }
                    assert forall|q: int|
                        0 <= q < boards@.len() implies is_first_seen(
                        next,
                        (#[trigger] boards@[q].patch@, boards@[q].composition@),
                        boards@[q].first_seen,
                    ) by {
                        let bq = (boards@[q].patch@, boards@[q].composition@);
                        if q == last {
                            assert(bq == b0);
                            assert(board_of(next[k as int]) == bq);
                            assert forall|m: int|
                                0 <= m < next.len() && #[trigger] board_of(next[m]) == bq implies boards@[q].first_seen
                                <= next[m].timestamp by {
                                if m < k {
                                    assert(next[m] == prev[m]);
                                }
                            }
                        } else {
                            assert(old_boards[q] == boards@[q]);
                            assert(bq != b0);
                            assert(is_first_seen(prev, bq, boards@[q].first_seen));
                            let w = choose|w: int|
                                0 <= w < prev.len() && #[trigger] board_of(prev[w]) == bq
                                    && prev[w].timestamp == boards@[q].first_seen;
                            assert(next[w] == prev[w]);
                            assert forall|m: int|
                                0 <= m < next.len() && #[trigger] board_of(next[m]) == bq implies boards@[q].first_seen
                                <= next[m].timestamp by {
                                if m < k {
                                    assert(next[m] == prev[m]);
                                }
                            }
                        }
                    }
                    assert forall|m: int| 0 <= m < k + 1 implies exists|q: int|
                        0 <= q < boards@.len() && (#[trigger] boards@[q].patch@, boards@[q].composition@)
                            == board_of(#[trigger] obs[m]) by {
                        if m < k {
                            let q = choose|q: int|
                                0 <= q < old_boards.len() && (#[trigger] old_boards[q].patch@, old_boards[q].composition@)
                                    == board_of(obs[m]);
                            assert(boards@[q] == old_boards[q]);
                        } else {
                            assert((boards@[last].patch@, boards@[last].composition@) == board_of(obs[m]));
                        }
                    }
                    assert forall|a: int, b: int|
                        0 <= a < b < boards@.len() implies (#[trigger] boards@[a].patch@, boards@[a].composition@)
                        != (#[trigger] boards@[b].patch@, boards@[b].composition@) by {
                        assert(boards@[a] == old_boards[a]);
                        if b < last {
                            assert(boards@[b] == old_boards[b]);
                        }
                    }
                }
            },
        }
        k = k + 1;
    }
    assert(obs.take(obs.len() as int) =~= obs);
    assert forall|m: int| 0 <= m < observations@.len() implies lists_board(boards@, board_of(#[trigger] observations@[m])) by {
        assert(obs[m] == observations@[m]);
        assert(m < k);
        let j = choose|j: int|
            0 <= j < boards@.len() && (#[trigger] boards@[j].patch@, boards@[j].composition@)
                == board_of(obs[m]);
        assert((boards@[j].patch@, boards@[j].composition@) == board_of(observations@[m]));
    }
    boards
}

} // verus!

verus! {

/// Some visited board is the exact board `b`.
pub open spec fn covers(bs: Seq<(Seq<char>, u64, Seq<Seq<char>>)>, b: (Seq<char>, Seq<Seq<char>>)) -> bool {
    exists|i: int| 0 <= i < bs.len() && #[trigger] bs[i].0 == b.0 && bs[i].2 == b.1
}

/// `families` gives, for each visited board in order, its patch, its exact
/// composition and its family representative.
pub open spec fn describes_families(
    families: Seq<Family>,
    bs: Seq<(Seq<char>, u64, Seq<Seq<char>>)>,
) -> bool {
    &&& families.len() == bs.len()
    &&& forall|i: int|
        0 <= i < families.len() ==> {
            &&& #[trigger] families[i].patch@ == bs[i].0
            &&& families[i].exact@ == bs[i].2
            &&& families[i].representative@ == representative(bs, i)
        }
}

pub open spec fn board_keys(boards: Seq<Board>) -> Seq<(Seq<char>, u64, Seq<Seq<char>>)> {
    boards.map_values(|b: Board| b.key())
}

proof fn lemma_first_seen_unique(obs: Seq<MatchObservation>, b: (Seq<char>, Seq<Seq<char>>), t: u64, u: u64)
    requires
        is_first_seen(obs, b, t),
        is_first_seen(obs, b, u),
    ensures
        t == u,
{
    let k = choose|k: int| 0 <= k < obs.len() && #[trigger] board_of(obs[k]) == b && obs[k].timestamp == t;
    let m = choose|m: int| 0 <= m < obs.len() && #[trigger] board_of(obs[m]) == b && obs[m].timestamp == u;
}

/// The exact boards of `observations` in visiting order.
fn ordered_boards(observations: &[MatchObservation]) -> (boards: Vec<Board>)
    ensures
        board_keys(boards@) == board_list(observations@),
        is_board_list(observations@, board_keys(boards@)),
        forall|m: int|
            0 <= m < observations@.len() ==> covers(
                board_list(observations@),
                board_of(#[trigger] observations@[m]),
            ),
{
    let ghost obs = observations@;
    let mut boards = collect_boards(observations);
    let ghost collected = boards@;
    let order = BoardOrder;
    stable_sort(&mut boards, &order);
    let ghost sorted = boards@;
    let ghost keys = board_keys(sorted);
    proof {
        lemma_board_before_strict();
        order.lemma_total_preorder();
        assert forall|i: int, j: int|
            0 <= i < j < collected.len() implies !equivalent(
            order,
            #[trigger] collected[i],
            #[trigger] collected[j],
        ) by {
            if collected[i].key() != collected[j].key() {
                assert(board_before(collected[i].key(), collected[j].key()) || board_before(
                    collected[j].key(),
                    collected[i].key(),
                ));
            } else {
                assert((collected[i].patch@, collected[i].composition@) == (collected[j].patch@, collected[j].composition@));
            }
        }
        lemma_rearrangement_distinct(order, sorted, collected);
        assert forall|i: int, j: int| 0 <= i < j < keys.len() implies #[trigger] board_order()(
            keys[i],
            keys[j],
        ) by {
            assert(order.precedes(sorted[i], sorted[j]));
            assert(!equivalent(order, sorted[i], sorted[j]));
        }
        assert forall|x: (Seq<char>, u64, Seq<Seq<char>>)| #[trigger]
            keys.contains(x) <==> is_first_seen(obs, (x.0, x.2), x.1) by {
            if keys.contains(x) {
                let i = choose|i: int| 0 <= i < keys.len() && keys[i] == x;
                lemma_rearrangement_contains(order, sorted, collected, i);
                let j = choose|j: int| 0 <= j < collected.len() && collected[j] == sorted[i];
                assert(is_first_seen(obs, (collected[j].patch@, collected[j].composition@), collected[j].first_seen));
            }
            if is_first_seen(obs, (x.0, x.2), x.1) {
                let k = choose|k: int|
                    0 <= k < obs.len() && #[trigger] board_of(obs[k]) == (x.0, x.2) && obs[k].timestamp == x.1;
                assert(lists_board(collected, board_of(obs[k])));
                let j = choose|j: int|
                    0 <= j < collected.len() && (#[trigger] collected[j].patch@, collected[j].composition@) == board_of(obs[k]);
                assert(is_first_seen(obs, (collected[j].patch@, collected[j].composition@), collected[j].first_seen));
                lemma_first_seen_unique(obs, (x.0, x.2), x.1, collected[j].first_seen);
                lemma_rearrangement_keeps(order, sorted, collected, j);
                let i = choose|i: int| 0 <= i < sorted.len() && sorted[i] == collected[j];
                assert(keys[i] == x);
            }
        }
        assert(is_board_list(obs, keys));
        let other = board_list(obs);
        assert(is_board_list(obs, other));
        crate::sorting::lemma_strictly_ordered_unique(keys, other, board_order());
        assert forall|m: int| 0 <= m < obs.len() implies covers(keys, board_of(#[trigger] obs[m])) by {
            assert(lists_board(collected, board_of(obs[m])));
            let j = choose|j: int|
                0 <= j < collected.len() && (#[trigger] collected[j].patch@, collected[j].composition@) == board_of(obs[m]);
            lemma_rearrangement_keeps(order, sorted, collected, j);
            let i = choose|i: int| 0 <= i < sorted.len() && sorted[i] == collected[j];
            assert(keys[i].0 == board_of(obs[m]).0 && keys[i].2 == board_of(obs[m]).1);
        }
    }
    boards
}

/// The first founder, among `founders`, whose family the `i`-th board joins.
fn find_founder(
    boards: &Vec<Board>,
    founder_index: &Vec<usize>,
    i: usize,
    Ghost(founder_keys): Ghost<Seq<(Seq<char>, u64, Seq<Seq<char>>)>>,
) -> (r: Option<usize>)
    requires
        i < boards@.len(),
        founder_keys.len() == founder_index@.len(),
        forall|q: int|
            0 <= q < founder_index@.len() ==> #[trigger] founder_index@[q] < boards@.len()
                && founder_keys[q] == boards@[founder_index@[q] as int].key(),
    ensures
        r matches Some(f) ==> f < boards@.len() && first_joined(founder_keys, boards@[i as int].key())
            == Some(boards@[f as int].key()),
        r is None ==> first_joined(founder_keys, boards@[i as int].key()) is None,
{
    let ghost b = boards@[i as int].key();
    let mut q: usize = 0;
    assert(founder_keys.skip(0) =~= founder_keys);
    while q < founder_index.len()
        invariant
            0 <= q <= founder_index@.len(),
            i < boards@.len(),
            b == boards@[i as int].key(),
            founder_keys.len() == founder_index@.len(),
            forall|p: int|
                0 <= p < founder_index@.len() ==> #[trigger] founder_index@[p] < boards@.len()
                    && founder_keys[p] == boards@[founder_index@[p] as int].key(),
            first_joined(founder_keys, b) == first_joined(founder_keys.skip(q as int), b),
        decreases founder_index@.len() - q,
    {
        let f = founder_index[q];
        assert(founder_keys.skip(q as int)[0] == founder_keys[q as int]);
        let same_patch = match compare_text(boards[f].patch.as_str(), boards[i].patch.as_str()) {
            Precedence::Same => true,
            _ => false,
        };
        if same_patch && boards[f].composition.is_similar_to(&boards[i].composition) {
            return Some(f);
        }
        assert(founder_keys.skip(q as int).drop_first() =~= founder_keys.skip(q + 1));
        q = q + 1;
    }
    None
}

/// Assigns every exact board of each patch to a composition family.
pub fn assign_composition_families(observations: &[MatchObservation]) -> (families: Vec<Family>)
    ensures
        families@.len() == board_list(observations@).len(),
        is_board_list(observations@, board_list(observations@)),
        forall|m: int|
            0 <= m < observations@.len() ==> covers(
                board_list(observations@),
                board_of(#[trigger] observations@[m]),
            ),
        describes_families(families@, board_list(observations@)),
{
    let boards = ordered_boards(observations);
    let ghost bs = board_keys(boards@);
    let mut founder_index: Vec<usize> = Vec::new();
    let ghost mut founder_keys: Seq<(Seq<char>, u64, Seq<Seq<char>>)> = Seq::empty();
    let mut families: Vec<Family> = Vec::new();
    let mut i: usize = 0;
    assert(bs.take(0) =~= Seq::<(Seq<char>, u64, Seq<Seq<char>>)>::empty());
    while i < boards.len()
        invariant
            bs == board_keys(boards@),
            bs == board_list(observations@),
            0 <= i <= boards@.len(),
            founder_keys == founders(bs.take(i as int)),
            founder_keys.len() == founder_index@.len(),
            forall|q: int|
                0 <= q < founder_index@.len() ==> #[trigger] founder_index@[q] < boards@.len()
                    && founder_keys[q] == boards@[founder_index@[q] as int].key(),
            families@.len() == i,
            forall|m: int|
                0 <= m < i ==> {
                    &&& #[trigger] families@[m].patch@ == bs[m].0
                    &&& families@[m].exact@ == bs[m].2
                    &&& families@[m].representative@ == representative(bs, m)
                },
        decreases boards@.len() - i,
    {
        let ghost b = bs[i as int];
        assert(b == boards@[i as int].key());
        assert(bs.take(i + 1).drop_last() =~= bs.take(i as int));
        assert(bs.take(i + 1).last() == b);
        let found = find_founder(&boards, &founder_index, i, Ghost(founder_keys));
        let representative = match found {
            Some(f) => boards[f].composition.duplicate(),
            None => {
                founder_index.push(i);
                proof {
                    founder_keys = founder_keys.push(b);
                }
                boards[i].composition.duplicate()
            },
        };
        families.push(
            Family {
                patch: boards[i].patch.clone(),
                exact: boards[i].composition.duplicate(),
                representative,
            },
        );
        i = i + 1;
    }
    families
}

} // verus!

verus! {

/// The family representative of an exact board of `observations`.
pub fn family_representative(
    families: &Vec<Family>,
    patch: &String,
    exact: &Composition,
    Ghost(obs): Ghost<Seq<MatchObservation>>,
) -> (r: Composition)
    requires
        families@.len() == board_list(obs).len(),
        is_board_list(obs, board_list(obs)),
        covers(board_list(obs), (patch@, exact@)),
        describes_families(families@, board_list(obs)),
    ensures
        r@ == family_of(obs, patch@, exact@),
{
    let mut j: usize = 0;
    while j < families.len()
        invariant
            0 <= j <= families@.len(),
            families@.len() == board_list(obs).len(),
            covers(board_list(obs), (patch@, exact@)),
            is_board_list(obs, board_list(obs)),
            forall|q: int|
                0 <= q < j ==> !(#[trigger] board_list(obs)[q].0 == patch@ && board_list(obs)[q].2 == exact@),
            describes_families(families@, board_list(obs)),
        decreases families@.len() - j,
    {
        let same_patch = match compare_text(families[j].patch.as_str(), patch.as_str()) {
            Precedence::Same => true,
            _ => false,
        };
        if same_patch {
            if let Precedence::Same = families[j].exact.compare(exact) {
                proof {
                    let bs = board_list(obs);
                    assert(families@[j as int].patch@ == bs[j as int].0);
                    let i = choose|i: int| 0 <= i < bs.len() && bs[i].0 == patch@ && bs[i].2 == exact@;
                    lemma_board_before_strict();
                    assert(bs.contains(bs[i]));
                    assert(bs.contains(bs[j as int]));
                    assert((bs[i].0, bs[i].2) == (patch@, exact@));
                    assert((bs[j as int].0, bs[j as int].2) == (patch@, exact@));
                    assert(is_first_seen(obs, (patch@, exact@), bs[i].1));
                    assert(is_first_seen(obs, (patch@, exact@), bs[j as int].1));
                    lemma_first_seen_unique(obs, (patch@, exact@), bs[i].1, bs[j as int].1);
                    if i < j {
                        assert(board_order()(bs[i], bs[j as int]));
                    } else if j < i {
                        assert(board_order()(bs[j as int], bs[i]));
                    }
                }
                return families[j].representative.duplicate();
            }
        }
        j = j + 1;
    }
    proof {
        let bs = board_list(obs);
        let i = choose|i: int| 0 <= i < bs.len() && #[trigger] bs[i].0 == patch@ && bs[i].2 == exact@;
    }
    exact.duplicate()
}

proof fn lemma_first_joined_joins(
    founders: Seq<(Seq<char>, u64, Seq<Seq<char>>)>,
    b: (Seq<char>, u64, Seq<Seq<char>>),
)
    ensures
        first_joined(founders, b) matches Some(f) ==> joins(f, b) && founders.contains(f),
        first_joined(founders, b) is None ==> forall|i: int| 0 <= i < founders.len() ==> !joins(#[trigger] founders[i], b),
    decreases founders.len(),
{
    if founders.len() > 0 && !joins(founders[0], b) {
        lemma_first_joined_joins(founders.drop_first(), b);
        if let Some(f) = first_joined(founders, b) {
            let j = choose|j: int| 0 <= j < founders.drop_first().len() && founders.drop_first()[j] == f;
            assert(founders[j + 1] == f);
        }
        assert forall|i: int| 0 <= i < founders.len() && first_joined(founders, b) is None implies !joins(#[trigger] founders[i], b) by {
            if i > 0 {
                assert(founders[i] == founders.drop_first()[i - 1]);
            }
        }
    }
    if founders.len() > 0 && joins(founders[0], b) {
        assert(founders.contains(founders[0]));
    }
}

/// A board joins a family of its patch whose founding board shares at least
/// 80% of the larger board's champions, or founds its own family when it is
/// similar to no earlier founder.
pub proof fn lemma_family_is_similar(obs: Seq<MatchObservation>, patch: Seq<char>, exact: Seq<Seq<char>>)
    requires
        covers(board_list(obs), (patch, exact)),
    ensures
        family_of(obs, patch, exact) == exact || similar(family_of(obs, patch, exact), exact),
{
    let bs = board_list(obs);
    assert forall|i: int| 0 <= i < bs.len() && bs[i].0 == patch && bs[i].2 == exact implies (#[trigger] representative(bs, i) == exact
        || similar(representative(bs, i), exact)) by {
        lemma_first_joined_joins(founders(bs.take(i)), bs[i]);
        match first_joined(founders(bs.take(i)), bs[i]) {
            Some(f) => {
                assert(joins(f, bs[i]));
            },
            None => {
            },
        }
    }
}


/// The observations made before time `e`.
pub open spec fn seen_before(e: u64) -> spec_fn(MatchObservation) -> bool {
    |o: MatchObservation| o.timestamp < e
}

/// The visited boards of patch `p`.
spec fn of_patch(p: Seq<char>) -> spec_fn((Seq<char>, u64, Seq<Seq<char>>)) -> bool {
    |x: (Seq<char>, u64, Seq<Seq<char>>)| x.0 == p
}

/// `board_list(obs)` lists every exact board of `obs` once, in visiting order.
pub open spec fn boards_listed(obs: Seq<MatchObservation>) -> bool {
    &&& is_board_list(obs, board_list(obs))
    &&& forall|m: int| 0 <= m < obs.len() ==> covers(board_list(obs), board_of(#[trigger] obs[m]))
}

/// A board first seen before `e` is first seen at the same time in two sets
/// of observations that agree before `e`.
proof fn lemma_first_seen_before(
    obs1: Seq<MatchObservation>,
    obs2: Seq<MatchObservation>,
    e: u64,
    b: (Seq<char>, Seq<Seq<char>>),
    t: u64,
)
    requires
        obs1.filter(seen_before(e)) == obs2.filter(seen_before(e)),
        t < e,
        is_first_seen(obs1, b, t),
    ensures
        is_first_seen(obs2, b, t),
{
    broadcast use vstd::seq_lib::group_seq_properties;
    let k = choose|k: int| 0 <= k < obs1.len() && #[trigger] board_of(obs1[k]) == b && obs1[k].timestamp == t;
    assert(seen_before(e)(obs1[k]));
    assert(obs1.filter(seen_before(e)).contains(obs1[k]));
    obs2.lemma_filter_contains_rev(seen_before(e), obs1[k]);
    let k2 = choose|k2: int| 0 <= k2 < obs2.len() && obs2[k2] == obs1[k];
    assert(board_of(obs2[k2]) == b);
    assert forall|m: int| 0 <= m < obs2.len() && #[trigger] board_of(obs2[m]) == b implies t <= obs2[m].timestamp by {
        if obs2[m].timestamp < e {
            assert(seen_before(e)(obs2[m]));
            assert(obs2.filter(seen_before(e)).contains(obs2[m]));
            obs1.lemma_filter_contains_rev(seen_before(e), obs2[m]);
            let m1 = choose|m1: int| 0 <= m1 < obs1.len() && obs1[m1] == obs2[m];
            assert(board_of(obs1[m1]) == b);
        }
    }
}

/// Only the founders of its own patch can take a board in.
proof fn lemma_first_joined_patch(founders: Seq<(Seq<char>, u64, Seq<Seq<char>>)>, b: (Seq<char>, u64, Seq<Seq<char>>))
    ensures
        first_joined(founders, b) == first_joined(founders.filter(of_patch(b.0)), b),
    decreases founders.len(),
{
    broadcast use vstd::seq_lib::group_seq_properties;
    if founders.len() > 0 {
        let rest = founders.drop_first();
        lemma_first_joined_patch(rest, b);
        assert(founders == seq![founders[0]] + rest);
        rest.lemma_filter_prepend(founders[0], of_patch(b.0));
        let g = founders.filter(of_patch(b.0));
        if of_patch(b.0)(founders[0]) {
            assert(g == seq![founders[0]] + rest.filter(of_patch(b.0)));
            assert(g.len() > 0 && g[0] == founders[0]);
            assert(g.drop_first() == rest.filter(of_patch(b.0)));
        } else {
            assert(g == rest.filter(of_patch(b.0)));
            assert(!joins(founders[0], b));
        }
    }
}

/// The founders of a patch are found among the boards of that patch alone.
proof fn lemma_founders_patch(bs: Seq<(Seq<char>, u64, Seq<Seq<char>>)>, p: Seq<char>)
    ensures
        founders(bs).filter(of_patch(p)) == founders(bs.filter(of_patch(p))),
    decreases bs.len(),
{
    broadcast use vstd::seq_lib::group_seq_properties;
    if bs.len() == 0 {
        reveal(Seq::filter);
    } else {
        let init = bs.drop_last();
        let last = bs.last();
        lemma_founders_patch(init, p);
        let earlier = founders(init);
        assert(bs == init.push(last));
        init.lemma_filter_push(last, of_patch(p));
        earlier.lemma_filter_push(last, of_patch(p));
        if of_patch(p)(last) {
            let kept = bs.filter(of_patch(p));
            assert(kept == init.filter(of_patch(p)).push(last));
            assert(kept.drop_last() == init.filter(of_patch(p)));
            assert(kept.last() == last);
            lemma_first_joined_patch(earlier, last);
        } else {
            assert(bs.filter(of_patch(p)) == init.filter(of_patch(p)));
        }
    }
}

/// The boards of patch `bs[i].0` listed before the `i`-th are those of the
/// list that stand before it in visiting order.
proof fn lemma_earlier_of_patch(bs: Seq<(Seq<char>, u64, Seq<Seq<char>>)>, i: int, x: (Seq<char>, u64, Seq<Seq<char>>))
    requires
        strictly_ordered(bs, board_order()),
        0 <= i < bs.len(),
    ensures
        bs.take(i).filter(of_patch(bs[i].0)).contains(x) <==> (bs.contains(x) && x.0 == bs[i].0 && board_before(
            x,
            bs[i],
        )),
{
    broadcast use vstd::seq_lib::group_seq_properties;
    lemma_board_before_strict();
    let front = bs.take(i);
    let pred = of_patch(bs[i].0);
    if front.filter(pred).contains(x) {
        front.lemma_filter_contains_rev(pred, x);
        let k = choose|k: int| 0 <= k < front.len() && front[k] == x;
        let m = choose|m: int| 0 <= m < front.filter(pred).len() && front.filter(pred)[m] == x;
        front.lemma_filter_pred(pred, m);
        assert(board_order()(bs[k], bs[i]));
        assert(bs[k] == x);
    }
    if bs.contains(x) && x.0 == bs[i].0 && board_before(x, bs[i]) {
        let k = choose|k: int| 0 <= k < bs.len() && bs[k] == x;
        if k > i {
            assert(board_order()(bs[i], bs[k]));
        }
        assert(k != i);
        assert(front[k] == x);
        front.lemma_filter_contains(pred, k);
    }
}

/// An observation made before `e` falls in the same family in two sets of
/// observations that agree before `e`.
pub proof fn lemma_family_agrees_before(
    obs1: Seq<MatchObservation>,
    obs2: Seq<MatchObservation>,
    e: u64,
    o: MatchObservation,
)
    requires
        obs1.filter(seen_before(e)) == obs2.filter(seen_before(e)),
        obs1.contains(o),
        o.timestamp < e,
    ensures
        family_of(obs1, o.patch@, identity(o.units@)) == family_of(obs2, o.patch@, identity(o.units@)),
{
    broadcast use vstd::seq_lib::group_seq_properties;
    lemma_boards_listed(obs1);
    lemma_boards_listed(obs2);
    lemma_board_before_strict();
    let b = board_of(o);
    let patch = o.patch@;
    let exact = identity(o.units@);
    let bs1 = board_list(obs1);
    let bs2 = board_list(obs2);
    let m = choose|m: int| 0 <= m < obs1.len() && obs1[m] == o;
    assert(covers(bs1, board_of(obs1[m])));
    let i1 = choose|i: int| 0 <= i < bs1.len() && bs1[i].0 == patch && bs1[i].2 == exact;
    let x0 = bs1[i1];
    assert(bs1.contains(x0));
    assert(is_first_seen(obs1, b, x0.1));
    assert(board_of(obs1[m]) == b);
    assert(x0.1 < e);
    lemma_first_seen_before(obs1, obs2, e, b, x0.1);
    assert(bs2.contains(x0));
    let i2 = choose|i: int| 0 <= i < bs2.len() && bs2[i].0 == patch && bs2[i].2 == exact;
    assert(bs2.contains(bs2[i2]));
    assert(is_first_seen(obs2, b, bs2[i2].1));
    lemma_first_seen_unique(obs2, b, x0.1, bs2[i2].1);
    assert(bs2[i2] == x0);
    let pred = of_patch(patch);
    let l1 = bs1.take(i1).filter(pred);
    let l2 = bs2.take(i2).filter(pred);
    lemma_take_strictly_ordered(bs1, i1, board_order());
    lemma_take_strictly_ordered(bs2, i2, board_order());
    lemma_filter_strictly_ordered(bs1.take(i1), pred, board_order());
    lemma_filter_strictly_ordered(bs2.take(i2), pred, board_order());
    assert forall|x: (Seq<char>, u64, Seq<Seq<char>>)| l1.contains(x) <==> l2.contains(x) by {
        lemma_earlier_of_patch(bs1, i1, x);
        lemma_earlier_of_patch(bs2, i2, x);
        if x.0 == patch && board_before(x, x0) {
            lemma_text_irreflexive(patch);
            assert(x.1 <= x0.1);
            if bs1.contains(x) {
                assert(is_first_seen(obs1, (x.0, x.2), x.1));
                lemma_first_seen_before(obs1, obs2, e, (x.0, x.2), x.1);
            }
            if bs2.contains(x) {
                assert(is_first_seen(obs2, (x.0, x.2), x.1));
                lemma_first_seen_before(obs2, obs1, e, (x.0, x.2), x.1);
            }
        }
    }
    lemma_strictly_ordered_unique(l1, l2, board_order());
    lemma_first_joined_patch(founders(bs1.take(i1)), x0);
    lemma_first_joined_patch(founders(bs2.take(i2)), x0);
    lemma_founders_patch(bs1.take(i1), patch);
    lemma_founders_patch(bs2.take(i2), patch);
    assert(representative(bs1, i1) == representative(bs2, i2));
    assert forall|i: int| 0 <= i < bs1.len() && bs1[i].0 == patch && bs1[i].2 == exact implies i == i1 by {
        assert(bs1.contains(bs1[i]));
        lemma_first_seen_unique(obs1, b, x0.1, bs1[i].1);
        if i < i1 {
            assert(board_order()(bs1[i], bs1[i1]));
        } else if i > i1 {
            assert(board_order()(bs1[i1], bs1[i]));
        }
    }
    assert forall|i: int| 0 <= i < bs2.len() && bs2[i].0 == patch && bs2[i].2 == exact implies i == i2 by {
        assert(bs2.contains(bs2[i]));
        lemma_first_seen_unique(obs2, b, x0.1, bs2[i].1);
        if i < i2 {
            assert(board_order()(bs2[i], bs2[i2]));
        } else if i > i2 {
            assert(board_order()(bs2[i2], bs2[i]));
        }
    }
}


/// Every exact board seen in `obs` has a first-seen time.
proof fn lemma_first_seen_exists(obs: Seq<MatchObservation>, b: (Seq<char>, Seq<Seq<char>>))
    requires
        exists|k: int| 0 <= k < obs.len() && #[trigger] board_of(obs[k]) == b,
    ensures
        exists|t: u64| is_first_seen(obs, b, t),
    decreases obs.len(),
{
    let n = obs.len() - 1;
    let init = obs.drop_last();
    if exists|k: int| 0 <= k < init.len() && #[trigger] board_of(init[k]) == b {
        lemma_first_seen_exists(init, b);
        let t0 = choose|t: u64| is_first_seen(init, b, t);
        if board_of(obs[n]) == b && obs[n].timestamp < t0 {
            let t = obs[n].timestamp;
            assert forall|m: int| 0 <= m < obs.len() && #[trigger] board_of(obs[m]) == b implies t <= obs[m].timestamp by {
                if m < n {
                    assert(board_of(init[m]) == b);
                }
            }
            assert(is_first_seen(obs, b, t));
        } else {
            let k0 = choose|k: int| 0 <= k < init.len() && #[trigger] board_of(init[k]) == b && init[k].timestamp == t0;
            assert(obs[k0] == init[k0]);
            assert forall|m: int| 0 <= m < obs.len() && #[trigger] board_of(obs[m]) == b implies t0 <= obs[m].timestamp by {
                if m < n {
                    assert(board_of(init[m]) == b);
                }
            }
            assert(is_first_seen(obs, b, t0));
        }
    } else {
        let t = obs[n].timestamp;
        let k = choose|k: int| 0 <= k < obs.len() && #[trigger] board_of(obs[k]) == b;
        if k < n {
            assert(board_of(init[k]) == b);
        }
        assert forall|m: int| 0 <= m < obs.len() && #[trigger] board_of(obs[m]) == b implies t <= obs[m].timestamp by {
            if m < n {
                assert(board_of(init[m]) == b);
            }
        }
        assert(is_first_seen(obs, b, t));
    }
}

/// Listing a finite set repeats none of its elements.
proof fn lemma_to_seq_distinct<A>(s: Set<A>)
    requires
        s.finite(),
    ensures
        s.to_seq().no_duplicates(),
    decreases s.len(),
{
    broadcast use vstd::set::group_set_axioms;
    if s.len() > 0 {
        let x = s.choose();
        let rest = s.remove(x);
        lemma_to_seq_distinct(rest);
        rest.lemma_to_seq_to_set_id();
        let r = rest.to_seq();
        let q = s.to_seq();
        assert(q == Seq::<A>::empty().push(x) + r);
        assert forall|i: int, j: int| 0 <= i < q.len() && 0 <= j < q.len() && i != j implies q[i] != q[j] by {
            if i == 0 {
                assert(r.to_set().contains(r[j - 1]));
            } else if j == 0 {
                assert(r.to_set().contains(r[i - 1]));
            } else {
                assert(r[i - 1] != r[j - 1]);
            }
        }
    }
}

/// `x` is `y` or visited before it.
spec fn board_at_most() -> spec_fn((Seq<char>, u64, Seq<Seq<char>>), (Seq<char>, u64, Seq<Seq<char>>)) -> bool {
    |x: (Seq<char>, u64, Seq<Seq<char>>), y: (Seq<char>, u64, Seq<Seq<char>>)| x == y || board_before(x, y)
}

/// Every sequence of observations has its list of exact boards, and that
/// list holds every board observed.
pub proof fn lemma_boards_listed(obs: Seq<MatchObservation>)
    ensures
        boards_listed(obs),
{
    broadcast use vstd::seq_lib::group_seq_properties, vstd::set::group_set_axioms, vstd::seq_lib::seq_to_set_is_finite, vstd::seq_lib::to_multiset_contains;
    lemma_board_before_strict();
    let firsts = Set::new(|x: (Seq<char>, u64, Seq<Seq<char>>)| is_first_seen(obs, (x.0, x.2), x.1));
    let observed = obs.map_values(|o: MatchObservation| (o.patch@, o.timestamp, identity(o.units@)));
    assert(firsts.subset_of(observed.to_set())) by {
        assert forall|x: (Seq<char>, u64, Seq<Seq<char>>)| firsts.contains(x) implies observed.to_set().contains(x) by {
            let k = choose|k: int| 0 <= k < obs.len() && #[trigger] board_of(obs[k]) == (x.0, x.2) && obs[k].timestamp == x.1;
            assert(observed[k] == x);
        }
    }
    vstd::set_lib::lemma_set_subset_finite(observed.to_set(), firsts);
    let q = firsts.to_seq();
    lemma_to_seq_distinct(firsts);
    firsts.lemma_to_seq_to_set_id();
    let leq = board_at_most();
    assert(vstd::relations::total_ordering(leq)) by {
        assert forall|x: (Seq<char>, u64, Seq<Seq<char>>), y: (Seq<char>, u64, Seq<Seq<char>>)|
            #[trigger] leq(x, y) && #[trigger] leq(y, x) implies x == y by {
            if x != y {
                assert(board_order()(x, y));
            }
        }
        assert forall|
            x: (Seq<char>, u64, Seq<Seq<char>>),
            y: (Seq<char>, u64, Seq<Seq<char>>),
            z: (Seq<char>, u64, Seq<Seq<char>>),
        | #[trigger] leq(x, y) && #[trigger] leq(y, z) implies leq(x, z) by {
            if x != y && y != z {
                assert(board_before(x, y) && board_before(y, z));
            }
        }
        assert forall|x: (Seq<char>, u64, Seq<Seq<char>>), y: (Seq<char>, u64, Seq<Seq<char>>)|
            #[trigger] leq(x, y) || #[trigger] leq(y, x) by {
            if x != y {
                assert(board_before(x, y) || board_before(y, x));
            }
        }
    }
    q.lemma_sort_by_ensures(leq);
    let r = q.sort_by(leq);
    q.lemma_multiset_has_no_duplicates();
    r.lemma_multiset_has_no_duplicates_conv();
    assert forall|x: (Seq<char>, u64, Seq<Seq<char>>)| #[trigger] r.contains(x) <==> is_first_seen(obs, (x.0, x.2), x.1) by {
        assert(r.contains(x) <==> r.to_multiset().count(x) > 0);
        assert(q.contains(x) <==> q.to_multiset().count(x) > 0);
        assert(q.contains(x) <==> q.to_set().contains(x));
    }
    assert forall|i: int, j: int| 0 <= i < j < r.len() implies #[trigger] board_order()(r[i], r[j]) by {
        assert(leq(r[i], r[j]));
    }
    assert(is_board_list(obs, r));
    let bs = board_list(obs);
    assert(is_board_list(obs, bs));
    assert forall|m: int| 0 <= m < obs.len() implies covers(bs, board_of(#[trigger] obs[m])) by {
        lemma_first_seen_exists(obs, board_of(obs[m]));
        let tm = choose|tm: u64| is_first_seen(obs, board_of(obs[m]), tm);
        let x = (obs[m].patch@, tm, identity(obs[m].units@));
        assert(bs.contains(x));
        let i = choose|i: int| 0 <= i < bs.len() && bs[i] == x;
        assert(bs[i].0 == board_of(obs[m]).0 && bs[i].2 == board_of(obs[m]).1);
    }
}

} // verus!
