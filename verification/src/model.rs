//! Player-match observations and the identity of a composition.
use vstd::prelude::*;
use vstd::string::*;

use crate::sorting::{
    TotalPreorder, lemma_rearrangement_contains, lemma_rearrangement_keeps, stable_sort,
};
use crate::text::{
    Precedence, compare_text, compare_texts, texts_before, lemma_text_asymmetric, lemma_text_irreflexive, lemma_text_total,
    lemma_text_transitive, text_before, texts_of,
};

verus! {

/// One unit on a final board.
#[derive(Debug, Clone, PartialEq, Eq)]
pub struct UnitObservation {
    pub champion: String,
    pub star_level: u8,
    pub items: Vec<String>,
}

/// The views of a vector of string slices.
pub open spec fn strs_of(v: Seq<&str>) -> Seq<Seq<char>> {
    v.map_values(|s: &str| s@)
}

/// Copies each string slice into an owned string.
pub fn owned_strings(v: Vec<&str>) -> (r: Vec<String>)
    ensures
        texts_of(r@) == strs_of(v@),
{
    let mut r: Vec<String> = Vec::new();
    let mut i: usize = 0;
    while i < v.len()
        invariant
            0 <= i <= v@.len(),
            r@.len() == i,
            forall|k: int| 0 <= k < i ==> #[trigger] r@[k]@ == v@[k]@,
        decreases v@.len() - i,
    {
        r.push(v[i].to_owned());
        i = i + 1;
    }
    assert(texts_of(r@) =~= strs_of(v@));
    r
}

impl UnitObservation {
    pub fn new(champion: &str, star_level: u8, items: Vec<&str>) -> (unit: Self)
        ensures
            unit.champion@ == champion@,
            unit.star_level == star_level,
            texts_of(unit.items@) == strs_of(items@),
    {
        UnitObservation { champion: champion.to_owned(), star_level, items: owned_strings(items) }
    }
}

/// One player's result in one match.
#[derive(Debug, Clone, PartialEq, Eq)]
pub struct MatchObservation {
    pub player_id: String,
    pub patch: String,
    pub timestamp: u64,
    pub placement: u8,
    pub units: Vec<UnitObservation>,
    pub traits: Vec<String>,
    pub augments: Vec<String>,
}

impl UnitObservation {
    pub fn clone_unit(&self) -> (r: UnitObservation)
        ensures
            r.champion@ == self.champion@,
            r.star_level == self.star_level,
            texts_of(r.items@) == texts_of(self.items@),
    {
        UnitObservation {
            champion: self.champion.clone(),
            star_level: self.star_level,
            items: copy_strings(&self.items),
        }
    }
}

/// The two unit lists hold equal units.
pub open spec fn same_units(a: Seq<UnitObservation>, b: Seq<UnitObservation>) -> bool {
    &&& a.len() == b.len()
    &&& forall|k: int|
        0 <= k < a.len() ==> {
            &&& (#[trigger] a[k]).champion@ == b[k].champion@
            &&& a[k].star_level == b[k].star_level
            &&& texts_of(a[k].items@) == texts_of(b[k].items@)
        }
}

impl MatchObservation {
    pub fn clone_observation(&self) -> (r: MatchObservation)
        ensures
            r.player_id@ == self.player_id@,
            r.patch@ == self.patch@,
            r.timestamp == self.timestamp,
            r.placement == self.placement,
            same_units(r.units@, self.units@),
            texts_of(r.traits@) == texts_of(self.traits@),
            texts_of(r.augments@) == texts_of(self.augments@),
    {
        let mut units: Vec<UnitObservation> = Vec::new();
        let mut i: usize = 0;
        while i < self.units.len()
            invariant
                0 <= i <= self.units@.len(),
                units@.len() == i,
                forall|k: int|
                    0 <= k < i ==> {
                        &&& (#[trigger] units@[k]).champion@ == self.units@[k].champion@
                        &&& units@[k].star_level == self.units@[k].star_level
                        &&& texts_of(units@[k].items@) == texts_of(self.units@[k].items@)
                    },
            decreases self.units@.len() - i,
        {
            units.push(self.units[i].clone_unit());
            i = i + 1;
        }
        MatchObservation {
            player_id: self.player_id.clone(),
            patch: self.patch.clone(),
            timestamp: self.timestamp,
            placement: self.placement,
            units,
            traits: copy_strings(&self.traits),
            augments: copy_strings(&self.augments),
        }
    }
}

impl MatchObservation {
    /// Builds an observation; a placement lies between 1 and 8.
    pub fn new(
        player_id: &str,
        patch: &str,
        timestamp: u64,
        placement: u8,
        units: Vec<UnitObservation>,
        traits: Vec<&str>,
        augments: Vec<&str>,
    ) -> (observation: Self)
        requires
            1 <= placement <= 8,
        ensures
            observation.player_id@ == player_id@,
            observation.patch@ == patch@,
            observation.timestamp == timestamp,
            observation.placement == placement,
            observation.units@ == units@,
            texts_of(observation.traits@) == strs_of(traits@),
            texts_of(observation.augments@) == strs_of(augments@),
    {
        MatchObservation {
            player_id: player_id.to_owned(),
            patch: patch.to_owned(),
            timestamp,
            placement,
            units,
            traits: owned_strings(traits),
            augments: owned_strings(augments),
        }
    }
}

/// The current, deliberately simple identity for a composition.
///
/// Champion names are sorted and deduplicated, so unit order, star levels,
/// and items do not affect identity yet.
#[derive(Debug, PartialEq, Eq, Hash, PartialOrd, Ord)]
pub struct Composition {
    champions: Vec<String>,
}

impl Composition {
    /// A composition lists its champions once each, in lexicographic order.
    #[verifier::type_invariant]
    spec fn well_formed(self) -> bool {
        strictly_sorted(texts_of(self.champions@))
    }
}

impl Clone for Composition {
    fn clone(&self) -> (r: Self)
        ensures
            r@ == self@,
    {
        self.duplicate()
    }
}

impl View for Composition {
    type V = Seq<Seq<char>>;

    closed spec fn view(&self) -> Seq<Seq<char>> {
        texts_of(self.champions@)
    }
}

/// Each text stands strictly before the next.
pub open spec fn strictly_sorted(s: Seq<Seq<char>>) -> bool {
    forall|i: int, j: int| 0 <= i < j < s.len() ==> #[trigger] text_before(s[i], s[j])
}

/// Some unit on the board is this champion.
pub open spec fn fields_champion(units: Seq<UnitObservation>, name: Seq<char>) -> bool {
    exists|k: int| 0 <= k < units.len() && #[trigger] units[k].champion@ == name
}

/// `names` is the identity of a board with these units: its champions, each
/// once, in lexicographic order.
pub open spec fn is_identity_of(names: Seq<Seq<char>>, units: Seq<UnitObservation>) -> bool {
    &&& strictly_sorted(names)
    &&& forall|t: Seq<char>| #[trigger] names.contains(t) <==> fields_champion(units, t)
}

/// The identity of a board with these units.
pub open spec fn identity(units: Seq<UnitObservation>) -> Seq<Seq<char>> {
    choose|names: Seq<Seq<char>>| is_identity_of(names, units)
}

pub proof fn lemma_identity_is(names: Seq<Seq<char>>, units: Seq<UnitObservation>)
    requires
        is_identity_of(names, units),
    ensures
        identity(units) == names,
{
    let other = identity(units);
    assert(is_identity_of(other, units));
    lemma_strictly_sorted_unique(names, other);
}

/// The number of champions of `a` that `b` also holds.
pub open spec fn shared_count(a: Seq<Seq<char>>, b: Seq<Seq<char>>) -> nat {
    a.filter(|t: Seq<char>| b.contains(t)).len()
}

/// The two boards share at least 80% of the larger board's champions.
pub open spec fn similar(a: Seq<Seq<char>>, b: Seq<Seq<char>>) -> bool {
    let larger = if a.len() >= b.len() {
        a.len()
    } else {
        b.len()
    };
    larger > 0 && 5 * shared_count(a, b) >= 4 * larger
}

/// Two boards are similar exactly when the champions they share are at
/// least 80 percent of the larger board's champions (and that board is not
/// empty).
pub proof fn lemma_similar_means_eighty_percent(a: Seq<Seq<char>>, b: Seq<Seq<char>>)
    ensures
        similar(a, b) <==> {
            let larger = if a.len() >= b.len() {
                a.len()
            } else {
                b.len()
            };
            larger > 0 && shared_count(a, b) * 100 >= larger * 80
        },
{
}

/// The champions of `a` that `b` holds and those it does not together make
/// up all of `a`; a board shares all its champions with itself.
pub proof fn lemma_shared_count_splits(a: Seq<Seq<char>>, b: Seq<Seq<char>>)
    ensures
        shared_count(a, b) + a.filter(|t: Seq<char>| !b.contains(t)).len() == a.len(),
        shared_count(a, a) == a.len(),
    decreases a.len(),
{
    reveal(Seq::filter);
    if a.len() > 0 {
        lemma_shared_count_splits(a.drop_last(), b);
        crate::sorting::lemma_filter_all(a, |t: Seq<char>| a.contains(t));
    } else {
        assert(a.filter(|t: Seq<char>| a.contains(t)).len() == 0);
    }
}

/// The texts joined, with `sep` between neighbours.
pub open spec fn joined(parts: Seq<Seq<char>>, sep: Seq<char>) -> Seq<char>
    decreases parts.len(),
{
    if parts.len() == 0 {
        Seq::empty()
    } else if parts.len() == 1 {
        parts[0]
    } else {
        joined(parts.drop_last(), sep) + sep + parts.last()
    }
}

/// Whether `v` holds a string equal to `s`.
pub fn contains_text(v: &Vec<String>, s: &String) -> (r: bool)
    ensures
        r == texts_of(v@).contains(s@),
{
    let mut i: usize = 0;
    while i < v.len()
        invariant
            0 <= i <= v@.len(),
            forall|k: int| 0 <= k < i ==> #[trigger] v@[k]@ != s@,
        decreases v@.len() - i,
    {
        if let Precedence::Same = compare_text(v[i].as_str(), s.as_str()) {
            assert(texts_of(v@)[i as int] == s@);
            return true;
        }
        i = i + 1;
    }
    proof {
        if texts_of(v@).contains(s@) {
            let k = choose|k: int| 0 <= k < texts_of(v@).len() && texts_of(v@)[k] == s@;
            assert(v@[k]@ == s@);
        }
    }
    false
}

/// Copies a vector of strings.
pub fn copy_strings(v: &Vec<String>) -> (r: Vec<String>)
    ensures
        texts_of(r@) == texts_of(v@),
{
    let mut r: Vec<String> = Vec::new();
    let mut i: usize = 0;
    while i < v.len()
        invariant
            0 <= i <= v@.len(),
            r@.len() == i,
            forall|k: int| 0 <= k < i ==> #[trigger] r@[k]@ == v@[k]@,
        decreases v@.len() - i,
    {
        r.push(v[i].clone());
        i = i + 1;
    }
    assert(texts_of(r@) =~= texts_of(v@));
    r
}

/// Two strictly sorted sequences with the same elements are equal.
pub proof fn lemma_strictly_sorted_unique(a: Seq<Seq<char>>, b: Seq<Seq<char>>)
    requires
        strictly_sorted(a),
        strictly_sorted(b),
        forall|t: Seq<char>| a.contains(t) <==> b.contains(t),
    ensures
        a == b,
    decreases a.len(),
{
    if a.len() == 0 {
        if b.len() > 0 {
            assert(b.contains(b[0]));
        }
        assert(a =~= b);
    } else {
        assert(a.contains(a[0]));
        assert(b.len() > 0);
        assert(b.contains(b[0]));
        let ka = choose|k: int| 0 <= k < a.len() && a[k] == b[0];
        let kb = choose|k: int| 0 <= k < b.len() && b[k] == a[0];
        if ka > 0 {
            assert(text_before(a[0], a[ka]));
            if kb > 0 {
                assert(text_before(b[0], b[kb]));
                lemma_text_asymmetric(a[0], b[0]);
            }
            lemma_text_irreflexive(a[0]);
        }
        if kb > 0 {
            assert(text_before(b[0], b[kb]));
            lemma_text_irreflexive(b[0]);
        }
        assert(a[0] == b[0]);
        let ra = a.drop_first();
        let rb = b.drop_first();
        assert forall|t: Seq<char>| ra.contains(t) <==> rb.contains(t) by {
            if ra.contains(t) {
                let k = choose|k: int| 0 <= k < ra.len() && ra[k] == t;
                assert(text_before(a[0], a[k + 1]));
                lemma_text_irreflexive(t);
                assert(a.contains(t));
                assert(b.contains(t));
                let j = choose|j: int| 0 <= j < b.len() && b[j] == t;
                assert(j != 0);
                assert(rb[j - 1] == t);
            }
            if rb.contains(t) {
                let k = choose|k: int| 0 <= k < rb.len() && rb[k] == t;
                assert(text_before(b[0], b[k + 1]));
                lemma_text_irreflexive(t);
                assert(b.contains(t));
                assert(a.contains(t));
                let j = choose|j: int| 0 <= j < a.len() && a[j] == t;
                assert(j != 0);
                assert(ra[j - 1] == t);
            }
        }
        lemma_strictly_sorted_unique(ra, rb);
        assert(a =~= seq![a[0]] + ra);
        assert(b =~= seq![b[0]] + rb);
    }
}

/// Orders strings lexicographically.
pub struct TextOrder;

impl TotalPreorder<String> for TextOrder {
    open spec fn precedes(&self, a: String, b: String) -> bool {
        a@ == b@ || text_before(a@, b@)
    }

    fn precedes_exec(&self, a: &String, b: &String) -> (r: bool) {
        match compare_text(a.as_str(), b.as_str()) {
            Precedence::After => false,
            _ => true,
        }
    }

    proof fn lemma_total_preorder(&self) {
        assert forall|a: String, b: String|
            #[trigger] self.precedes(a, b) || self.precedes(b, a) by {
            lemma_text_total(a@, b@);
        }
        assert forall|a: String, b: String, c: String|
            #[trigger] self.precedes(a, b) && #[trigger] self.precedes(b, c) implies self.precedes(
            a,
            c,
        ) by {
            lemma_text_transitive(a@, b@, c@);
        }
    }
}

impl Composition {
    pub fn from_units(units: &[UnitObservation]) -> (composition: Self)
        ensures
            is_identity_of(composition@, units@),
            composition@ == identity(units@),
    {
        let mut champions: Vec<String> = Vec::new();
        let mut i: usize = 0;
        while i < units.len()
            invariant
                0 <= i <= units@.len(),
                champions@.len() == i,
                forall|k: int| 0 <= k < i ==> #[trigger] champions@[k]@ == units@[k].champion@,
            decreases units@.len() - i,
        {
            champions.push(units[i].champion.clone());
            i = i + 1;
        }
        let ghost collected = champions@;
        let order = TextOrder;
        stable_sort(&mut champions, &order);
        let ghost sorted = champions@;
        // remove adjacent duplicates
        let mut names: Vec<String> = Vec::new();
        let mut j: usize = 0;
        while j < champions.len()
            invariant
                champions@ == sorted,
                0 <= j <= sorted.len(),
                crate::sorting::sorted_under(order, sorted),
                strictly_sorted(texts_of(names@)),
                names@.len() > 0 ==> j > 0 && names@.last()@ == sorted[j - 1]@,
                forall|t: Seq<char>|
                    #[trigger] texts_of(names@).contains(t) <==> exists|k: int|
                        0 <= k < j && sorted[k]@ == t,
            decreases sorted.len() - j,
        {
            let ghost before = names@;
            let is_new = names.len() == 0 || {
                let last = names.len() - 1;
                match compare_text(names[last].as_str(), champions[j].as_str()) {
                    Precedence::Same => false,
                    _ => true,
                }
            };
            if is_new {
                names.push(champions[j].clone());
                proof {
                    if before.len() > 0 {
                        assert(order.precedes(sorted[j - 1], sorted[j as int]));
                        assert forall|a: int, b: int|
                            0 <= a < b < names@.len() implies #[trigger] text_before(
                            texts_of(names@)[a],
                            texts_of(names@)[b],
                        ) by {
                            if b == names@.len() - 1 && a < b {
                                if a < before.len() - 1 {
                                    assert(text_before(
                                        texts_of(before)[a],
                                        texts_of(before)[before.len() - 1],
                                    ));
                                    lemma_text_transitive(
                                        before[a]@,
                                        before[before.len() - 1]@,
                                        sorted[j as int]@,
                                    );
                                }
                            } else {
                                assert(texts_of(names@)[a] == texts_of(before)[a]);
                                assert(texts_of(names@)[b] == texts_of(before)[b]);
                            }
                        }
                    }
                    assert(texts_of(names@) =~= texts_of(before).push(sorted[j as int]@));
                    assert forall|t: Seq<char>|
                        #[trigger] texts_of(names@).contains(t) <==> exists|k: int|
                            0 <= k < j + 1 && sorted[k]@ == t by {
                        if texts_of(names@).contains(t) {
                            let q = choose|q: int|
                                0 <= q < texts_of(names@).len() && texts_of(names@)[q] == t;
                            if q < before.len() {
                                assert(texts_of(before).contains(t));
                            }
                        }
                        if exists|k: int| 0 <= k < j + 1 && sorted[k]@ == t {
                            let k = choose|k: int| 0 <= k < j + 1 && sorted[k]@ == t;
                            if k < j {
                                assert(texts_of(before).contains(t));
                                let q = choose|q: int|
                                    0 <= q < texts_of(before).len() && texts_of(before)[q] == t;
                                assert(texts_of(names@)[q] == t);
                            } else {
                                assert(texts_of(names@)[names@.len() - 1] == t);
                            }
                        }
                    }
                }
            } else {
                proof {
                    assert forall|t: Seq<char>|
                        #[trigger] texts_of(names@).contains(t) <==> exists|k: int|
                            0 <= k < j + 1 && sorted[k]@ == t by {
                        if exists|k: int| 0 <= k < j + 1 && sorted[k]@ == t {
                            let k = choose|k: int| 0 <= k < j + 1 && sorted[k]@ == t;
                            if k == j {
                                assert(texts_of(names@)[names@.len() - 1] == t);
                            }
                        }
                    }
                }
            }
            j = j + 1;
        }
        proof {
            assert forall|t: Seq<char>|
                #[trigger] texts_of(names@).contains(t) <==> fields_champion(units@, t) by {
                if texts_of(names@).contains(t) {
                    let k = choose|k: int| 0 <= k < sorted.len() && sorted[k]@ == t;
                    lemma_rearrangement_contains(order, sorted, collected, k);
                    let m = choose|m: int| 0 <= m < collected.len() && collected[m] == sorted[k];
                    assert(units@[m].champion@ == t);
                }
                if fields_champion(units@, t) {
                    let m = choose|m: int| 0 <= m < units@.len() && units@[m].champion@ == t;
                    lemma_rearrangement_keeps(order, sorted, collected, m);
                    let k = choose|k: int| 0 <= k < sorted.len() && sorted[k] == collected[m];
                    assert(sorted[k]@ == t);
                }
            }
        }
        proof {
            lemma_identity_is(texts_of(names@), units@);
        }
        Composition { champions: names }
    }

    /// Orders compositions lexicographically by their champion lists.
    pub fn compare(&self, other: &Composition) -> (r: Precedence)
        ensures
            (r == Precedence::Before) == texts_before(self@, other@),
            (r == Precedence::Same) == (self@ == other@),
            (r == Precedence::After) == texts_before(other@, self@),
    {
        compare_texts(&self.champions, &other.champions)
    }

    pub fn duplicate(&self) -> (r: Composition)
        ensures
            r@ == self@,
    {
        proof {
            use_type_invariant(self);
        }
        Composition { champions: copy_strings(&self.champions) }
    }

    /// The number of champions that both boards hold.
    pub fn shared_champions(&self, other: &Composition) -> (n: usize)
        ensures
            n == shared_count(self@, other@),
    {
        let ghost a = self@;
        let ghost b = other@;
        let ghost pred = |t: Seq<char>| b.contains(t);
        let mut n: usize = 0;
        let mut i: usize = 0;
        assert(a.take(0).filter(pred) =~= Seq::<Seq<char>>::empty()) by {
            reveal(Seq::filter);
        }
        while i < self.champions.len()
            invariant
                a == self@,
                b == other@,
                pred == (|t: Seq<char>| b.contains(t)),
                a.len() == self.champions@.len(),
                0 <= i <= a.len(),
                n == a.take(i as int).filter(pred).len(),
                n <= i,
            decreases a.len() - i,
        {
            let hit = contains_text(&other.champions, &self.champions[i]);
            assert(a.take(i + 1) =~= a.take(i as int).push(a[i as int]));
            proof { a.take(i as int).lemma_filter_push(a[i as int], pred); }
            if hit {
                n = n + 1;
            }
            i = i + 1;
        }
        assert(a.take(a.len() as int) =~= a);
        n
    }

    /// Whether the two boards share at least 80% of the larger board's
    /// champions.
    pub fn is_similar_to(&self, other: &Composition) -> (r: bool)
        ensures
            r == similar(self@, other@),
    {
        let shared = self.shared_champions(other);
        let larger = if self.champions.len() >= other.champions.len() {
            self.champions.len()
        } else {
            other.champions.len()
        };
        larger > 0 && (shared as u128) * 5 >= (larger as u128) * 4
    }

    /// The champions joined by ", ".
    pub fn to_string(&self) -> (r: String)
        ensures
            r@ == joined(self@, seq![',', ' ']),
    {
        let ghost parts = self@;
        let mut r = String::new();
        let mut i: usize = 0;
        while i < self.champions.len()
            invariant
                parts == self@,
                parts.len() == self.champions@.len(),
                0 <= i <= parts.len(),
                r@ == joined(parts.take(i as int), seq![',', ' ']),
            decreases parts.len() - i,
        {
            proof {
                reveal_strlit(", ");
            }
            if i > 0 {
                r.append(", ");
            }
            r.append(self.champions[i].as_str());
            assert(parts.take(i + 1).drop_last() =~= parts.take(i as int));
            assert(parts[i as int] == self.champions@[i as int]@);
            if i == 0 {
                assert(parts.take(0) =~= Seq::<Seq<char>>::empty());
                assert(r@ =~= parts.take(1)[0]);
            } else {
                assert(r@ =~= joined(parts.take(i as int), seq![',', ' ']) + seq![',', ' ']
                    + parts[i as int]);
            }
            i = i + 1;
        }
        assert(parts.take(parts.len() as int) =~= parts);
        r
    }

    /// The champions, each once, in lexicographic order.
    pub fn champions(&self) -> (names: &[String])
        ensures
            texts_of(names@) == self@,
            strictly_sorted(texts_of(names@)),
    {
        proof {
            use_type_invariant(self);
        }
        self.champions.as_slice()
    }
}

/// The position at which `t` goes into the strictly sorted `names`, which do
/// not hold it.
proof fn lemma_insert_position(names: Seq<Seq<char>>, t: Seq<char>) -> (i: int)
    requires
        strictly_sorted(names),
        !names.contains(t),
    ensures
        0 <= i <= names.len(),
        forall|j: int| 0 <= j < i ==> text_before(#[trigger] names[j], t),
        forall|j: int| i <= j < names.len() ==> text_before(t, #[trigger] names[j]),
    decreases names.len(),
{
    if names.len() == 0 {
        0
    } else {
        let last = names.last();
        assert(names.contains(last));
        lemma_text_total(last, t);
        if text_before(last, t) {
            assert forall|j: int| 0 <= j < names.len() implies text_before(#[trigger] names[j], t) by {
                if j < names.len() - 1 {
                    crate::text::lemma_text_transitive(names[j], last, t);
                }
            }
            names.len() as int
        } else {
            let rest = names.drop_last();
            assert forall|x: Seq<char>| rest.contains(x) implies names.contains(x) by {
                let j = choose|j: int| 0 <= j < rest.len() && rest[j] == x;
                assert(names[j] == x);
            }
            let i = lemma_insert_position(rest, t);
            assert forall|j: int| i <= j < names.len() implies text_before(t, #[trigger] names[j]) by {
                if j < names.len() - 1 {
                    assert(names[j] == rest[j]);
                }
            }
            assert forall|j: int| 0 <= j < i implies text_before(#[trigger] names[j], t) by {
                assert(names[j] == rest[j]);
            }
            i
        }
    }
}

/// Every board has an identity.
pub proof fn lemma_identity_exists(units: Seq<UnitObservation>)
    ensures
        is_identity_of(identity(units), units),
    decreases units.len(),
{
    let names = identity_witness(units);
    assert(is_identity_of(names, units));
}

proof fn identity_witness(units: Seq<UnitObservation>) -> (names: Seq<Seq<char>>)
    ensures
        is_identity_of(names, units),
    decreases units.len(),
{
    if units.len() == 0 {
        let names = Seq::<Seq<char>>::empty();
        assert forall|t: Seq<char>| #[trigger] names.contains(t) <==> fields_champion(units, t) by {
        }
        names
    } else {
        let rest = units.drop_last();
        let earlier = identity_witness(rest);
        let c = units.last().champion@;
        assert forall|t: Seq<char>| fields_champion(units, t) <==> (fields_champion(rest, t) || t == c) by {
            if fields_champion(units, t) {
                let k = choose|k: int| 0 <= k < units.len() && #[trigger] units[k].champion@ == t;
                if k < units.len() - 1 {
                    assert(rest[k].champion@ == t);
                }
            }
            if fields_champion(rest, t) {
                let k = choose|k: int| 0 <= k < rest.len() && #[trigger] rest[k].champion@ == t;
                assert(units[k].champion@ == t);
            }
            if t == c {
                assert(units[units.len() - 1].champion@ == t);
            }
        }
        if earlier.contains(c) {
            earlier
        } else {
            let i = lemma_insert_position(earlier, c);
            let names = earlier.insert(i, c);
            assert forall|a: int, b: int| 0 <= a < b < names.len() implies #[trigger] text_before(names[a], names[b]) by {
                if b < i {
                    assert(names[a] == earlier[a] && names[b] == earlier[b]);
                } else if b == i {
                    assert(names[a] == earlier[a]);
                } else if a < i {
                    assert(names[a] == earlier[a] && names[b] == earlier[b - 1]);
                    crate::text::lemma_text_transitive(earlier[a], c, earlier[b - 1]);
                } else if a == i {
                    assert(names[b] == earlier[b - 1]);
                } else {
                    assert(names[a] == earlier[a - 1] && names[b] == earlier[b - 1]);
                }
            }
            assert forall|t: Seq<char>| #[trigger] names.contains(t) <==> fields_champion(units, t) by {
                if names.contains(t) {
                    let j = choose|j: int| 0 <= j < names.len() && names[j] == t;
                    if j < i {
                        assert(earlier[j] == t);
                        assert(earlier.contains(t));
                    } else if j > i {
                        assert(earlier[j - 1] == t);
                        assert(earlier.contains(t));
                    }
                }
                if earlier.contains(t) {
                    let j = choose|j: int| 0 <= j < earlier.len() && earlier[j] == t;
                    if j < i {
                        assert(names[j] == t);
                    } else {
                        assert(names[j + 1] == t);
                    }
                }
                if t == c {
                    assert(names[i] == t);
                }
            }
            names
        }
    }
}

/// A composition's identity depends only on which champions the board
/// fields: the order of the units, repeated champions, star levels and items
/// do not change it. The identity lists each fielded champion once, in
/// lexicographic order.
pub proof fn lemma_identity_depends_on_champions(a: Seq<UnitObservation>, b: Seq<UnitObservation>)
    requires
        forall|t: Seq<char>| fields_champion(a, t) <==> fields_champion(b, t),
    ensures
        identity(a) == identity(b),
        strictly_sorted(identity(a)),
        forall|t: Seq<char>| identity(a).contains(t) <==> fields_champion(a, t),
{
    lemma_identity_exists(a);
    assert(is_identity_of(identity(a), b));
    lemma_identity_is(identity(a), b);
}

} // verus!
