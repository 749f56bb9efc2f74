//! Riot match data, as the library reads it.
use vstd::prelude::*;
use vstd::string::*;

use crate::model::{MatchObservation, UnitObservation, copy_strings};
use crate::text::texts_of;

verus! {

/// `char::is_whitespace`: the Unicode White_Space property.
pub open spec fn is_space(c: char) -> bool {
    let v = c as int;
    ||| 0x9 <= v <= 0xd
    ||| v == 0x20
    ||| v == 0x85
    ||| v == 0xa0
    ||| v == 0x1680
    ||| 0x2000 <= v <= 0x200a
    ||| v == 0x2028
    ||| v == 0x2029
    ||| v == 0x202f
    ||| v == 0x205f
    ||| v == 0x3000
}

fn is_space_exec(c: char) -> (r: bool)
    ensures
        r == is_space(c),
{
    let v = c as u32;
    (0x9 <= v && v <= 0xd) || v == 0x20 || v == 0x85 || v == 0xa0 || v == 0x1680 || (0x2000 <= v
        && v <= 0x200a) || v == 0x2028 || v == 0x2029 || v == 0x202f || v == 0x205f || v == 0x3000
}

/// The end of the whitespace-free run that starts at `i`.
pub open spec fn token_end(s: Seq<char>, i: int) -> int
    decreases s.len() - i,
{
    if i < 0 || i >= s.len() || is_space(s[i]) {
        i
    } else {
        token_end(s, i + 1)
    }
}

/// The whitespace-separated tokens of `s` from position `i` on.
pub open spec fn tokens_from(s: Seq<char>, i: int) -> Seq<Seq<char>>
    decreases s.len() - i,
{
    if i < 0 || i >= s.len() {
        Seq::empty()
    } else if is_space(s[i]) {
        tokens_from(s, i + 1)
    } else {
        let e = token_end(s, i);
        if e <= i || e > s.len() {
            Seq::empty()
        } else {
            seq![s.subrange(i, e)] + tokens_from(s, e)
        }
    }
}

pub open spec fn is_ascii_digit(c: char) -> bool {
    '0' <= c && c <= '9'
}

/// A token that looks like a version: it holds a dot and starts with a digit.
pub open spec fn is_version_token(t: Seq<char>) -> bool {
    t.contains('.') && t.len() > 0 && is_ascii_digit(t[0])
}

/// The first version token.
pub open spec fn first_version_token(tokens: Seq<Seq<char>>) -> Option<Seq<char>>
    decreases tokens.len(),
{
    if tokens.len() == 0 {
        None
    } else if is_version_token(tokens[0]) {
        Some(tokens[0])
    } else {
        first_version_token(tokens.drop_first())
    }
}

/// The index of the first `c` in `t` at or after `i`, or `t.len()`.
pub open spec fn next_index_of(t: Seq<char>, c: char, i: int) -> int
    decreases t.len() - i,
{
    if i < 0 || i >= t.len() || t[i] == c {
        i
    } else {
        next_index_of(t, c, i + 1)
    }
}

/// The first two dot-separated parts of a version: everything before its
/// second dot.
pub open spec fn major_minor(t: Seq<char>) -> Seq<char> {
    let first = next_index_of(t, '.', 0);
    t.subrange(0, next_index_of(t, '.', first + 1))
}

/// The patch of a game version: the first two parts of its first version
/// token, or the whole text where no token looks like a version.
pub open spec fn patch_of(game_version: Seq<char>) -> Seq<char> {
    match first_version_token(tokens_from(game_version, 0)) {
        Some(t) => major_minor(t),
        None => game_version,
    }
}

proof fn lemma_token_end_bounds(s: Seq<char>, i: int)
    requires
        0 <= i <= s.len(),
    ensures
        i <= token_end(s, i) <= s.len(),
        forall|k: int| i <= k < token_end(s, i) ==> !is_space(#[trigger] s[k]),
        token_end(s, i) < s.len() ==> is_space(s[token_end(s, i)]),
    decreases s.len() - i,
{
    if i < s.len() && !is_space(s[i]) {
        lemma_token_end_bounds(s, i + 1);
    }
}

proof fn lemma_next_index_bounds(t: Seq<char>, c: char, i: int)
    requires
        0 <= i <= t.len(),
    ensures
        i <= next_index_of(t, c, i) <= t.len(),
        forall|k: int| i <= k < next_index_of(t, c, i) ==> #[trigger] t[k] != c,
        next_index_of(t, c, i) < t.len() ==> t[next_index_of(t, c, i)] == c,
    decreases t.len() - i,
{
    if i < t.len() && t[i] != c {
        lemma_next_index_bounds(t, c, i + 1);
    }
}

/// The index of the next `c` in `s` at or after `i`.
fn next_index(s: &str, len: usize, c: char, i: usize) -> (r: usize)
    requires
        len == s@.len(),
        i <= len,
    ensures
        r == next_index_of(s@, c, i as int),
{
    let mut k = i;
    while k < len
        invariant
            i <= k <= len,
            len == s@.len(),
            next_index_of(s@, c, k as int) == next_index_of(s@, c, i as int),
        decreases len - k,
    {
        if s.get_char(k) == c {
            return k;
        }
        k = k + 1;
    }
    k
}

/// Extracts the patch, such as "16.15", from a Riot game version.
pub fn patch_from_game_version(game_version: &str) -> (patch: String)
    ensures
        patch@ == patch_of(game_version@),
{
    let ghost s = game_version@;
    let len = game_version.unicode_len();
    let mut i: usize = 0;
    // tokens_from(s, i) holds the tokens yet to be examined
    while i < len
        invariant
            len == s.len(),
            s == game_version@,
            0 <= i <= len,
            first_version_token(tokens_from(s, 0)) == first_version_token(tokens_from(s, i as int)),
        decreases len - i,
    {
        let c = game_version.get_char(i);
        if is_space_exec(c) {
            i = i + 1;
        } else {
            let mut e = i;
            let mut has_dot = false;
            while e < len && !is_space_exec(game_version.get_char(e))
                invariant
                    i <= e <= len,
                    len == s.len(),
                    s == game_version@,
                    i < len,
                    !is_space(s[i as int]),
                    token_end(s, i as int) == token_end(s, e as int),
                    has_dot <==> exists|k: int| i <= k < e && #[trigger] s[k] == '.',
                decreases len - e,
            {
                let d = game_version.get_char(e);
                if d == '.' {
                    has_dot = true;
                }
                e = e + 1;
            }
            proof {
                assert(token_end(s, e as int) == e);
                lemma_token_end_bounds(s, i as int);
            }
            let ghost token = s.subrange(i as int, e as int);
            proof {
                if has_dot {
                    let k = choose|k: int| i <= k < e && #[trigger] s[k] == '.';
                    assert(token[k - i] == '.');
                }
                if token.contains('.') {
                    let q = choose|q: int| 0 <= q < token.len() && token[q] == '.';
                    assert(s[q + i] == '.');
                }
            }
            let starts_with_digit = '0' <= c && c <= '9';
            assert(token[0] == c);
            if has_dot && starts_with_digit {
                proof {
                    assert(tokens_from(s, i as int) == seq![token] + tokens_from(s, e as int));
                    assert((seq![token] + tokens_from(s, e as int))[0] == token);
                }
                let first = next_index(game_version, len, '.', i);
                proof {
                    lemma_next_index_bounds(s, '.', i as int);
                }
                let second = if first < len {
                    next_index(game_version, len, '.', first + 1)
                } else {
                    first
                };
                let end = if second < e {
                    second
                } else {
                    e
                };
                proof {
                    lemma_next_index_bounds(token, '.', 0);
                    assert forall|k: int| 0 <= k <= token.len() implies next_index_of(token, '.', k) + i == (if next_index_of(s, '.', k + i) < e { next_index_of(s, '.', k + i) } else { e as int }) by {
                        lemma_index_shift(s, token, i as int, e as int, k);
                    }
                    let f0 = next_index_of(token, '.', 0);
                    assert(f0 + i == first);
                    if first < len {
                        lemma_next_index_bounds(s, '.', first + 1);
                    }
                }
                let part = game_version.substring_char(i, end);
                return part.to_owned();
            } else {
                proof {
                    assert(tokens_from(s, i as int) == seq![token] + tokens_from(s, e as int));
                    assert((seq![token] + tokens_from(s, e as int)).drop_first() =~= tokens_from(s, e as int));
                }
                i = e;
            }
        }
    }
    proof {
        assert(tokens_from(s, i as int) == Seq::<Seq<char>>::empty());
    }
    game_version.to_owned()
}

proof fn lemma_index_shift(s: Seq<char>, token: Seq<char>, i: int, e: int, k: int)
    requires
        0 <= i <= e <= s.len(),
        token == s.subrange(i, e),
        0 <= k <= token.len(),
    ensures
        next_index_of(token, '.', k) + i == (if next_index_of(s, '.', k + i) < e {
            next_index_of(s, '.', k + i)
        } else {
            e
        }),
    decreases token.len() - k,
{
    lemma_next_index_bounds(s, '.', k + i);
    if k < token.len() {
        assert(token[k] == s[k + i]);
        if token[k] != '.' {
            lemma_index_shift(s, token, i, e, k + 1);
            assert(k + 1 + i == k + i + 1);
        }
    }
}

} // verus!

verus! {

/// A trait's state on a final board.
pub struct TraitState {
    pub name: String,
    pub tier_current: i32,
}

/// A unit on a final board, as Riot reports it.
pub struct Unit {
    pub character_id: String,
    pub item_names: Vec<String>,
    pub tier: u8,
}

/// One player's result in a Riot match.
pub struct Participant {
    pub augments: Vec<String>,
    pub placement: u8,
    pub puuid: String,
    pub traits: Vec<TraitState>,
    pub units: Vec<Unit>,
}

/// A Riot TFT match.
pub struct TftMatch {
    pub match_id: String,
    pub game_datetime: u64,
    pub game_version: String,
    pub queue_id: i32,
    pub set_number: i32,
    pub game_type: String,
    pub participants: Vec<Participant>,
}

/// A player on the Challenger ladder.
pub struct LeagueEntry {
    pub puuid: String,
    pub league_points: i32,
}

/// The Challenger ladder.
pub struct ChallengerLeague {
    pub entries: Vec<LeagueEntry>,
}

/// The names of the active traits (those with a current tier above zero).
pub open spec fn active_trait_names(traits: Seq<TraitState>) -> Seq<Seq<char>>
    decreases traits.len(),
{
    if traits.len() == 0 {
        Seq::empty()
    } else {
        let earlier = active_trait_names(traits.drop_last());
        if traits.last().tier_current > 0 {
            earlier.push(traits.last().name@)
        } else {
            earlier
        }
    }
}

/// `unit` is the observation of the Riot unit `u`.
pub open spec fn observes_unit(unit: UnitObservation, u: Unit) -> bool {
    &&& unit.champion@ == u.character_id@
    &&& unit.star_level == u.tier
    &&& texts_of(unit.items@) == texts_of(u.item_names@)
}

/// `o` is the observation of participant `p` in a match of this patch and
/// time.
pub open spec fn observes_participant(o: MatchObservation, p: Participant, patch: Seq<char>, timestamp: u64) -> bool {
    &&& o.player_id@ == p.puuid@
    &&& o.patch@ == patch
    &&& o.timestamp == timestamp
    &&& o.placement == p.placement
    &&& o.units@.len() == p.units@.len()
    &&& forall|k: int| 0 <= k < o.units@.len() ==> observes_unit(#[trigger] o.units@[k], p.units@[k])
    &&& texts_of(o.traits@) == active_trait_names(p.traits@)
    &&& texts_of(o.augments@) == texts_of(p.augments@)
}

fn unit_observation(u: &Unit) -> (unit: UnitObservation)
    ensures
        observes_unit(unit, *u),
{
    UnitObservation { champion: u.character_id.clone(), star_level: u.tier, items: copy_strings(&u.item_names) }
}

fn active_traits(traits: &Vec<TraitState>) -> (names: Vec<String>)
    ensures
        texts_of(names@) == active_trait_names(traits@),
{
    let mut names: Vec<String> = Vec::new();
    let mut i: usize = 0;
    while i < traits.len()
        invariant
            0 <= i <= traits@.len(),
            texts_of(names@) == active_trait_names(traits@.take(i as int)),
        decreases traits@.len() - i,
    {
        assert(traits@.take(i + 1).drop_last() =~= traits@.take(i as int));
        let ghost before = names@;
        if traits[i].tier_current > 0 {
            names.push(traits[i].name.clone());
            assert(texts_of(names@) =~= texts_of(before).push(traits@[i as int].name@));
        }
        i = i + 1;
    }
    assert(traits@.take(traits@.len() as int) =~= traits@);
    names
}

fn participant_observation(p: &Participant, patch: &String, timestamp: u64) -> (o: MatchObservation)
    ensures
        observes_participant(o, *p, patch@, timestamp),
{
    let mut units: Vec<UnitObservation> = Vec::new();
    let mut i: usize = 0;
    while i < p.units.len()
        invariant
            0 <= i <= p.units@.len(),
            units@.len() == i,
            forall|k: int| 0 <= k < i ==> observes_unit(#[trigger] units@[k], p.units@[k]),
        decreases p.units@.len() - i,
    {
        units.push(unit_observation(&p.units[i]));
        i = i + 1;
    }
    MatchObservation {
        player_id: p.puuid.clone(),
        patch: patch.clone(),
        timestamp,
        placement: p.placement,
        units,
        traits: active_traits(&p.traits),
        augments: copy_strings(&p.augments),
    }
}

impl TftMatch {
    pub fn id(&self) -> (id: &str)
        ensures
            id@ == self.match_id@,
    {
        self.match_id.as_str()
    }

    pub fn queue_id(&self) -> (queue: i32)
        ensures
            queue == self.queue_id,
    {
        self.queue_id
    }

    pub fn set_number(&self) -> (set: i32)
        ensures
            set == self.set_number,
    {
        self.set_number
    }

    pub fn game_type(&self) -> (game_type: &str)
        ensures
            game_type@ == self.game_type@,
    {
        self.game_type.as_str()
    }

    /// One observation per participant, in the match's order.
    pub fn observations(&self) -> (observations: Vec<MatchObservation>)
        ensures
            observations@.len() == self.participants@.len(),
            forall|k: int|
                0 <= k < observations@.len() ==> observes_participant(
                    #[trigger] observations@[k],
                    self.participants@[k],
                    patch_of(self.game_version@),
                    self.game_datetime,
                ),
    {
        let patch = patch_from_game_version(self.game_version.as_str());
        let mut observations: Vec<MatchObservation> = Vec::new();
        let mut i: usize = 0;
        while i < self.participants.len()
            invariant
                0 <= i <= self.participants@.len(),
                patch@ == patch_of(self.game_version@),
                observations@.len() == i,
                forall|k: int|
                    0 <= k < i ==> observes_participant(
                        #[trigger] observations@[k],
                        self.participants@[k],
                        patch_of(self.game_version@),
                        self.game_datetime,
                    ),
            decreases self.participants@.len() - i,
        {
            observations.push(participant_observation(&self.participants[i], &patch, self.game_datetime));
            i = i + 1;
        }
        observations
    }

    /// One observation per participant, in the match's order.
    pub fn into_observations(self) -> (observations: Vec<MatchObservation>)
        ensures
            observations@.len() == self.participants@.len(),
            forall|k: int|
                0 <= k < observations@.len() ==> observes_participant(
                    #[trigger] observations@[k],
                    self.participants@[k],
                    patch_of(self.game_version@),
                    self.game_datetime,
                ),
    {
        self.observations()
    }
}

} // verus!
