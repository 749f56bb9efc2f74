//! A small in-memory dataset for the composition-analysis demonstration.
use vstd::prelude::*;

use crate::model::{MatchObservation, UnitObservation};
use crate::text::texts_of;

verus! {

/// A unit as champion, star level and items.
pub open spec fn unit_view(u: UnitObservation) -> (Seq<char>, u8, Seq<Seq<char>>) {
    (u.champion@, u.star_level, texts_of(u.items@))
}

/// An observation as player, patch, time, placement, units, traits and
/// augments.
pub open spec fn observation_view(o: MatchObservation) -> (
    Seq<char>,
    Seq<char>,
    u64,
    u8,
    Seq<(Seq<char>, u8, Seq<Seq<char>>)>,
    Seq<Seq<char>>,
    Seq<Seq<char>>,
) {
    (
        o.player_id@,
        o.patch@,
        o.timestamp,
        o.placement,
        o.units@.map_values(|u: UnitObservation| unit_view(u)),
        texts_of(o.traits@),
        texts_of(o.augments@),
    )
}

fn sample(
    player_id: &str,
    timestamp: u64,
    placement: u8,
    first: (&str, u8, &str),
    second: (&str, u8, &str),
    trait_name: &str,
    augment: &str,
) -> (o: MatchObservation)
    requires
        1 <= placement <= 8,
    ensures
        observation_view(o) == (
            player_id@,
            "14.1"@,
            timestamp,
            placement,
            seq![(first.0@, first.1, seq![first.2@]), (second.0@, second.1, seq![second.2@])],
            seq![trait_name@],
            seq![augment@],
        ),
{
    let first_items = vec![first.2];
    let second_items = vec![second.2];
    assert(crate::model::strs_of(first_items@) =~= seq![first.2@]);
    assert(crate::model::strs_of(second_items@) =~= seq![second.2@]);
    let u1 = UnitObservation::new(first.0, first.1, first_items);
    let u2 = UnitObservation::new(second.0, second.1, second_items);
    let units = vec![u1, u2];
    let traits = vec![trait_name];
    let augments = vec![augment];
    assert(crate::model::strs_of(traits@) =~= seq![trait_name@]);
    assert(crate::model::strs_of(augments@) =~= seq![augment@]);
    let o = MatchObservation::new(player_id, "14.1", timestamp, placement, units, traits, augments);
    assert(o.units@.map_values(|u: UnitObservation| unit_view(u)) =~= seq![
        (first.0@, first.1, seq![first.2@]),
        (second.0@, second.1, seq![second.2@]),
    ]);
    assert(texts_of(o.traits@) =~= seq![trait_name@]);
    assert(texts_of(o.augments@) =~= seq![augment@]);
    o
}

/// Five games of patch 14.1: two boards of Ahri and Neeko, two of Jinx and
/// Vi, and a third Ahri and Neeko board.
pub fn sample_observations() -> (observations: Vec<MatchObservation>)
    ensures
        observations@.map_values(|o: MatchObservation| observation_view(o)) == seq![
            ("player-1"@, "14.1"@, 100u64, 2u8, seq![("Neeko"@, 2u8, seq!["Warmog's Armor"@]), ("Ahri"@, 2u8, seq!["Spear of Shojin"@])], seq!["Arcanist"@], seq!["Jeweled Lotus II"@]),
            ("player-2"@, "14.1"@, 200u64, 4u8, seq![("Ahri"@, 3u8, seq!["Rabadon's Deathcap"@]), ("Neeko"@, 2u8, seq!["Ionic Spark"@])], seq!["Arcanist"@], seq!["Pandora's Items"@]),
            ("player-3"@, "14.1"@, 300u64, 1u8, seq![("Jinx"@, 2u8, seq!["Infinity Edge"@]), ("Vi"@, 2u8, seq!["Warmog's Armor"@])], seq!["Punk"@], seq!["Harmacist II"@]),
            ("player-4"@, "14.1"@, 400u64, 5u8, seq![("Vi"@, 3u8, seq!["Sunfire Cape"@]), ("Jinx"@, 3u8, seq!["Last Whisper"@])], seq!["Punk"@], seq!["Team Building"@]),
            ("player-5"@, "14.1"@, 500u64, 3u8, seq![("Ahri"@, 2u8, seq!["Blue Buff"@]), ("Neeko"@, 2u8, seq!["Dragon's Claw"@])], seq!["Arcanist"@], seq!["Magic Wand"@]),
        ],
{
    let observations = vec![
        sample("player-1", 100, 2, ("Neeko", 2, "Warmog's Armor"), ("Ahri", 2, "Spear of Shojin"), "Arcanist", "Jeweled Lotus II"),
        sample("player-2", 200, 4, ("Ahri", 3, "Rabadon's Deathcap"), ("Neeko", 2, "Ionic Spark"), "Arcanist", "Pandora's Items"),
        sample("player-3", 300, 1, ("Jinx", 2, "Infinity Edge"), ("Vi", 2, "Warmog's Armor"), "Punk", "Harmacist II"),
        sample("player-4", 400, 5, ("Vi", 3, "Sunfire Cape"), ("Jinx", 3, "Last Whisper"), "Punk", "Team Building"),
        sample("player-5", 500, 3, ("Ahri", 2, "Blue Buff"), ("Neeko", 2, "Dragon's Claw"), "Arcanist", "Magic Wand"),
    ];
    assert(observations@.map_values(|o: MatchObservation| observation_view(o)) =~= seq![
        ("player-1"@, "14.1"@, 100u64, 2u8, seq![("Neeko"@, 2u8, seq!["Warmog's Armor"@]), ("Ahri"@, 2u8, seq!["Spear of Shojin"@])], seq!["Arcanist"@], seq!["Jeweled Lotus II"@]),
        ("player-2"@, "14.1"@, 200u64, 4u8, seq![("Ahri"@, 3u8, seq!["Rabadon's Deathcap"@]), ("Neeko"@, 2u8, seq!["Ionic Spark"@])], seq!["Arcanist"@], seq!["Pandora's Items"@]),
        ("player-3"@, "14.1"@, 300u64, 1u8, seq![("Jinx"@, 2u8, seq!["Infinity Edge"@]), ("Vi"@, 2u8, seq!["Warmog's Armor"@])], seq!["Punk"@], seq!["Harmacist II"@]),
        ("player-4"@, "14.1"@, 400u64, 5u8, seq![("Vi"@, 3u8, seq!["Sunfire Cape"@]), ("Jinx"@, 3u8, seq!["Last Whisper"@])], seq!["Punk"@], seq!["Team Building"@]),
        ("player-5"@, "14.1"@, 500u64, 3u8, seq![("Ahri"@, 2u8, seq!["Blue Buff"@]), ("Neeko"@, 2u8, seq!["Dragon's Claw"@])], seq!["Arcanist"@], seq!["Magic Wand"@]),
    ]);
    observations
}

} // verus!
