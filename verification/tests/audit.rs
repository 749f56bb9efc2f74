use std::collections::BTreeMap;

use tft_nowcasting::api::{Participant, TftMatch, TraitState, Unit};
use tft_nowcasting::audit::{audit_cached_matches, DatasetAudit};
use tft_nowcasting::model::{Composition, UnitObservation};

fn participant(puuid: &str, champions: &[&str], augments: &[&str]) -> Participant {
    Participant {
        augments: augments.iter().map(|a| a.to_string()).collect(),
        placement: 1,
        puuid: puuid.to_owned(),
        traits: vec![TraitState { name: "TFT_Trait_Active".to_owned(), tier_current: 1 }],
        units: champions
            .iter()
            .map(|c| Unit { character_id: c.to_string(), item_names: vec![], tier: 3 })
            .collect(),
    }
}

fn riot_match(
    id: &str,
    datetime: u64,
    version: &str,
    queue: i32,
    set: i32,
    game_type: &str,
    participants: Vec<Participant>,
) -> TftMatch {
    TftMatch {
        match_id: id.to_owned(),
        game_datetime: datetime,
        game_version: version.to_owned(),
        queue_id: queue,
        set_number: set,
        game_type: game_type.to_owned(),
        participants,
    }
}

fn sample_match() -> TftMatch {
    riot_match(
        "JP1_123",
        1_785_900_000_000,
        "Linux Version 16.15.693.1856 (Jul 29 2026)",
        1100,
        17,
        "standard",
        vec![participant("player-1", &["TFT_Champion_Test"], &["TFT_Augment_Test"])],
    )
}

fn empty_audit() -> DatasetAudit {
    audit_cached_matches(&[])
}

fn average_units_per_observation(audit: &DatasetAudit) -> f64 {
    if audit.observations == 0 {
        0.0
    } else {
        audit.total_units as f64 / audit.observations as f64
    }
}

fn count_of<K: PartialEq>(counts: &[(K, usize)], key: &K) -> usize {
    counts.iter().find(|(k, _)| k == key).map(|(_, n)| *n).unwrap_or(0)
}

#[test]
fn audits_a_cached_match_fixture() {
    let audit = audit_cached_matches(&[sample_match()]);

    assert_eq!(audit.matches, 1);
    assert_eq!(audit.observations, 1);
    assert_eq!(audit.unique_players, 1);
    assert_eq!(audit.unique_compositions, 1);
    assert_eq!(audit.total_units, 1);
    assert_eq!(average_units_per_observation(&audit), 1.0);
    assert_eq!(audit.observations_without_units, 0);
    assert_eq!(audit.observations_without_augments, 0);
    assert_eq!(audit.earliest_timestamp, Some(1_785_900_000_000));
    assert_eq!(audit.latest_timestamp, Some(1_785_900_000_000));
    assert_eq!(count_of(&audit.observations_by_patch, &"16.15".to_owned()), 1);
    assert_eq!(audit.matches_by_queue[&1100], 1);
    assert_eq!(count_of(&audit.matches_by_game_type, &"standard".to_owned()), 1);
    assert_eq!(audit.matches_by_set[&17], 1);
    let most_common = audit.most_common_compositions();
    assert_eq!(most_common.len(), 1);
    assert_eq!(most_common[0].0.to_string(), "TFT_Champion_Test");
    assert_eq!(most_common[0].1, 1);
}

#[test]
fn empty_dataset_produces_an_empty_audit() {
    let audit = empty_audit();

    assert_eq!(audit.matches, 0);
    assert_eq!(audit.observations, 0);
    assert_eq!(average_units_per_observation(&audit), 0.0);
    assert_eq!(audit.earliest_timestamp, None);
    assert_eq!(audit.latest_timestamp, None);
}

#[test]
fn returns_five_most_common_compositions_with_deterministic_ties() {
    let mut audit = empty_audit();
    for (champion, count) in [
        ("Zed", 3),
        ("Ahri", 3),
        ("Neeko", 2),
        ("Yasuo", 1),
        ("Vi", 1),
        ("Jinx", 1),
    ] {
        let composition = Composition::from_units(&[UnitObservation::new(champion, 1, vec![])]);
        audit.composition_counts.push((composition, count));
    }

    let actual: Vec<(String, usize)> = audit
        .most_common_compositions()
        .into_iter()
        .map(|(composition, count)| (composition.to_string(), count))
        .collect();

    assert_eq!(
        actual,
        [
            ("Ahri".to_owned(), 3),
            ("Zed".to_owned(), 3),
            ("Neeko".to_owned(), 2),
            ("Jinx".to_owned(), 1),
            ("Vi".to_owned(), 1),
        ]
    );
}

#[test]
fn counts_players_boards_queues_and_times_across_matches() {
    let first = riot_match(
        "JP1_1",
        300,
        "Version 14.1.2",
        1100,
        17,
        "standard",
        vec![
            participant("player-1", &["Ahri", "Neeko"], &["A"]),
            participant("player-2", &["Neeko", "Ahri", "Ahri"], &[]),
        ],
    );
    let second = riot_match(
        "JP1_2",
        100,
        "Version 14.2.1",
        1160,
        16,
        "pairs",
        vec![participant("player-1", &[], &["B"]), participant("player-3", &["Jinx"], &["C"])],
    );
    let third = riot_match(
        "JP1_3",
        200,
        "Version 14.1.9",
        1100,
        17,
        "standard",
        vec![participant("player-4", &["Jinx"], &["D"])],
    );

    let audit = audit_cached_matches(&[first, second, third]);

    assert_eq!(audit.matches, 3);
    assert_eq!(audit.observations, 5);
    assert_eq!(audit.unique_players, 4);
    assert_eq!(audit.unique_compositions, 3);
    assert_eq!(audit.total_units, 7);
    assert_eq!(audit.observations_without_units, 1);
    assert_eq!(audit.observations_without_augments, 1);
    assert_eq!(audit.earliest_timestamp, Some(100));
    assert_eq!(audit.latest_timestamp, Some(300));
    assert_eq!(
        audit.observations_by_patch,
        [("14.1".to_owned(), 3), ("14.2".to_owned(), 2)]
    );
    assert_eq!(audit.matches_by_queue, BTreeMap::from([(1100, 2), (1160, 1)]));
    assert_eq!(
        audit.matches_by_game_type,
        [("pairs".to_owned(), 1), ("standard".to_owned(), 2)]
    );
    assert_eq!(audit.matches_by_set, BTreeMap::from([(16, 1), (17, 2)]));
    let most_common: Vec<(String, usize)> = audit
        .most_common_compositions()
        .into_iter()
        .map(|(composition, count)| (composition.to_string(), count))
        .collect();
    assert_eq!(
        most_common,
        [("Ahri, Neeko".to_owned(), 2), ("Jinx".to_owned(), 2), ("".to_owned(), 1)]
    );
}
