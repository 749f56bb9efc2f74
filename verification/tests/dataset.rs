use tft_nowcasting::api::{Participant, TftMatch, TraitState, Unit};
use tft_nowcasting::dataset::load_standard_ranked_dataset;

fn riot_match(id: &str, queue: i32, set: i32, game_type: &str, player: &str) -> TftMatch {
    TftMatch {
        match_id: id.to_owned(),
        game_datetime: 1_785_900_000_000,
        game_version: "Linux Version 16.15.693.1856 (Jul 29 2026)".to_owned(),
        queue_id: queue,
        set_number: set,
        game_type: game_type.to_owned(),
        participants: vec![Participant {
            augments: vec!["TFT_Augment_Test".to_owned()],
            placement: 1,
            puuid: player.to_owned(),
            traits: vec![TraitState { name: "TFT_Trait_Active".to_owned(), tier_current: 1 }],
            units: vec![Unit {
                character_id: "TFT_Champion_Test".to_owned(),
                item_names: vec![],
                tier: 3,
            }],
        }],
    }
}

#[test]
fn loads_ranked_matches_from_the_requested_set() {
    let standard_match = riot_match("JP1_123", 1100, 17, "standard", "player-1");
    let double_up_match = riot_match("JP1_456", 1160, 17, "pairs", "player-1");
    let previous_set_match = riot_match("JP1_789", 1100, 16, "standard", "player-1");

    let dataset =
        load_standard_ranked_dataset(vec![standard_match, double_up_match, previous_set_match], 17);

    assert_eq!(dataset.matches, 1);
    assert_eq!(dataset.excluded_matches, 2);
    assert_eq!(dataset.observations.len(), 1);
    assert_eq!(dataset.observations[0].player_id, "player-1");
}

#[test]
fn no_cached_matches_produce_an_empty_dataset() {
    let dataset = load_standard_ranked_dataset(vec![], 17);

    assert_eq!(dataset.matches, 0);
    assert_eq!(dataset.excluded_matches, 0);
    assert!(dataset.observations.is_empty());
}

#[test]
fn keeps_the_observations_of_kept_matches_in_order() {
    let dataset = load_standard_ranked_dataset(
        vec![
            riot_match("JP1_1", 1100, 17, "standard", "player-1"),
            riot_match("JP1_2", 1100, 18, "standard", "player-2"),
            riot_match("JP1_3", 1100, 17, "standard", "player-3"),
        ],
        17,
    );

    assert_eq!(dataset.matches, 2);
    assert_eq!(dataset.excluded_matches, 1);
    assert_eq!(dataset.observations[0].player_id, "player-1");
    assert_eq!(dataset.observations[1].player_id, "player-3");
    assert_eq!(dataset.observations[1].patch, "16.15");
}
