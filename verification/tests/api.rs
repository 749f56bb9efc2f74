use tft_nowcasting::api::{
    patch_from_game_version, Participant, TftMatch, TraitState, Unit,
};

fn sample_match() -> TftMatch {
    TftMatch {
        match_id: "JP1_123".to_owned(),
        game_datetime: 1_785_900_000_000,
        game_version: "Linux Version 16.15.693.1856 (Jul 29 2026)".to_owned(),
        queue_id: 1100,
        set_number: 17,
        game_type: "standard".to_owned(),
        participants: vec![Participant {
            augments: vec!["TFT_Augment_Test".to_owned()],
            placement: 1,
            puuid: "player-1".to_owned(),
            traits: vec![
                TraitState { name: "TFT_Trait_Active".to_owned(), tier_current: 1 },
                TraitState { name: "TFT_Trait_Inactive".to_owned(), tier_current: 0 },
            ],
            units: vec![Unit {
                character_id: "TFT_Champion_Test".to_owned(),
                item_names: vec!["TFT_Item_Test".to_owned()],
                tier: 3,
            }],
        }],
    }
}

#[test]
fn extracts_patch_from_riot_game_version() {
    assert_eq!(
        patch_from_game_version("Linux Version 16.15.693.1856 (Jul 29 2026)"),
        "16.15"
    );
}

#[test]
fn converts_a_match_into_observations() {
    let riot_match = sample_match();
    assert_eq!(riot_match.id(), "JP1_123");

    let observations = riot_match.into_observations();
    assert_eq!(observations.len(), 1);
    assert_eq!(observations[0].patch, "16.15");
    assert_eq!(observations[0].placement, 1);
    assert_eq!(observations[0].units[0].star_level, 3);
    assert_eq!(observations[0].traits, ["TFT_Trait_Active"]);
}

#[test]
fn a_version_without_a_numbered_part_is_kept_whole() {
    assert_eq!(patch_from_game_version("Linux Version unknown"), "Linux Version unknown");
    assert_eq!(patch_from_game_version(""), "");
    assert_eq!(patch_from_game_version("15"), "15");
}

#[test]
fn the_first_numbered_part_gives_major_and_minor() {
    assert_eq!(patch_from_game_version("Version 14.1 and 15.2.3"), "14.1");
    assert_eq!(patch_from_game_version("Version 7.8"), "7.8");
    assert_eq!(patch_from_game_version("v1.2 9.10.11"), "9.10");
    assert_eq!(patch_from_game_version("\t12.3.4\n"), "12.3");
    assert_eq!(patch_from_game_version("3."), "3.");
}

#[test]
fn a_match_keeps_its_queue_set_and_game_type() {
    let riot_match = sample_match();
    assert_eq!(riot_match.queue_id(), 1100);
    assert_eq!(riot_match.set_number(), 17);
    assert_eq!(riot_match.game_type(), "standard");
    let observations = riot_match.observations();
    assert_eq!(observations[0].player_id, "player-1");
    assert_eq!(observations[0].timestamp, 1_785_900_000_000);
    assert_eq!(observations[0].units[0].champion, "TFT_Champion_Test");
    assert_eq!(observations[0].units[0].items, ["TFT_Item_Test"]);
    assert_eq!(observations[0].augments, ["TFT_Augment_Test"]);
}
