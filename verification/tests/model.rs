use tft_nowcasting::model::{Composition, MatchObservation, UnitObservation};

#[test]
fn composition_identity_is_independent_of_unit_order() {
    let first = vec![
        UnitObservation::new("Neeko", 2, vec!["Warmog's Armor"]),
        UnitObservation::new("Ahri", 2, vec!["Spear of Shojin"]),
    ];
    let second = vec![
        UnitObservation::new("Ahri", 2, vec!["Spear of Shojin"]),
        UnitObservation::new("Neeko", 2, vec!["Warmog's Armor"]),
    ];

    assert_eq!(Composition::from_units(&first), Composition::from_units(&second));
}

#[test]
fn composition_identity_deduplicates_champions() {
    let units = vec![
        UnitObservation::new("Ahri", 2, vec![]),
        UnitObservation::new("Neeko", 2, vec![]),
        UnitObservation::new("Ahri", 1, vec![]),
    ];

    let composition = Composition::from_units(&units);

    assert_eq!(composition.champions(), &["Ahri".to_owned(), "Neeko".to_owned()]);
}

#[test]
fn current_identity_ignores_star_levels_and_items() {
    let ordinary_board = vec![
        UnitObservation::new("Ahri", 1, vec![]),
        UnitObservation::new("Neeko", 2, vec!["Warmog's Armor"]),
    ];
    let upgraded_board = vec![
        UnitObservation::new("Ahri", 3, vec!["Rabadon's Deathcap"]),
        UnitObservation::new("Neeko", 3, vec!["Ionic Spark"]),
    ];

    assert_eq!(
        Composition::from_units(&ordinary_board),
        Composition::from_units(&upgraded_board)
    );
}

#[test]
fn an_empty_board_has_an_empty_identity() {
    let composition = Composition::from_units(&[]);
    assert!(composition.champions().is_empty());
    assert_eq!(composition.to_string(), "");
}

#[test]
fn identity_names_are_sorted_and_joined() {
    let units = vec![
        UnitObservation::new("Zed", 1, vec![]),
        UnitObservation::new("Ahri", 1, vec![]),
        UnitObservation::new("Jinx", 1, vec![]),
        UnitObservation::new("Zed", 2, vec![]),
    ];
    let composition = Composition::from_units(&units);
    assert_eq!(composition.to_string(), "Ahri, Jinx, Zed");
}

#[test]
fn similarity_needs_eighty_percent_of_the_larger_board() {
    let board = |names: &[&str]| {
        Composition::from_units(
            &names.iter().map(|name| UnitObservation::new(name, 1, vec![])).collect::<Vec<_>>(),
        )
    };
    let five = board(&["Ahri", "Jinx", "Neeko", "Vi", "Yasuo"]);
    assert!(five.is_similar_to(&board(&["Ahri", "Jinx", "Neeko", "Vi", "Zed"])));
    assert!(!five.is_similar_to(&board(&["Ahri", "Jinx", "Neeko", "Riven", "Zed"])));
    assert!(five.is_similar_to(&board(&["Ahri", "Jinx", "Neeko", "Vi"])));
    assert!(!five.is_similar_to(&board(&["Ahri", "Jinx", "Neeko"])));
    assert_eq!(five.shared_champions(&board(&["Jinx", "Vi", "Zed"])), 2);
    assert!(!board(&[]).is_similar_to(&board(&[])));
}

#[test]
fn an_observation_keeps_its_fields() {
    let observation = MatchObservation::new(
        "player-1",
        "14.1",
        42,
        8,
        vec![UnitObservation::new("Ahri", 3, vec!["Blue Buff"])],
        vec!["Arcanist"],
        vec![],
    );
    assert_eq!(observation.player_id, "player-1");
    assert_eq!(observation.placement, 8);
    assert_eq!(observation.units[0].items, ["Blue Buff"]);
    assert_eq!(observation.traits, ["Arcanist"]);
    assert!(observation.augments.is_empty());
}
