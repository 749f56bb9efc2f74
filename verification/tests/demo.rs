use tft_nowcasting::analysis::summarize_compositions;
use tft_nowcasting::demo::sample_observations;

#[test]
fn the_sample_holds_two_families() {
    let observations = sample_observations();
    assert_eq!(observations.len(), 5);
    assert_eq!(observations[0].player_id, "player-1");
    assert_eq!(observations[3].units[1].champion, "Jinx");

    let summaries = summarize_compositions(&observations, 300);
    let listed: Vec<(u64, String, usize)> = summaries
        .iter()
        .map(|s| (s.window.start, s.composition.to_string(), s.play_count))
        .collect();
    assert_eq!(
        listed,
        [
            (0, "Ahri, Neeko".to_owned(), 2),
            (300, "Jinx, Vi".to_owned(), 2),
            (300, "Ahri, Neeko".to_owned(), 1),
        ]
    );
}
