use castle_lanes::names::{clean_game_name, clean_name, truncate_text};

#[test]
fn player_names_are_trimmed_and_cut() {
    assert_eq!(clean_name("  Alice \n".to_string()), "Alice");
    assert_eq!(clean_name("   ".to_string()), "Player");
    assert_eq!(clean_name(String::new()), "Player");
    assert_eq!(clean_name("ABCDEFGHIJKLMNOPQRSTUVWXYZ".to_string()), "ABCDEFGHIJKLMNOPQR");
    assert_eq!(clean_name("\u{3000}Ünïcødé\u{2003}".to_string()), "Ünïcødé");
}

#[test]
fn game_names_fall_back_to_the_id() {
    assert_eq!(clean_game_name("  Friday night  ".to_string(), 3), "Friday night");
    assert_eq!(clean_game_name(" \t ".to_string(), 42), "Game 42");
    assert_eq!(clean_game_name("x".repeat(40), 1).len(), 32);
}

#[test]
fn labels_are_truncated_with_an_ellipsis() {
    assert_eq!(truncate_text("short", 10), "short");
    assert_eq!(truncate_text("exactly10!", 10), "exactly10!");
    assert_eq!(truncate_text("a much longer label", 10), "a much ...");
    assert_eq!(truncate_text("abcdef", 2), "...");
}

#[test]
fn game_numbers_are_written_in_decimal() {
    for id in [0u32, 7, 10, 99, 100, 12_345, u32::MAX] {
        assert_eq!(clean_game_name(String::new(), id), format!("Game {id}"));
    }
}
