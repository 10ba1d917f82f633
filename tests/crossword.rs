use i18n_puzzles::crossword::parse_crossword;

#[test]
fn clues_match_words_by_length_and_letter() {
    let lines = vec!["  ..e..  ".to_string(), "ü...".to_string()];
    let clues = parse_crossword(&lines).unwrap();
    assert_eq!(clues.len(), 2);
    assert!(clues[0].matches("breed"));
    assert!(!clues[0].matches("brave"));
    assert!(!clues[0].matches("breeds"));
    assert!(clues[1].matches("über"));
    assert!(!clues[1].matches("uber"));
}

#[test]
fn clue_without_letter_is_refused() {
    let lines = vec!["a..".to_string(), "....".to_string()];
    assert!(parse_crossword(&lines).is_none());
    assert_eq!(parse_crossword(&vec![]).map(|v| v.len()), Some(0));
}
