use i18n_puzzles::greek::{is_greek_letter, rot_char, rot_str};
use i18n_puzzles::messages::cost;
use i18n_puzzles::passwords::is_valid;

#[test]
fn message_costs() {
    assert_eq!(cost("short"), 13);
    // 141 ASCII characters: an SMS but no tweet
    assert_eq!(cost(&"a".repeat(141)), 11);
    // 100 two-byte characters: 200 bytes, a tweet but no SMS
    assert_eq!(cost(&"é".repeat(100)), 7);
    assert_eq!(cost(&"é".repeat(141)), 0);
    assert_eq!(cost(&"a".repeat(140)), 13);
    assert_eq!(cost(&"a".repeat(160)), 11);
    assert_eq!(cost(&"a".repeat(161)), 0);
}

#[test]
fn password_rule() {
    assert!(!is_valid("d9Ō"));
    assert!(is_valid("d9Ōab"));
    assert!(!is_valid("abcD1"));
    assert!(!is_valid("ÅBCD1"));
    assert!(!is_valid("åbcd1"));
    assert!(!is_valid("åbcDe"));
    assert!(!is_valid("a1Ö"));
    assert!(!is_valid("a1Öbcdefghijk"));
    assert!(is_valid("a1Öbcdefghij"));
}

#[test]
fn greek_rotation() {
    assert!(is_greek_letter('Α'));
    assert!(is_greek_letter('ω'));
    assert!(!is_greek_letter('a'));
    assert_eq!(rot_char('Α'), 'Β');
    assert_eq!(rot_char('Ω'), 'Α');
    assert_eq!(rot_char('ω'), 'α');
    assert_eq!(rot_char('Ρ'), 'Σ');
    assert_eq!(rot_char('ρ'), 'σ');
    assert_eq!(rot_char('x'), 'x');
    assert_eq!(rot_str("Οδυσσευς!"), "Πεφττζφσ!");
    assert_eq!(rot_str(""), "");
}
