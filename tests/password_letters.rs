use i18n_puzzles::password_letters::{
    deaccent, has_recurring_letters, is_consonant, is_valid, is_vowel,
};

#[test]
fn accents_are_stripped() {
    assert_eq!(deaccent("Ünïcödé"), "Unicode");
    assert_eq!(deaccent("plain 1"), "plain 1");
    assert_eq!(deaccent(""), "");
}

#[test]
fn vowels_and_consonants() {
    assert!(is_vowel('a'));
    assert!(is_vowel('E'));
    assert!(!is_vowel('é'));
    assert!(!is_vowel('b'));
    assert!(is_consonant('b'));
    assert!(is_consonant('ß'));
    assert!(!is_consonant('a'));
    assert!(!is_consonant('1'));
}

#[test]
fn recurring_letters_ignore_case() {
    assert!(has_recurring_letters("abcA"));
    assert!(has_recurring_letters("a1a"));
    assert!(!has_recurring_letters("abc"));
    assert!(!has_recurring_letters("ÅÅ"));
    assert!(!has_recurring_letters(""));
}

#[test]
fn password_with_letters_rule() {
    assert!(!is_valid("d9Ō"));
    assert!(is_valid("d9Ōz"));
    assert!(!is_valid("d9Ōo"));
    assert!(!is_valid("dzŌx"));
    assert!(!is_valid("d9zx"));
    assert!(!is_valid("V8AeC1S7KhP4Ļu"));
}
