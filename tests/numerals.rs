use i18n_puzzles::numerals::{parse_number, parse_unit, InvalidCharacterError, NumberPart};

#[test]
fn test_parse_number() {
    for (expected, input) in [
        (300, "三百"),
        (321, "三百二十一"),
        (4_000, "四千"),
        (50_000, "五万"),
        (99_999, "九万九千九百九十九"),
        (420_042, "四十二万四十二"),
        (987_654_321, "九億八千七百六十五万四千三百二十一"),
        (612, "六百十二"),
    ] {
        assert_eq!(parse_number(&input.chars().collect::<Vec<_>>()), Ok(expected))
    }
}

#[test]
fn parse_number_rejects_first_foreign_character() {
    let chars: Vec<char> = "三x百y".chars().collect();
    assert_eq!(parse_number(&chars), Err(InvalidCharacterError('x')));
    assert_eq!(parse_number(&[]), Ok(0));
}

#[test]
fn number_parts() {
    assert_eq!(NumberPart::from_char('七'), Ok(NumberPart::Base(7)));
    assert_eq!(NumberPart::from_char('千'), Ok(NumberPart::Power(1000)));
    assert_eq!(NumberPart::from_char('億'), Ok(NumberPart::Myriad(100_000_000)));
    assert_eq!(NumberPart::from_char('毛'), Err(InvalidCharacterError('毛')));
}

#[test]
fn units() {
    assert_eq!(parse_unit('毛'), Ok(1));
    assert_eq!(parse_unit('尺'), Ok(10_000));
    assert_eq!(parse_unit('間'), Ok(60_000));
    assert_eq!(parse_unit('里'), Ok(129_600_000));
    assert_eq!(parse_unit('三'), Err(InvalidCharacterError('三')));
}
