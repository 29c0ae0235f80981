use bras::{Cpf, ParseCpfError};
use std::str::FromStr;

#[test]
fn parse_cpf_from_str() {
    let cpf = Cpf::from_str("98484485439").unwrap();
    assert_eq!("984.844.854-39", cpf.to_display_string());

    let cpf = Cpf::from_str("984.844.854-39").unwrap();
    assert_eq!("984.844.854-39", cpf.to_display_string());

    let cpf = Cpf::from_str("05119439039").unwrap();
    assert_eq!("051.194.390-39", cpf.to_display_string());
}

#[test]
fn return_error_on_invalid_str() {
    assert_eq!(
        Cpf::from_str("invalid_str").unwrap_err(),
        ParseCpfError::Invalid
    );
    assert_eq!(
        Cpf::from_str("98484485401").unwrap_err(),
        ParseCpfError::Invalid
    );
    assert_eq!(
        Cpf::from_str("98484485439invalid_str").unwrap_err(),
        ParseCpfError::Invalid
    );
    assert_eq!(
        Cpf::from_str("984-844-854.39").unwrap_err(),
        ParseCpfError::Invalid
    );
}

#[test]
fn all_digits_the_same_is_an_invalid_cpf() {
    let invalid_cpfs_by_definition = [
        "00000000000",
        "11111111111",
        "22222222222",
        "33333333333",
        "44444444444",
        "55555555555",
        "66666666666",
        "77777777777",
        "88888888888",
        "99999999999",
    ];

    for cpf in invalid_cpfs_by_definition {
        assert_eq!(Cpf::from_str(cpf).unwrap_err(), ParseCpfError::Invalid);
    }
}

#[test]
fn punctuated_text_round_trips() {
    for text in ["984.844.854-39", "051.194.390-39", "016.783.460-63"] {
        let cpf = Cpf::parse(text).unwrap();
        assert_eq!(text, cpf.to_display_string());
    }
}

#[test]
fn display_form_parses_back_to_the_same_value() {
    let cpf = Cpf::parse("05119439039").unwrap();
    let shown = cpf.to_display_string();
    let again = Cpf::parse(&shown).unwrap();
    assert_eq!(cpf, again);
    assert_eq!(shown, again.to_display_string());
}

#[test]
fn changed_verifier_digits_are_refused() {
    assert!(Cpf::parse("98484485439").is_ok());
    assert_eq!(Cpf::parse("98484485449"), Err(ParseCpfError::Invalid));
    assert_eq!(Cpf::parse("98484485438"), Err(ParseCpfError::Invalid));
    assert_eq!(Cpf::parse("984.844.854-49"), Err(ParseCpfError::Invalid));
    assert_eq!(Cpf::parse("984.844.854-30"), Err(ParseCpfError::Invalid));
}

#[test]
fn misplaced_separators_are_refused() {
    assert_eq!(Cpf::parse("984-844-854.39"), Err(ParseCpfError::Invalid));
    assert_eq!(Cpf::parse("984.844-854.39"), Err(ParseCpfError::Invalid));
    assert_eq!(Cpf::parse("9848.44.854-39"), Err(ParseCpfError::Invalid));
}

#[test]
fn wrong_lengths_are_refused() {
    assert_eq!(Cpf::parse(""), Err(ParseCpfError::Invalid));
    assert_eq!(Cpf::parse("9848448543"), Err(ParseCpfError::Invalid));
    assert_eq!(Cpf::parse("984844854390"), Err(ParseCpfError::Invalid));
    assert_eq!(Cpf::parse("984.844.854-3"), Err(ParseCpfError::Invalid));
    assert_eq!(Cpf::parse("984.844.854-390"), Err(ParseCpfError::Invalid));
}

#[test]
fn non_digit_characters_are_refused() {
    assert_eq!(Cpf::parse("9848448543a"), Err(ParseCpfError::Invalid));
    assert_eq!(Cpf::parse("984.844.854-3x"), Err(ParseCpfError::Invalid));
    assert_eq!(Cpf::parse("984.844.854-3\u{e9}"), Err(ParseCpfError::Invalid));
}

#[test]
fn number_is_zero_padded() {
    let cpf = Cpf::try_from(1678346063).unwrap();
    assert_eq!("016.783.460-63", cpf.to_display_string());
    assert_eq!(1678346063, cpf.to_u64());
    assert_eq!("1678346063", cpf.numbers_as_string());
}

#[test]
fn number_conversions() {
    let cpf = Cpf::try_from(98484485439).unwrap();
    assert_eq!("984.844.854-39", cpf.to_display_string());
    assert_eq!(98484485439u64, cpf.to_u64());
    assert_eq!("98484485439", cpf.numbers_as_string());
    assert_eq!(cpf, Cpf::parse("984.844.854-39").unwrap());
}

#[test]
fn invalid_numbers_are_refused() {
    assert_eq!(Cpf::try_from(0), Err(ParseCpfError::Invalid));
    assert_eq!(Cpf::try_from(98484485438), Err(ParseCpfError::Invalid));
    assert_eq!(Cpf::try_from(984844854390), Err(ParseCpfError::Invalid));
    assert_eq!(Cpf::try_from(u64::MAX), Err(ParseCpfError::Invalid));
}

#[test]
fn both_forms_give_the_same_value() {
    let plain = Cpf::parse("98484485439").unwrap();
    let punctuated = Cpf::parse("984.844.854-39").unwrap();
    assert_eq!(plain, punctuated);
    assert_eq!(98484485439u64, punctuated.to_u64());
}

#[test]
fn values_are_ordered_by_number() {
    let small = Cpf::parse("051.194.390-39").unwrap();
    let large = Cpf::parse("984.844.854-39").unwrap();
    assert!(small < large);
    assert_ne!(small, large);
}

#[test]
fn parses_through_from_str() {
    let cpf: Cpf = "984.844.854-39".parse().unwrap();
    assert_eq!("98484485439", cpf.numbers_as_string());
}
