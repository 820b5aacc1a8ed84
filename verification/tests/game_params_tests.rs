use guess_engine::game_params::{GameParams, SymbolError};
use guess_engine::number::Number;

#[test]
fn game_params_test_to_char_6() {
    let g = GameParams::new(5).with_total_digits_number(6);
    assert_eq!(g.to_char(0).unwrap(), '0');
    assert_eq!(g.to_char(5).unwrap(), '5');
    assert!(g.to_char(6).is_err());
    assert!(g.to_char(13).is_err());
    assert!(g.to_char(40).is_err());
}

#[test]
fn game_params_test_to_char_10() {
    let g = GameParams::new(5).with_total_digits_number(10);
    assert_eq!(g.to_char(0).unwrap(), '0');
    assert_eq!(g.to_char(5).unwrap(), '5');
    assert_eq!(g.to_char(9).unwrap(), '9');
    assert!(g.to_char(10).is_err());
    assert!(g.to_char(13).is_err());
    assert!(g.to_char(40).is_err());
}

#[test]
fn game_params_test_to_char_17() {
    let g = GameParams::new(5).with_total_digits_number(17);
    assert_eq!(g.to_char(0).unwrap(), '0');
    assert_eq!(g.to_char(5).unwrap(), '5');
    assert_eq!(g.to_char(9).unwrap(), '9');
    assert_eq!(g.to_char(13).unwrap(), 'D');
    assert_eq!(g.to_char(16).unwrap(), 'G');
    assert!(g.to_char(17).is_err());
    assert!(g.to_char(20).is_err());
    assert!(g.to_char(40).is_err());
}

#[test]
fn game_params_test_to_u8_6() {
    let g = GameParams::new(2).with_total_digits_number(6);
    assert_eq!(g.to_u8('0').unwrap(), 0);
    assert_eq!(g.to_u8('5').unwrap(), 5);
    assert!(g.to_u8('6').is_err());
    assert!(g.to_u8('D').is_err());
    assert!(g.to_u8('&').is_err());
}

#[test]
fn game_params_test_to_u8_10() {
    let g = GameParams::new(2).with_total_digits_number(10);
    assert_eq!(g.to_u8('0').unwrap(), 0);
    assert_eq!(g.to_u8('5').unwrap(), 5);
    assert_eq!(g.to_u8('9').unwrap(), 9);
    assert!(g.to_u8('A').is_err());
    assert!(g.to_u8('D').is_err());
    assert!(g.to_u8('&').is_err());
}

#[test]
fn game_params_test_to_u8_13() {
    let g = GameParams::new(2).with_total_digits_number(13);
    assert_eq!(g.to_u8('0').unwrap(), 0);
    assert_eq!(g.to_u8('5').unwrap(), 5);
    assert_eq!(g.to_u8('9').unwrap(), 9);
    assert_eq!(g.to_u8('A').unwrap(), 10);
    assert_eq!(g.to_u8('C').unwrap(), 12);
    assert!(g.to_u8('D').is_err());
    assert!(g.to_u8('Q').is_err());
    assert!(g.to_u8('&').is_err());
}

fn gen_number(b: &[u8]) -> Number {
    Number::new(b.iter().map(|x| *x).collect())
}

#[test]
fn game_params_test_to_string_value() {
    let g = GameParams::new(4);
    assert_eq!(
        g.to_string_value(&gen_number(&[6, 7, 4, 0])).unwrap(),
        "6740"
    );

    assert!(g.to_string_value(&gen_number(&[7, 7, 4, 0])).is_none());
    assert!(g.to_string_value(&gen_number(&[7, 10, 4, 0])).is_none());

    let g = g.with_repetitions(true);
    assert_eq!(
        g.to_string_value(&gen_number(&[6, 7, 4, 0])).unwrap(),
        "6740"
    );
    assert_eq!(
        g.to_string_value(&gen_number(&[7, 7, 4, 0])).unwrap(),
        "7740"
    );
    assert!(g.to_string_value(&gen_number(&[7, 10, 4, 0])).is_none());
}

#[test]
fn game_utils_test_to_char_6() {
    let g = GameParams::new(5).with_base(6);
    assert_eq!(g.to_char(0).unwrap(), '0');
    assert_eq!(g.to_char(5).unwrap(), '5');
    assert!(g.to_char(6).is_err());
    assert!(g.to_char(13).is_err());
    assert!(g.to_char(40).is_err());
}

#[test]
fn game_utils_test_to_char_10() {
    let g = GameParams::new(5).with_base(10);
    assert_eq!(g.to_char(0).unwrap(), '0');
    assert_eq!(g.to_char(5).unwrap(), '5');
    assert_eq!(g.to_char(9).unwrap(), '9');
    assert!(g.to_char(10).is_err());
    assert!(g.to_char(13).is_err());
    assert!(g.to_char(40).is_err());
}

#[test]
fn game_utils_test_to_char_17() {
    let g = GameParams::new(5).with_base(17);
    assert_eq!(g.to_char(0).unwrap(), '0');
    assert_eq!(g.to_char(5).unwrap(), '5');
    assert_eq!(g.to_char(9).unwrap(), '9');
    assert_eq!(g.to_char(13).unwrap(), 'D');
    assert_eq!(g.to_char(16).unwrap(), 'G');
    assert!(g.to_char(17).is_err());
    assert!(g.to_char(20).is_err());
    assert!(g.to_char(40).is_err());
}

#[test]
fn game_utils_test_to_u8_6() {
    let g = GameParams::new(2).with_base(6);
    assert_eq!(g.to_u8('0').unwrap(), 0);
    assert_eq!(g.to_u8('5').unwrap(), 5);
    assert!(g.to_u8('6').is_err());
    assert!(g.to_u8('D').is_err());
    assert!(g.to_u8('&').is_err());
}

#[test]
fn game_utils_test_to_u8_10() {
    let g = GameParams::new(2).with_base(10);
    assert_eq!(g.to_u8('0').unwrap(), 0);
    assert_eq!(g.to_u8('5').unwrap(), 5);
    assert_eq!(g.to_u8('9').unwrap(), 9);
    assert!(g.to_u8('A').is_err());
    assert!(g.to_u8('D').is_err());
    assert!(g.to_u8('&').is_err());
}

#[test]
fn game_utils_test_to_u8_13() {
    let g = GameParams::new(2).with_base(13);
    assert_eq!(g.to_u8('0').unwrap(), 0);
    assert_eq!(g.to_u8('5').unwrap(), 5);
    assert_eq!(g.to_u8('9').unwrap(), 9);
    assert_eq!(g.to_u8('A').unwrap(), 10);
    assert_eq!(g.to_u8('C').unwrap(), 12);
    assert!(g.to_u8('D').is_err());
    assert!(g.to_u8('Q').is_err());
    assert!(g.to_u8('&').is_err());
}

#[test]
fn game_utils_test_to_string_value() {
    let g = GameParams::new(4);
    assert_eq!(
        g.to_string_checked(&gen_number(&[6, 7, 4, 0])).unwrap(),
        "6740"
    );

    assert!(g.to_string_checked(&gen_number(&[7, 7, 4, 0])).is_none());
    assert!(g.to_string_checked(&gen_number(&[7, 10, 4, 0])).is_none());

    let g = g.with_repetitions(true);
    assert_eq!(
        g.to_string_checked(&gen_number(&[6, 7, 4, 0])).unwrap(),
        "6740"
    );
    assert_eq!(
        g.to_string_checked(&gen_number(&[7, 7, 4, 0])).unwrap(),
        "7740"
    );
    assert!(g.to_string_checked(&gen_number(&[7, 10, 4, 0])).is_none());
}

#[test]
fn symbol_errors_name_their_cause() {
    let g = GameParams::new(4).with_base(12);
    assert_eq!(g.to_char(12), Err(SymbolError::ValueTooLarge(12)));
    assert_eq!(g.to_char(200), Err(SymbolError::ValueTooLarge(200)));
    assert_eq!(g.to_u8('%'), Err(SymbolError::CharOutOfRange('%')));
    assert_eq!(g.to_u8('a'), Err(SymbolError::CharOutOfRange('a')));
    assert_eq!(g.to_u8('C'), Err(SymbolError::DigitTooLarge('C')));
    assert_eq!(g.to_u8('B'), Ok(11));
    assert_eq!(g.to_char(11), Ok('B'));
}

#[test]
fn largest_alphabet_reaches_z() {
    let g = GameParams::new(1).with_base(36);
    assert_eq!(g.to_char(35), Ok('Z'));
    assert_eq!(g.to_u8('Z'), Ok(35));
    assert_eq!(g.to_char(10), Ok('A'));
    assert!(g.to_char(36).is_err());
}

#[test]
fn checked_reading_wants_the_right_length() {
    let g = GameParams::new(4);
    assert_eq!(g.to_number_checked("6740").unwrap(), gen_number(&[6, 7, 4, 0]));
    assert!(g.to_number_checked("674").is_none());
    assert!(g.to_number_checked("67401").is_none());
    assert!(g.to_number_checked("6770").is_none());
    assert!(g.to_number_checked("67A0").is_none());
    assert!(g.to_number_checked("67a0").is_none());
    assert_eq!(g.to_byte_vec_value("674").unwrap(), gen_number(&[6, 7, 4]));
    assert!(g.to_byte_vec_value("6774").is_none());
    let g = g.with_repetitions(true);
    assert_eq!(g.to_number_checked("6770").unwrap(), gen_number(&[6, 7, 7, 0]));
    assert!(g.to_string_checked(&gen_number(&[6, 7, 4])).is_none());
}

#[test]
fn digits_of_thirty_six_and_more_are_refused() {
    let g = GameParams::new(2).with_base(36).with_repetitions(true);
    assert!(g.to_string_value(&gen_number(&[36, 0])).is_none());
    assert!(g.to_string_value(&gen_number(&[255, 255])).is_none());
    assert_eq!(g.to_string_value(&gen_number(&[35, 0])).unwrap(), "Z0");
}

#[test]
fn number_reads_and_writes_its_text() {
    let n = Number::from("09AZ");
    assert_eq!(n.digits(), &vec![0, 9, 10, 35]);
    assert_eq!(n.to_string(), "09AZ");
    assert_eq!(n.len(), 4);
    assert!(n.same_as(&n.clone()));
    assert!(!n.same_as(&Number::from("09A")));
    assert_eq!(Number::default().len(), 0);
    assert_eq!(n.into_digits(), vec![0, 9, 10, 35]);
}

#[test]
fn getters_report_the_configuration() {
    let g = GameParams::new(7).with_base(9).with_repetitions(true);
    assert_eq!(g.number_len(), 7);
    assert_eq!(g.base(), 9);
    assert!(g.has_repetitions());
    let h = GameParams::new(3);
    assert_eq!(h.base(), 10);
    assert!(!h.has_repetitions());
}
