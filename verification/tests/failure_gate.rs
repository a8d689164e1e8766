use cairo_lang_runner::short_string::as_cairo_short_string;
use num_bigint::BigUint;
use stack_profile::error::ProfileError;
use stack_profile::gate::{
    check_outcome, decode_short_string, panic_message, text_byte, PanicValue, RunOutcome,
};

fn value(bytes: &[u8], number: &str) -> PanicValue {
    PanicValue { bytes: bytes.to_vec(), number: number.as_bytes().to_vec() }
}

#[test]
fn small_numbers_are_listed_with_a_comma_between() {
    let values = vec![value(&[1], "1"), value(&[2], "2")];
    assert_eq!(panic_message(&values), b"panicked with [1, 2]".to_vec());
    assert_eq!(
        check_outcome(&RunOutcome::Panic { values }),
        Err(ProfileError::ProgramPanicked { message: b"panicked with [1, 2]".to_vec() })
    );
}

#[test]
fn text_payloads_are_shown_as_text() {
    let values = vec![
        value(b"Option::unwrap failed.", "29721761890975875353235833581453094220424382983267374"),
        value(&[0xff, 0x00], "65280"),
        value(b"u32_sub Overflow", "155785504329508738615720351733824384887"),
    ];
    assert_eq!(
        panic_message(&values),
        b"panicked with [Option::unwrap failed., 65280, u32_sub Overflow]".to_vec()
    );
}

#[test]
fn an_empty_payload_gives_empty_brackets() {
    assert_eq!(panic_message(&Vec::new()), b"panicked with []".to_vec());
    assert_eq!(panic_message(&vec![value(&[0], "0")]), b"panicked with []".to_vec());
}

#[test]
fn a_run_that_returned_passes() {
    assert_eq!(check_outcome(&RunOutcome::Success), Ok(()));
}

#[test]
fn short_strings_are_text_then_zeros() {
    assert_eq!(decode_short_string(b"abc"), Some(b"abc".to_vec()));
    assert_eq!(decode_short_string(b"a b\tc\n"), Some(b"a b\tc\n".to_vec()));
    assert_eq!(decode_short_string(b"ab\0\0"), Some(b"ab".to_vec()));
    assert_eq!(decode_short_string(b"\0"), Some(Vec::new()));
    assert_eq!(decode_short_string(b""), Some(Vec::new()));
    assert_eq!(decode_short_string(b"a\0b"), None);
    assert_eq!(decode_short_string(&[0x01]), None);
    assert_eq!(decode_short_string(&[0x61, 0x7f]), None);
    assert_eq!(decode_short_string(&[0x61, 0x0b]), None);
    assert_eq!(decode_short_string(&[0x61, 0x80]), None);
    assert_eq!(decode_short_string(&[0x61, 0x00, 0x01]), None);
}

#[test]
fn short_strings_are_read_as_the_runner_reads_them() {
    let numbers: Vec<BigUint> = vec![
        BigUint::from(0u8),
        BigUint::from(1u8),
        BigUint::from(2u8),
        BigUint::from(0x20u8),
        BigUint::from(0x7fu8),
        BigUint::from(0x6100u32),
        BigUint::from(0x610062u32),
        BigUint::from(0x0b61u32),
        BigUint::from(0x610000u32),
        BigUint::from_bytes_be(b"Option::unwrap failed."),
        BigUint::from_bytes_be(b"u32_sub Overflow"),
        BigUint::from_bytes_be(b"tab\tand\nnewline"),
        BigUint::from_bytes_be(&[0x61, 0xff, 0x62]),
        BigUint::from_bytes_be(b"Thirty-one bytes of plain text."),
    ];
    for number in numbers {
        let expected = as_cairo_short_string(&number.clone().into()).map(String::into_bytes);
        assert_eq!(decode_short_string(&number.to_bytes_be()), expected);
    }
}

#[test]
fn text_bytes_are_visible_characters_and_white_space() {
    for byte in 0u8..=255 {
        let expected = byte.is_ascii_graphic() || byte.is_ascii_whitespace();
        assert_eq!(text_byte(byte), expected);
    }
}
