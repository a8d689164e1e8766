use stack_profile::aggregate::aggregate_text;
use stack_profile::decimal::{parse_weight, write_decimal};
use stack_profile::error::ProfileError;
use stack_profile::folded::{
    encode_folded, encode_folded_line, folds_losslessly, is_foldable, is_free_of, write_bytes,
    write_stack,
};
use stack_profile::model::Sample;
use stack_profile::parse::{parse_line, parse_samples, split_lines};
use stack_profile::profile::AggregatedProfile;
use stack_profile::text::{copy_range, find_last, split};

fn stack(names: &[&str]) -> Vec<Vec<u8>> {
    names.iter().map(|name| name.as_bytes().to_vec()).collect()
}

fn invalid(line: &[u8]) -> Result<Sample, ProfileError> {
    Err(ProfileError::InvalidSampleFormat { line: line.to_vec() })
}

fn decimal(value: u64) -> Vec<u8> {
    let mut out = Vec::new();
    write_decimal(&mut out, value);
    out
}

#[test]
fn a_line_is_split_at_its_last_space() {
    assert_eq!(
        parse_line(b"core::array get;my frame 7"),
        Ok(Sample { stack: stack(&["core::array get", "my frame"]), weight: 7 })
    );
    assert_eq!(parse_line(b" 3"), Ok(Sample { stack: stack(&[""]), weight: 3 }));
    assert_eq!(parse_line(b"a;;b 0"), Ok(Sample { stack: stack(&["a", "", "b"]), weight: 0 }));
    assert_eq!(parse_line(b"a; 1"), Ok(Sample { stack: stack(&["a", ""]), weight: 1 }));
}

#[test]
fn a_line_without_weight_is_rejected() {
    assert_eq!(parse_line(b"abc"), invalid(b"abc"));
    assert_eq!(parse_line(b""), invalid(b""));
    assert_eq!(parse_line(b"a;b "), invalid(b"a;b "));
    assert_eq!(parse_line(b"a;b x"), invalid(b"a;b x"));
    assert_eq!(parse_line(b"a;b 5x"), invalid(b"a;b 5x"));
    assert_eq!(parse_line(b"a;b -5"), invalid(b"a;b -5"));
    assert_eq!(parse_line(b"a;b 5 "), invalid(b"a;b 5 "));
    assert_eq!(parse_line(b"a;b 1.5"), invalid(b"a;b 1.5"));
}

#[test]
fn weights_are_decimal_and_fit_in_64_bits() {
    assert_eq!(parse_weight(b"0"), Some(0));
    assert_eq!(parse_weight(b"007"), Some(7));
    assert_eq!(parse_weight(b"+42"), Some(42));
    assert_eq!(parse_weight(b"18446744073709551615"), Some(u64::MAX));
    assert_eq!(parse_weight(b"18446744073709551616"), None);
    assert_eq!(parse_weight(b"99999999999999999999999"), None);
    assert_eq!(parse_weight(b""), None);
    assert_eq!(parse_weight(b"+"), None);
    assert_eq!(parse_weight(b"++1"), None);
    assert_eq!(parse_weight(b"-1"), None);
    assert_eq!(parse_weight(b"1+"), None);
    assert_eq!(parse_weight(b"12a"), None);
    assert_eq!(parse_weight(b" 1"), None);
}

#[test]
fn weights_are_written_without_leading_zeros() {
    assert_eq!(decimal(0), b"0".to_vec());
    assert_eq!(decimal(9), b"9".to_vec());
    assert_eq!(decimal(10), b"10".to_vec());
    assert_eq!(decimal(1234567890), b"1234567890".to_vec());
    assert_eq!(decimal(u64::MAX), b"18446744073709551615".to_vec());
    let mut out = b"x ".to_vec();
    write_decimal(&mut out, 305);
    assert_eq!(out, b"x 305".to_vec());
}

#[test]
fn written_weights_read_back() {
    for value in [0u64, 1, 9, 10, 99, 100, 4096, 1 << 40, u64::MAX - 1, u64::MAX] {
        assert_eq!(parse_weight(&decimal(value)), Some(value));
    }
}

#[test]
fn splitting_keeps_empty_pieces() {
    assert_eq!(split(b"a;b;c", b';'), stack(&["a", "b", "c"]));
    assert_eq!(split(b"", b';'), stack(&[""]));
    assert_eq!(split(b";", b';'), stack(&["", ""]));
    assert_eq!(split(b"a;;b;", b';'), stack(&["a", "", "b", ""]));
    assert_eq!(split(b"no separator", b';'), stack(&["no separator"]));
}

#[test]
fn the_last_occurrence_is_found() {
    assert_eq!(find_last(b"a b c", b' '), Some(3));
    assert_eq!(find_last(b" abc", b' '), Some(0));
    assert_eq!(find_last(b"abc", b' '), None);
    assert_eq!(find_last(b"", b' '), None);
    assert_eq!(copy_range(b"hello world", 6, 11), b"world".to_vec());
    assert_eq!(copy_range(b"hello", 2, 2), Vec::<u8>::new());
}

#[test]
fn lines_end_at_newlines() {
    assert_eq!(split_lines(b""), Vec::<Vec<u8>>::new());
    assert_eq!(split_lines(b"a 1"), stack(&["a 1"]));
    assert_eq!(split_lines(b"a 1\n"), stack(&["a 1"]));
    assert_eq!(split_lines(b"a 1\nb 2"), stack(&["a 1", "b 2"]));
    assert_eq!(split_lines(b"a 1\n\nb 2\n"), stack(&["a 1", "", "b 2"]));
    assert_eq!(split_lines(b"\n"), stack(&[""]));
    assert_eq!(split_lines(b"a 1\r\nb 2\r\n"), stack(&["a 1", "b 2"]));
    assert_eq!(split_lines(b"a 1\r"), stack(&["a 1\r"]));
    assert_eq!(split_lines(b"a\r\r\n"), stack(&["a\r"]));
}

#[test]
fn every_line_of_a_text_is_a_sample() {
    assert_eq!(
        parse_samples(b"a;b 2\r\na;b 4\nc 1"),
        Ok(vec![
            Sample { stack: stack(&["a", "b"]), weight: 2 },
            Sample { stack: stack(&["a", "b"]), weight: 4 },
            Sample { stack: stack(&["c"]), weight: 1 },
        ])
    );
    assert_eq!(parse_samples(b""), Ok(Vec::new()));
    assert_eq!(
        parse_samples(b"a 1\n\nb 2\n"),
        Err(ProfileError::InvalidSampleFormat { line: Vec::new() })
    );
    assert_eq!(
        parse_samples(b"a 1\nb two\nc\n"),
        Err(ProfileError::InvalidSampleFormat { line: b"b two".to_vec() })
    );
    assert_eq!(
        parse_samples(b"a 1\r\nb 2x\r\n"),
        Err(ProfileError::InvalidSampleFormat { line: b"b 2x".to_vec() })
    );
}

#[test]
fn frames_are_joined_root_first() {
    let mut out = Vec::new();
    write_stack(&mut out, &stack(&["root", "mid", "leaf"]));
    assert_eq!(out, b"root;mid;leaf".to_vec());
    let mut single = b"> ".to_vec();
    write_stack(&mut single, &stack(&["only"]));
    assert_eq!(single, b"> only".to_vec());
    let mut none = b"kept".to_vec();
    write_stack(&mut none, &stack(&[]));
    assert_eq!(none, b"kept".to_vec());
    write_bytes(&mut none, b" and more");
    assert_eq!(none, b"kept and more".to_vec());
}

#[test]
fn a_folded_line_is_frames_space_weight() {
    assert_eq!(encode_folded_line(&stack(&["a", "b", "c"]), 5), b"a;b;c 5".to_vec());
    assert_eq!(encode_folded_line(&stack(&["only"]), 0), b"only 0".to_vec());
    assert_eq!(
        parse_line(&encode_folded_line(&stack(&["has space", "x"]), 77)),
        Ok(Sample { stack: stack(&["has space", "x"]), weight: 77 })
    );
}

#[test]
fn folded_text_reads_back_as_the_profile() {
    let mut profile = AggregatedProfile::new();
    profile.add(&stack(&["main", "a b", "c"]), 12).unwrap();
    profile.add(&stack(&["main"]), 0).unwrap();
    profile.add(&stack(&["main", "", "x"]), u64::MAX).unwrap();
    profile.add(&stack(&["main", "a b", "c"]), 30).unwrap();
    let text = encode_folded(&profile);
    assert_eq!(text, b"main;a b;c 42\nmain 0\nmain;;x 18446744073709551615\n".to_vec());
    assert_eq!(aggregate_text(&text), Ok(profile));
}

#[test]
fn a_semicolon_in_a_frame_name_does_not_read_back() {
    let mut profile = AggregatedProfile::new();
    profile.add(&stack(&["a;b"]), 1).unwrap();
    let back = aggregate_text(&encode_folded(&profile)).unwrap();
    assert_eq!(back.len(), 1);
    assert_eq!(back.stack(0), &stack(&["a", "b"]));
    assert_ne!(back, profile);
}

#[test]
fn what_folded_text_cannot_carry_is_told_in_advance() {
    assert!(is_free_of(b"abc", b';'));
    assert!(is_free_of(b"", b';'));
    assert!(!is_free_of(b"a;c", b';'));
    assert!(is_foldable(&stack(&["main", "a b", ""])));
    assert!(!is_foldable(&stack(&[])));
    assert!(!is_foldable(&stack(&["main", "a;b"])));
    assert!(!is_foldable(&stack(&["main", "a\nb"])));

    let mut profile = AggregatedProfile::new();
    assert!(folds_losslessly(&profile));
    profile.add(&stack(&["main", "f"]), 3).unwrap();
    profile.add(&stack(&["main", "g h"]), 4).unwrap();
    assert!(folds_losslessly(&profile));
    assert_eq!(aggregate_text(&encode_folded(&profile)), Ok(profile.clone()));
    profile.add(&stack(&[]), 5).unwrap();
    assert!(!folds_losslessly(&profile));
    assert_ne!(aggregate_text(&encode_folded(&profile)), Ok(profile));
}
