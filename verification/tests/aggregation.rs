use stack_profile::aggregate::{adjust_weights, adjusted_weight, aggregate, aggregate_text};
use stack_profile::error::ProfileError;
use stack_profile::folded::encode_folded;
use stack_profile::gate::{PanicValue, RunOutcome};
use stack_profile::model::Sample;
use stack_profile::profile::{bytes_equal, copy_stack, stacks_equal, AggregatedProfile};

fn stack(names: &[&str]) -> Vec<Vec<u8>> {
    names.iter().map(|name| name.as_bytes().to_vec()).collect()
}

fn sample(names: &[&str], weight: u64) -> Sample {
    Sample { stack: stack(names), weight }
}

fn entries(profile: &AggregatedProfile) -> Vec<(Vec<Vec<u8>>, u64)> {
    (0..profile.len()).map(|i| (profile.stack(i).clone(), profile.weight(i))).collect()
}

#[test]
fn two_distinct_stacks_keep_their_weights_and_order() {
    let profile = aggregate_text(b"a;b;c 5\na;b;d 3").unwrap();
    assert_eq!(
        entries(&profile),
        vec![(stack(&["a", "b", "c"]), 5), (stack(&["a", "b", "d"]), 3)]
    );
    assert_eq!(encode_folded(&profile), b"a;b;c 5\na;b;d 3\n".to_vec());
}

#[test]
fn a_repeated_stack_is_one_entry_with_the_sum() {
    let profile = aggregate_text(b"a;b 2\na;b 4\n").unwrap();
    assert_eq!(entries(&profile), vec![(stack(&["a", "b"]), 6)]);
}

#[test]
fn a_line_without_a_space_is_rejected() {
    assert_eq!(
        aggregate_text(b"abc"),
        Err(ProfileError::InvalidSampleFormat { line: b"abc".to_vec() })
    );
    assert_eq!(
        aggregate_text(b"a 1\nabc\nb 2\nxyz\n"),
        Err(ProfileError::InvalidSampleFormat { line: b"abc".to_vec() })
    );
}

#[test]
fn no_samples_give_an_empty_profile() {
    let profile = aggregate(&Vec::new()).unwrap();
    assert_eq!(profile.len(), 0);
    assert_eq!(profile, AggregatedProfile::new());
    assert_eq!(aggregate_text(b"").unwrap().len(), 0);
    assert_eq!(encode_folded(&profile), Vec::<u8>::new());
}

#[test]
fn weights_add_up_and_stacks_are_those_of_the_samples() {
    let samples = vec![
        sample(&["main", "f"], 7),
        sample(&["main"], 1),
        sample(&["main", "f"], 5),
        sample(&["main", "g"], 0),
        sample(&["main"], 30),
    ];
    let profile = aggregate(&samples).unwrap();
    let got = entries(&profile);
    assert_eq!(
        got,
        vec![(stack(&["main", "f"]), 12), (stack(&["main"]), 31), (stack(&["main", "g"]), 0)]
    );
    let total_in: u64 = samples.iter().map(|s| s.weight).sum();
    let total_out: u64 = got.iter().map(|e| e.1).sum();
    assert_eq!(total_in, 43);
    assert_eq!(total_out, 43);
    for s in &samples {
        assert!(got.iter().any(|e| e.0 == s.stack));
    }
    for e in &got {
        assert!(samples.iter().any(|s| s.stack == e.0));
    }
}

#[test]
fn entries_stand_in_first_seen_order() {
    let samples = vec![
        sample(&["z"], 1),
        sample(&["a"], 1),
        sample(&["z"], 1),
        sample(&["m"], 1),
        sample(&["a"], 1),
    ];
    let profile = aggregate(&samples).unwrap();
    let keys: Vec<Vec<Vec<u8>>> = entries(&profile).into_iter().map(|e| e.0).collect();
    assert_eq!(keys, vec![stack(&["z"]), stack(&["a"]), stack(&["m"])]);
    assert_eq!(profile.find(&stack(&["a"])), Some(1));
    assert_eq!(profile.find(&stack(&["q"])), None);
}

#[test]
fn stacks_differ_by_order_and_length_of_frames() {
    let samples = vec![
        sample(&["a", "b"], 1),
        sample(&["b", "a"], 2),
        sample(&["a"], 4),
        sample(&[], 8),
        sample(&["a", "b"], 16),
        sample(&[], 32),
    ];
    let profile = aggregate(&samples).unwrap();
    assert_eq!(
        entries(&profile),
        vec![
            (stack(&["a", "b"]), 17),
            (stack(&["b", "a"]), 2),
            (stack(&["a"]), 4),
            (stack(&[]), 40)
        ]
    );
}

#[test]
fn a_sum_past_64_bits_is_an_overflow() {
    let samples = vec![sample(&["a"], u64::MAX), sample(&["b"], 1), sample(&["a"], 1)];
    assert_eq!(aggregate(&samples), Err(ProfileError::WeightOverflow));
    let fits = vec![sample(&["a"], u64::MAX - 1), sample(&["b"], u64::MAX), sample(&["a"], 1)];
    let profile = aggregate(&fits).unwrap();
    assert_eq!(profile.weight(0), u64::MAX);
    assert_eq!(profile.weight(1), u64::MAX);
    assert_eq!(
        aggregate_text(b"a 18446744073709551615\na 1\n"),
        Err(ProfileError::WeightOverflow)
    );
}

#[test]
fn add_leaves_the_profile_alone_on_overflow() {
    let mut profile = AggregatedProfile::new();
    assert_eq!(profile.add(&stack(&["a"]), 10), Ok(()));
    assert_eq!(profile.add(&stack(&["b"]), 20), Ok(()));
    assert_eq!(profile.add(&stack(&["a"]), u64::MAX - 9), Err(ProfileError::WeightOverflow));
    assert_eq!(entries(&profile), vec![(stack(&["a"]), 10), (stack(&["b"]), 20)]);
    assert_eq!(profile.add(&stack(&["a"]), u64::MAX - 10), Ok(()));
    assert_eq!(profile.weight(0), u64::MAX);
}

#[test]
fn test_adjust_weights() {
    let mut profile = aggregate_text(b"main;felt_add 10\nmain;store 3\nmain;felt_add 5\n").unwrap();
    let before = profile.clone();
    adjust_weights(&mut profile);
    assert_eq!(profile, before);
    assert_eq!(
        entries(&profile),
        vec![(stack(&["main", "felt_add"]), 15), (stack(&["main", "store"]), 3)]
    );
    assert_eq!(adjusted_weight(&stack(&["main", "felt_add"]), 15), 15);

    let samples = vec![
        sample(&["main", "felt_add"], 10),
        sample(&["main", "store"], 3),
        sample(&["main", "felt_add"], 5),
    ];
    let profiled = stack_profile::profiler::profile(&RunOutcome::Success, &samples)
        .expect("failed to profile");
    assert_eq!(profiled, before);
}

#[test]
fn set_weight_changes_one_weight_and_no_stack() {
    let mut profile = aggregate_text(b"a 1\nb 2\nc 3\n").unwrap();
    profile.set_weight(1, 20);
    assert_eq!(
        entries(&profile),
        vec![(stack(&["a"]), 1), (stack(&["b"]), 20), (stack(&["c"]), 3)]
    );
}

#[test]
fn byte_strings_and_stacks_compare_by_content() {
    assert!(bytes_equal(&b"abc".to_vec(), &b"abc".to_vec()));
    assert!(!bytes_equal(&b"abc".to_vec(), &b"abd".to_vec()));
    assert!(!bytes_equal(&b"abc".to_vec(), &b"ab".to_vec()));
    assert!(stacks_equal(&stack(&["a", "b"]), &stack(&["a", "b"])));
    assert!(!stacks_equal(&stack(&["a", "b"]), &stack(&["a", "c"])));
    assert!(!stacks_equal(&stack(&["a", "b"]), &stack(&["a"])));
    assert_eq!(copy_stack(&stack(&["x", "", "yz"])), stack(&["x", "", "yz"]));
}

#[test]
fn a_run_that_returned_is_profiled() {
    let samples = vec![sample(&["main", "f"], 7), sample(&["main"], 1), sample(&["main", "f"], 5)];
    let profile = stack_profile::profiler::profile(&RunOutcome::Success, &samples).unwrap();
    assert_eq!(entries(&profile), vec![(stack(&["main", "f"]), 12), (stack(&["main"]), 1)]);
    assert_eq!(profile, aggregate(&samples).unwrap());
}

#[test]
fn a_run_that_panicked_gives_no_profile() {
    let samples = vec![sample(&["main"], 1)];
    let values = vec![
        PanicValue { bytes: vec![1], number: b"1".to_vec() },
        PanicValue { bytes: vec![2], number: b"2".to_vec() },
    ];
    assert_eq!(
        stack_profile::profiler::profile(&RunOutcome::Panic { values }, &samples),
        Err(ProfileError::ProgramPanicked { message: b"panicked with [1, 2]".to_vec() })
    );
}

#[test]
fn a_run_whose_weights_overflow_gives_no_profile() {
    let samples = vec![sample(&["main"], u64::MAX), sample(&["main"], 1)];
    assert_eq!(
        stack_profile::profiler::profile(&RunOutcome::Success, &samples),
        Err(ProfileError::WeightOverflow)
    );
}
