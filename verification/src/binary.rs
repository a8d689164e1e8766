use crate::aggregate::aggregate;
use crate::container::{
    empty_report, gzip, gzip_stream, is_plain_label, message_bytes, message_samples,
    message_wire, report_frequency, report_insert, report_message, report_samples, shown_name,
};
use crate::error::ProfileError;
use crate::model::{aggregate_model, distinct_stacks, lemma_stack_view_push, stack_view, weights_fit};
use crate::parse::{is_first_malformed, lines_model, parse_samples, text_model};
use crate::profile::{copy_bytes, AggregatedProfile};
use vstd::multiset::Multiset;
use vstd::prelude::*;

verus! {

/// The largest weight that the profile container takes: it also stores each
/// weight as a time in nanoseconds, a billion times the weight, in 63 bits.
pub const MAX_BINARY_WEIGHT: u64 = 9_223_372_036;

/// The name of the one thread that every sample is attributed to.
pub open spec fn thread_name_model() -> Seq<u8> {
    seq![0x6d, 0x61, 0x69, 0x6e]
}

/// One sample as the profile container stores it.
#[derive(Debug, Clone, PartialEq, Eq)]
pub struct SampleRecord {
    /// Frame names, leaf first.
    pub frames: Vec<Vec<u8>>,
    pub weight: u64,
    pub thread_name: Vec<u8>,
    pub thread_id: u64,
    /// When the sample was captured, in nanoseconds since the Unix epoch.
    pub captured_at: u64,
}

/// What a sample record holds.
pub struct RecordModel {
    pub frames: Seq<Seq<u8>>,
    pub weight: nat,
    pub thread_name: Seq<u8>,
    pub thread_id: nat,
    pub captured_at: nat,
}

impl View for SampleRecord {
    type V = RecordModel;

    open spec fn view(&self) -> RecordModel {
        RecordModel {
            frames: stack_view(self.frames@),
            weight: self.weight as nat,
            thread_name: self.thread_name@,
            thread_id: self.thread_id as nat,
            captured_at: self.captured_at as nat,
        }
    }
}

/// What a sequence of sample records holds.
pub open spec fn records_view(records: Seq<SampleRecord>) -> Seq<RecordModel> {
    records.map_values(|record: SampleRecord| record@)
}

/// The record of one profile entry: its stack reversed, its weight as it is,
/// on the thread `main` with identifier 0.
pub open spec fn record_model(entry: (Seq<Seq<u8>>, nat), captured_at: nat) -> RecordModel {
    RecordModel {
        frames: entry.0.reverse(),
        weight: entry.1,
        thread_name: thread_name_model(),
        thread_id: 0,
        captured_at,
    }
}

/// The records of a profile: one for each entry, in order.
pub open spec fn records_model(entries: Seq<(Seq<Seq<u8>>, nat)>, captured_at: nat) -> Seq<
    RecordModel,
> {
    entries.map_values(|entry: (Seq<Seq<u8>>, nat)| record_model(entry, captured_at))
}

/// The profile entry that a record stands for: its frames put back root
/// first, with its weight.
pub open spec fn entry_of(record: RecordModel) -> (Seq<Seq<u8>>, nat) {
    (record.frames.reverse(), record.weight)
}

/// Every weight is one that the profile container takes.
pub open spec fn binary_weights_fit(entries: Seq<(Seq<Seq<u8>>, nat)>) -> bool {
    forall|i: int|
        0 <= i < entries.len() ==> (#[trigger] entries[i]).1 <= MAX_BINARY_WEIGHT && entries[i].1
            <= isize::MAX
}

/// Reversing a stack twice gives the stack.
pub proof fn lemma_reverse_twice(stack: Seq<Seq<u8>>)
    ensures
        stack.reverse().reverse() == stack,
{
    assert(stack.reverse().reverse() =~= stack);
}

/// The records of a profile give its entries back: each record's frames,
/// reversed, and its weight are the entry that it was made from.
pub proof fn lemma_records_restore(entries: Seq<(Seq<Seq<u8>>, nat)>, captured_at: nat)
    ensures
        records_model(entries, captured_at).map_values(|record: RecordModel| entry_of(record))
            == entries,
{
    let restored = records_model(entries, captured_at).map_values(
        |record: RecordModel| entry_of(record),
    );
    assert forall|i: int| 0 <= i < entries.len() implies restored[i] == entries[i] by {
        lemma_reverse_twice(entries[i].0);
    }
    assert(restored =~= entries);
}

/// A copy of a stack with the leaf first.
pub fn reversed_stack(stack: &Vec<Vec<u8>>) -> (reversed: Vec<Vec<u8>>)
    ensures
        stack_view(reversed@) == stack_view(stack@).reverse(),
{
    let mut reversed: Vec<Vec<u8>> = Vec::new();
    let mut i: usize = stack.len();
    let ghost target = stack_view(stack@).reverse();
    while i > 0
        invariant
            i <= stack.len(),
            target == stack_view(stack@).reverse(),
            stack_view(reversed@) == target.take(stack.len() - i),
        decreases i,
    {
        i -= 1;
        let ghost before = reversed@;
        let frame = copy_bytes(&stack[i]);
        reversed.push(frame);
        proof {
            lemma_stack_view_push(before, frame);
            assert(stack_view(stack@)[i as int] == stack@[i as int]@);
            assert(stack_view(reversed@) =~= target.take(stack.len() - i));
        }
    }
    proof {
        assert(target.take(stack.len() as int) =~= target);
    }
    reversed
}

/// The bytes of the thread name `main`.
pub fn thread_name() -> (name: Vec<u8>)
    ensures
        name@ == thread_name_model(),
{
    let mut name: Vec<u8> = Vec::new();
    name.push(0x6d);
    name.push(0x61);
    name.push(0x69);
    name.push(0x6e);
    proof {
        assert(name@ =~= thread_name_model());
    }
    name
}

/// Builds the sample records of a profile, one for each entry.
pub fn sample_records(profile: &AggregatedProfile, captured_at: u64) -> (records: Vec<SampleRecord>)
    requires
        profile.wf(),
    ensures
        records_view(records@) == records_model(
            profile@,
            captured_at as nat,
        ),
{
    let ghost model = records_model(profile@, captured_at as nat);
    let mut records: Vec<SampleRecord> = Vec::new();
    let count = profile.len();
    let mut i: usize = 0;
    while i < count
        invariant
            i <= count,
            count == profile@.len(),
            profile.wf(),
            model == records_model(profile@, captured_at as nat),
            records@.len() == i,
            records_view(records@) == model.take(i as int),
        decreases count - i,
    {
        let record = SampleRecord {
            frames: reversed_stack(profile.stack(i)),
            weight: profile.weight(i),
            thread_name: thread_name(),
            thread_id: 0,
            captured_at,
        };
        let ghost before = records@;
        records.push(record);
        proof {
            assert(record@ == model[i as int]);
            assert forall|k: int| 0 <= k < i + 1 implies records_view(records@)[k] == model.take(
                i + 1,
            )[k] by {
                if k < i {
                    assert(records@[k] == before[k]);
                    assert(records_view(before)[k] == model.take(i as int)[k]);
                }
            }
            assert(records_view(records@) =~= model.take(i + 1));
        }
        i += 1;
    }
    proof {
        assert(model.take(count as int) =~= model);
    }
    records
}

/// Whether the profile container takes every weight of the profile.
pub fn weights_in_range(profile: &AggregatedProfile) -> (fit: bool)
    requires
        profile.wf(),
    ensures
        fit == binary_weights_fit(profile@),
{
    let count = profile.len();
    let mut i: usize = 0;
    while i < count
        invariant
            i <= count,
            count == profile@.len(),
            profile.wf(),
            forall|k: int|
                0 <= k < i ==> (#[trigger] profile@[k]).1 <= MAX_BINARY_WEIGHT && profile@[k].1
                    <= isize::MAX,
        decreases count - i,
    {
        let weight = profile.weight(i);
        if weight > MAX_BINARY_WEIGHT || weight > isize::MAX as u64 {
            proof {
                assert(!(profile@[i as int].1 <= MAX_BINARY_WEIGHT && profile@[i as int].1
                    <= isize::MAX));
            }
            return false;
        }
        i += 1;
    }
    true
}

/// Compresses the serialized container, or reports that there is none: a
/// missing container is an encoding error.
pub fn pack_container(serialized: Option<Vec<u8>>) -> (result: Result<Vec<u8>, ProfileError>)
    ensures
        match serialized {
            None => result == Err::<Vec<u8>, ProfileError>(ProfileError::EncodingError),
            Some(container) => result matches Ok(bytes) && bytes@ == gzip_stream(container@),
        },
{
    match serialized {
        None => Err(ProfileError::EncodingError),
        Some(container) => match gzip(container.as_slice()) {
            Some(bytes) => Ok(bytes),
            None => Err(ProfileError::IoError),
        },
    }
}

/// The samples that a report holds once the records are in it.
pub open spec fn report_entries(records: Seq<RecordModel>) -> Seq<
    (Seq<Seq<u8>>, int, Seq<u8>),
> {
    records.map_values(
        |record: RecordModel| (record.frames, record.weight as int, record.thread_name),
    )
}

/// The message holds the profile: as many samples as the profile has
/// entries, and for each entry a sample with the entry's frames, leaf first,
/// under the names that the container shows them by, with the entry's
/// weight as it is and the thread label `main`.
pub open spec fn holds_profile(
    message: pprof::protos::Profile,
    entries: Seq<(Seq<Seq<u8>>, nat)>,
) -> bool {
    &&& message_samples(message).len() == entries.len()
    &&& forall|i: int|
        0 <= i < entries.len() ==> message_samples(message).count(
            (
                (#[trigger] entries[i]).0.reverse().map_values(|raw: Seq<u8>| shown_name(raw)),
                entries[i].1 as int,
                thread_name_model(),
            ),
        ) > 0
}

/// No two records have the same frames.
pub open spec fn distinct_frames(records: Seq<RecordModel>) -> bool {
    forall|i: int, j: int|
        0 <= i < j < records.len() ==> (#[trigger] records[i]).frames != (
        #[trigger] records[j]).frames
}

/// The records of a profile have distinct frames, as its entries have
/// distinct stacks.
pub proof fn lemma_records_distinct(entries: Seq<(Seq<Seq<u8>>, nat)>, captured_at: nat)
    requires
        distinct_stacks(entries),
    ensures
        distinct_frames(records_model(entries, captured_at)),
{
    let records = records_model(entries, captured_at);
    assert forall|i: int, j: int| 0 <= i < j < records.len() implies (#[trigger] records[i]).frames
        != (#[trigger] records[j]).frames by {
        lemma_reverse_twice(entries[i].0);
        lemma_reverse_twice(entries[j].0);
        assert(entries[i].0 != entries[j].0);
    }
}

/// Puts the records into a fresh report, one sample for each.
pub fn fill_report(records: &Vec<SampleRecord>) -> (report: pprof::Report)
    requires
        distinct_frames(records_view(records@)),
        forall|i: int| 0 <= i < records@.len() ==> (#[trigger] records@[i]).weight <= isize::MAX,
        forall|i: int|
            0 <= i < records@.len() ==> is_plain_label((#[trigger] records@[i]).thread_name@),
    ensures
        report_samples(report) == report_entries(records_view(records@)).to_multiset(),
        report_frequency(report) == 1,
{
    let ghost entries = report_entries(records_view(records@));
    let mut report = empty_report();
    let mut i: usize = 0;
    proof {
        assert(entries.take(0) =~= Seq::<(Seq<Seq<u8>>, int, Seq<u8>)>::empty());
        assert forall|sample: (Seq<Seq<u8>>, int, Seq<u8>)|
            entries.take(0).to_multiset().count(sample) == 0 by {
            vstd::seq_lib::to_multiset_contains(entries.take(0), sample);
        }
        assert(entries.take(0).to_multiset() =~= Multiset::<
            (Seq<Seq<u8>>, int, Seq<u8>),
        >::empty());
    }
    while i < records.len()
        invariant
            i <= records.len(),
            entries == report_entries(records_view(records@)),
            entries.len() == records@.len(),
            distinct_frames(records_view(records@)),
            forall|k: int|
                0 <= k < records@.len() ==> (#[trigger] records@[k]).weight <= isize::MAX,
            forall|k: int|
                0 <= k < records@.len() ==> is_plain_label(
                    (#[trigger] records@[k]).thread_name@,
                ),
            report_samples(report) == entries.take(i as int).to_multiset(),
            report_frequency(report) == 1,
        decreases records.len() - i,
    {
        let record = &records[i];
        let ghost seen = entries.take(i as int);
        proof {
            assert(entries[i as int] == (
                stack_view(record.frames@),
                record.weight as int,
                record.thread_name@,
            ));
            assert(records_view(records@)[i as int] == record@);
            assert forall|weight: int, label: Seq<u8>|
                seen.to_multiset().count((stack_view(record.frames@), weight, label)) == 0 by {
                let sample = (stack_view(record.frames@), weight, label);
                vstd::seq_lib::to_multiset_contains(seen, sample);
                if seen.contains(sample) {
                    let k = choose|k: int| 0 <= k < seen.len() && seen[k] == sample;
                    assert(seen[k] == entries[k]);
                    assert(entries[k].0 == records_view(records@)[k].frames);
                    assert(records_view(records@)[k].frames != records_view(
                        records@,
                    )[i as int].frames);
                }
            }
        }
        report_insert(&mut report, record);
        proof {
            vstd::seq_lib::to_multiset_build(seen, entries[i as int]);
            assert(seen.push(entries[i as int]) =~= entries.take(i + 1));
        }
        i += 1;
    }
    proof {
        assert(entries.take(records.len() as int) =~= entries);
    }
    report
}

/// Renders a profile as a compressed profile container: one sample for each
/// entry, its frames leaf first, stamped with the capture time that the
/// caller gives. A weight above 9,223,372,036 is an encoding error, found
/// before anything is built: the container also stores each weight as
/// nanoseconds, a billion times the weight, and has 63 bits for that. Every
/// other profile is encoded. What is returned is the compressed wire format
/// of a message that holds the profile; frame names stand in it as the
/// container shows them, which for a mangled name is its demangled form.
pub fn encode_binary(profile: &AggregatedProfile, captured_at: u64) -> (result: Result<
    Vec<u8>,
    ProfileError,
>)
    requires
        profile.wf(),
    ensures
        result is Ok <==> binary_weights_fit(profile@),
        match result {
            Ok(bytes) => exists|message: pprof::protos::Profile|
                bytes@ == gzip_stream(#[trigger] message_wire(message)) && holds_profile(
                    message,
                    profile@,
                ),
            Err(error) => error == ProfileError::EncodingError,
        },
{
    if !weights_in_range(profile) {
        return Err(ProfileError::EncodingError);
    }
    let records = sample_records(profile, captured_at);
    let ghost model = records_model(profile@, captured_at as nat);
    proof {
        lemma_records_distinct(profile@, captured_at as nat);
        assert(records_view(records@).len() == records@.len());
        assert(model.len() == profile@.len());
        assert forall|i: int| 0 <= i < records@.len() implies (#[trigger] records@[i]).weight
            <= isize::MAX && is_plain_label(records@[i].thread_name@) by {
            assert(records_view(records@)[i] == records@[i]@);
            assert(model[i].weight == profile@[i].1);
            assert(model[i].thread_name == thread_name_model());
        }
    }
    let report = fill_report(&records);
    let ghost entries = report_entries(model);
    proof {
        assert forall|sample: (Seq<Seq<u8>>, int, Seq<u8>)|
            report_samples(report).count(sample) > 0 implies 0 <= sample.1
            <= MAX_BINARY_WEIGHT by {
            vstd::seq_lib::to_multiset_contains(entries, sample);
            assert(entries.contains(sample));
            let k = choose|k: int| 0 <= k < entries.len() && entries[k] == sample;
            assert(model[k].weight == profile@[k].1);
        }
    }
    match report_message(&report) {
        Ok(message) => {
            let wire = message_bytes(&message);
            proof {
                vstd::seq_lib::to_multiset_len(entries);
                assert(entries.len() == profile@.len());
                assert forall|i: int| 0 <= i < profile@.len() implies message_samples(
                    message,
                ).count(
                    (
                        (#[trigger] profile@[i]).0.reverse().map_values(
                            |raw: Seq<u8>| shown_name(raw),
                        ),
                        profile@[i].1 as int,
                        thread_name_model(),
                    ),
                ) > 0 by {
                    let sample = entries[i];
                    assert(sample == (
                        profile@[i].0.reverse(),
                        profile@[i].1 as int,
                        thread_name_model(),
                    ));
                    vstd::seq_lib::to_multiset_contains(entries, sample);
                    assert(entries.contains(sample));
                    assert(report_samples(report).count(sample) > 0);
                }
                assert(holds_profile(message, profile@));
            }
            pack_container(Some(wire))
        },
        Err(_) => Err(ProfileError::EncodingError),
    }
}

/// Reads samples from text, aggregates them and renders the profile as a
/// compressed profile container. A line that is no sample is a malformed
/// stack here, and comes back in the error.
pub fn encode_binary_text(text: &[u8], captured_at: u64) -> (result: Result<
    Vec<u8>,
    ProfileError,
>)
    ensures
        match result {
            Ok(bytes) => {
                &&& text_model(text@) is Some
                &&& weights_fit(aggregate_model(text_model(text@).unwrap()))
                &&& binary_weights_fit(aggregate_model(text_model(text@).unwrap()))
                &&& exists|message: pprof::protos::Profile|
                    bytes@ == gzip_stream(#[trigger] message_wire(message)) && holds_profile(
                        message,
                        aggregate_model(text_model(text@).unwrap()),
                    )
            },
            Err(error) => if text_model(text@) is None {
                error matches ProfileError::MalformedStack { line } && is_first_malformed(
                    lines_model(text@),
                    line@,
                )
            } else if !weights_fit(aggregate_model(text_model(text@).unwrap())) {
                error == ProfileError::WeightOverflow
            } else {
                error == ProfileError::EncodingError
            },
        },
        result is Ok <==> {
            &&& text_model(text@) is Some
            &&& weights_fit(aggregate_model(text_model(text@).unwrap()))
            &&& binary_weights_fit(aggregate_model(text_model(text@).unwrap()))
        },
{
    match parse_samples(text) {
        Err(error) => match error {
            ProfileError::InvalidSampleFormat { line } => Err(
                ProfileError::MalformedStack { line },
            ),
            other => Err(other),
        },
        Ok(samples) => match aggregate(&samples) {
            Err(error) => Err(error),
            Ok(profile) => encode_binary(&profile, captured_at),
        },
    }
}

} // verus!
