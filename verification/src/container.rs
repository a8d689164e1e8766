use crate::binary::{SampleRecord, MAX_BINARY_WEIGHT};
use crate::model::stack_view;
use vstd::multiset::Multiset;
use vstd::prelude::*;

verus! {

/// `pprof::Report`: a map from call stacks to counts, with the timing of the
/// collection. Nothing of its inside is visible to the proofs.
#[verifier::external_type_specification]
#[verifier::external_body]
pub struct ExReport(pprof::Report);

/// `pprof::protos::Profile`: the profile message before it is serialized.
#[verifier::external_type_specification]
#[verifier::external_body]
pub struct ExProfileMessage(pprof::protos::Profile);

/// `pprof::Error`: why a report could not be turned into a message.
#[verifier::external_type_specification]
#[verifier::external_body]
pub struct ExReportError(pprof::Error);

/// The samples that a report holds: for each key of its map the names of the
/// key's symbols, frame by frame in the key's order, the count stored under
/// the key, and the key's thread label, which is its thread name or, where
/// that is empty, its thread identifier. A bag, since the map has no order.
pub uninterp spec fn report_samples(report: pprof::Report) -> Multiset<
    (Seq<Seq<u8>>, int, Seq<u8>),
>;

/// The samples of a profile message: for each sample the names of the
/// functions at its locations, in the sample's order, its first value, and
/// the text of its first label. A bag, since `pprof::Report::pprof` lists
/// the samples in the order in which it walks the report's map.
pub uninterp spec fn message_samples(message: pprof::protos::Profile) -> Multiset<
    (Seq<Seq<u8>>, int, Seq<u8>),
>;

/// The wire format of a profile message, as `prost::Message::encode_to_vec`
/// writes it.
pub uninterp spec fn message_wire(message: pprof::protos::Profile) -> Seq<u8>;

/// The name under which `pprof::Symbol::name` shows a symbol with the raw
/// name `raw`: the raw name read as text, bytes that are no text replaced,
/// and demangled where it is a mangled name.
pub uninterp spec fn shown_name(raw: Seq<u8>) -> Seq<u8>;

/// A thread name that a report's key shows as it is: not empty, and plain
/// ASCII, so that reading it as text changes nothing.
pub open spec fn is_plain_label(name: Seq<u8>) -> bool {
    &&& name.len() > 0
    &&& forall|i: int| 0 <= i < name.len() ==> name[i] < 0x80
}

/// The collection frequency in a report's timing, by which `pprof::Report::pprof`
/// divides.
pub uninterp spec fn report_frequency(report: pprof::Report) -> int;

/// The gzip stream that `flate2::write::GzEncoder` produces for `data` at its
/// default level, with the header that `GzEncoder::new` writes.
pub uninterp spec fn gzip_stream(data: Seq<u8>) -> Seq<u8>;

/// A `pprof::Report` with an empty map and `ReportTiming::default()`, which
/// sets a frequency of 1. Claimed: it holds no sample, and its frequency is 1.
#[verifier::external_body]
pub(crate) fn empty_report() -> (report: pprof::Report)
    ensures
        report_samples(report) == Multiset::<(Seq<Seq<u8>>, int, Seq<u8>)>::empty(),
        report_frequency(report) == 1,
{
    pprof::Report { data: std::collections::HashMap::new(), timing: Default::default() }
}

/// `HashMap::insert` on the map of a `pprof::Report`, with a `pprof::Frames`
/// made of one `pprof::Symbol` for each frame name of the record. Two keys
/// with different frame names differ, so where no key has these names yet
/// the insertion replaces nothing. Claimed: the report then holds one sample
/// more, the record's frames with its weight and its thread name, and its
/// timing is untouched.
#[verifier::external_body]
pub(crate) fn report_insert(report: &mut pprof::Report, record: &SampleRecord)
    requires
        record.weight <= isize::MAX,
        is_plain_label(record.thread_name@),
        forall|weight: int, label: Seq<u8>|
            report_samples(*old(report)).count((stack_view(record.frames@), weight, label))
                == 0,
    ensures
        report_samples(*final(report)) == report_samples(*old(report)).insert(
            (stack_view(record.frames@), record.weight as int, record.thread_name@),
        ),
        report_frequency(*final(report)) == report_frequency(*old(report)),
{
    let symbols = |name: &Vec<u8>| {
        vec![pprof::Symbol { name: Some(name.clone()), addr: None, lineno: None, filename: None }]
    };
    let key = pprof::Frames {
        frames: record.frames.iter().map(symbols).collect(),
        thread_name: String::from_utf8_lossy(&record.thread_name).into_owned(),
        thread_id: record.thread_id,
        sample_timestamp: std::time::UNIX_EPOCH + std::time::Duration::from_nanos(
            record.captured_at,
        ),
    };
    report.data.insert(key, record.weight as isize);
}

/// `pprof::Report::pprof`. It multiplies each count by a billion in 64 signed
/// bits and divides by the frequency, so only counts for which that product
/// fits, and a frequency other than 0, are admitted. Claimed: it returns a
/// message, as its body has no path to an error; the message has one sample
/// for each key of the report, and for each sample of the report a sample
/// with the shown names of its symbols, its count as the first value, and
/// its thread label. The order of the message's samples and tables is not
/// claimed: it follows the order in which hash maps are walked.
#[verifier::external_body]
pub(crate) fn report_message(report: &pprof::Report) -> (message: Result<
    pprof::protos::Profile,
    pprof::Error,
>)
    requires
        forall|sample: (Seq<Seq<u8>>, int, Seq<u8>)|
            report_samples(*report).count(sample) > 0 ==> 0 <= sample.1 <= MAX_BINARY_WEIGHT,
        report_frequency(*report) != 0,
    ensures
        message is Ok,
        message matches Ok(built) ==> message_samples(built).len() == report_samples(
            *report,
        ).len(),
        message matches Ok(built) ==> forall|sample: (Seq<Seq<u8>>, int, Seq<u8>)|
            #[trigger] report_samples(*report).count(sample) > 0 ==> message_samples(built).count(
                (sample.0.map_values(|raw: Seq<u8>| shown_name(raw)), sample.1, sample.2),
            ) > 0,
{
    report.pprof()
}

/// `prost::Message::encode_to_vec`, which pprof hands on as
/// `pprof::protos::Message`, on a profile message: its wire format in a new
/// buffer. The encoder has no way to fail. Claimed: the bytes are the wire
/// format of the message, which depends on the message alone.
#[verifier::external_body]
pub(crate) fn message_bytes(message: &pprof::protos::Profile) -> (bytes: Vec<u8>)
    ensures
        bytes@ == message_wire(*message),
{
    pprof::protos::Message::encode_to_vec(message)
}

/// `flate2::write::GzEncoder` over a `Vec<u8>` at `Compression::default()`:
/// `new`, `write_all` and `finish`. An error there comes from the inner
/// writer or from a compressor in a corrupt state; a `Vec<u8>` refuses no
/// write, and the compressor is fresh. Claimed: it succeeds, and the bytes
/// are the encoder's stream for `data`, which depends on `data` alone.
#[verifier::external_body]
pub(crate) fn gzip(data: &[u8]) -> (packed: Option<Vec<u8>>)
    ensures
        packed is Some,
        packed matches Some(bytes) ==> bytes@ == gzip_stream(data@),
{
    let mut encoder = flate2::write::GzEncoder::new(Vec::new(), flate2::Compression::default());
    match std::io::Write::write_all(&mut encoder, data) {
        Ok(()) => encoder.finish().ok(),
        Err(_) => None,
    }
}

} // verus!
