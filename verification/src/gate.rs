use crate::error::ProfileError;
use crate::folded::write_bytes;
use vstd::prelude::*;

verus! {

/// One value of a panic payload, as the run reported it.
#[derive(Debug, Clone, PartialEq, Eq)]
pub struct PanicValue {
    /// The value's bytes, most significant first, without leading zeros.
    pub bytes: Vec<u8>,
    /// The value written as a number, shown where the bytes are no text.
    pub number: Vec<u8>,
}

impl View for PanicValue {
    type V = (Seq<u8>, Seq<u8>);

    open spec fn view(&self) -> (Seq<u8>, Seq<u8>) {
        (self.bytes@, self.number@)
    }
}

/// How the profiled program ended.
#[derive(Debug, Clone, PartialEq, Eq)]
pub enum RunOutcome {
    /// It returned.
    Success,
    /// It panicked with these values.
    Panic { values: Vec<PanicValue> },
}

pub open spec fn values_view(values: Seq<PanicValue>) -> Seq<(Seq<u8>, Seq<u8>)> {
    values.map_values(|value: PanicValue| value@)
}

/// A byte that may stand in a short string: a visible ASCII character, a
/// space, a tab, a line feed, a form feed or a carriage return.
pub open spec fn is_text_byte(byte: u8) -> bool {
    ||| 0x21 <= byte <= 0x7e
    ||| byte == 0x20
    ||| byte == 0x09
    ||| byte == 0x0a
    ||| byte == 0x0c
    ||| byte == 0x0d
}

/// The first `length` bytes are text and all bytes after them are zero.
pub open spec fn is_text_then_zeros(bytes: Seq<u8>, length: int) -> bool {
    &&& 0 <= length <= bytes.len()
    &&& forall|i: int| 0 <= i < length ==> is_text_byte(#[trigger] bytes[i])
    &&& forall|i: int| length <= i < bytes.len() ==> #[trigger] bytes[i] == 0
}

/// The short string that a value's bytes spell: text, then nothing but
/// zero bytes. `None` where the bytes are not of that form.
pub open spec fn short_string_model(bytes: Seq<u8>) -> Option<Seq<u8>> {
    if exists|length: int| is_text_then_zeros(bytes, length) {
        Some(bytes.take(choose|length: int| is_text_then_zeros(bytes, length)))
    } else {
        None
    }
}

/// How one payload value is shown: as its short string, or as a number.
pub open spec fn value_text(value: (Seq<u8>, Seq<u8>)) -> Seq<u8> {
    match short_string_model(value.0) {
        Some(text) => text,
        None => value.1,
    }
}

/// The values as they are shown, with a comma and a space between two.
pub open spec fn joined_values(values: Seq<(Seq<u8>, Seq<u8>)>) -> Seq<u8>
    decreases values.len(),
{
    if values.len() == 0 {
        Seq::empty()
    } else if values.len() == 1 {
        value_text(values[0])
    } else {
        joined_values(values.drop_last()) + seq![0x2c, 0x20] + value_text(values.last())
    }
}

/// The bytes of `panicked with [`.
pub open spec fn message_opening() -> Seq<u8> {
    seq![0x70, 0x61, 0x6e, 0x69, 0x63, 0x6b, 0x65, 0x64, 0x20, 0x77, 0x69, 0x74, 0x68, 0x20, 0x5b]
}

/// The message for a panic: `panicked with [`, the values, `]`.
pub open spec fn panic_message_model(values: Seq<(Seq<u8>, Seq<u8>)>) -> Seq<u8> {
    (message_opening() + joined_values(values)).push(0x5d)
}

/// At most one length splits bytes into text and zeros.
pub proof fn lemma_text_length_unique(bytes: Seq<u8>, first: int, second: int)
    requires
        is_text_then_zeros(bytes, first),
        is_text_then_zeros(bytes, second),
    ensures
        first == second,
{
    if first < second {
        assert(is_text_byte(bytes[first]));
        assert(bytes[first] == 0);
    }
    if second < first {
        assert(is_text_byte(bytes[second]));
        assert(bytes[second] == 0);
    }
}

/// Whether a byte may stand in a short string.
pub fn text_byte(byte: u8) -> (text: bool)
    ensures
        text == is_text_byte(byte),
{
    (0x21 <= byte && byte <= 0x7e) || byte == 0x20 || byte == 0x09 || byte == 0x0a || byte
        == 0x0c || byte == 0x0d
}

/// Reads a value's bytes as a short string.
pub fn decode_short_string(bytes: &[u8]) -> (text: Option<Vec<u8>>)
    ensures
        match text {
            Some(decoded) => short_string_model(bytes@) == Some(decoded@),
            None => short_string_model(bytes@) is None,
        },
{
    let mut decoded: Vec<u8> = Vec::new();
    let mut i: usize = 0;
    while i < bytes.len() && bytes[i] != 0
        invariant
            i <= bytes.len(),
            decoded@ == bytes@.take(i as int),
            forall|k: int| 0 <= k < i ==> is_text_byte(#[trigger] bytes@[k]),
        decreases bytes.len() - i,
    {
        if !text_byte(bytes[i]) {
            proof {
                assert forall|length: int| !is_text_then_zeros(bytes@, length) by {
                    if is_text_then_zeros(bytes@, length) {
                        if length > i {
                            assert(is_text_byte(bytes@[i as int]));
                        } else {
                            assert(bytes@[i as int] == 0);
                        }
                    }
                }
            }
            return None;
        }
        decoded.push(bytes[i]);
        proof {
            assert(decoded@ =~= bytes@.take(i + 1));
        }
        i += 1;
    }
    let length = i;
    while i < bytes.len()
        invariant
            length <= i <= bytes.len(),
            length < bytes.len() ==> bytes@[length as int] == 0,
            decoded@ == bytes@.take(length as int),
            forall|k: int| 0 <= k < length ==> is_text_byte(#[trigger] bytes@[k]),
            forall|k: int| length <= k < i ==> #[trigger] bytes@[k] == 0,
        decreases bytes.len() - i,
    {
        if bytes[i] != 0 {
            proof {
                assert forall|other: int| !is_text_then_zeros(bytes@, other) by {
                    if is_text_then_zeros(bytes@, other) {
                        if other > length {
                            assert(is_text_byte(bytes@[length as int]));
                        } else {
                            assert(bytes@[i as int] == 0);
                        }
                    }
                }
            }
            return None;
        }
        i += 1;
    }
    proof {
        assert(is_text_then_zeros(bytes@, length as int));
        let chosen = choose|other: int| is_text_then_zeros(bytes@, other);
        lemma_text_length_unique(bytes@, length as int, chosen);
    }
    Some(decoded)
}

/// Writes the message for a panic with the given payload.
pub fn panic_message(values: &Vec<PanicValue>) -> (message: Vec<u8>)
    ensures
        message@ == panic_message_model(values_view(values@)),
{
    let ghost model = values_view(values@);
    let mut message: Vec<u8> = vec![
        0x70,
        0x61,
        0x6e,
        0x69,
        0x63,
        0x6b,
        0x65,
        0x64,
        0x20,
        0x77,
        0x69,
        0x74,
        0x68,
        0x20,
        0x5b,
    ];
    let mut i: usize = 0;
    proof {
        assert(message@ =~= message_opening());
        assert(model.take(0) =~= Seq::<(Seq<u8>, Seq<u8>)>::empty());
        assert(message@ =~= message_opening() + joined_values(model.take(0)));
    }
    while i < values.len()
        invariant
            i <= values.len(),
            model == values_view(values@),
            message@ == message_opening() + joined_values(model.take(i as int)),
        decreases values.len() - i,
    {
        let ghost before = message@;
        if i > 0 {
            message.push(0x2c);
            message.push(0x20);
        }
        let value = &values[i];
        match decode_short_string(value.bytes.as_slice()) {
            Some(text) => write_bytes(&mut message, text.as_slice()),
            None => write_bytes(&mut message, value.number.as_slice()),
        }
        proof {
            let next = model.take(i + 1);
            assert(next.drop_last() =~= model.take(i as int));
            assert(next.last() == value@);
            if i > 0 {
                assert(message@ =~= before + seq![0x2c, 0x20] + value_text(value@));
            }
            assert(message@ =~= message_opening() + joined_values(next));
        }
        i += 1;
    }
    proof {
        assert(model.take(values.len() as int) =~= model);
    }
    message.push(0x5d);
    message
}

/// Lets a run pass only where the program returned: a panic ends the
/// pipeline with a message that lists the payload.
pub fn check_outcome(outcome: &RunOutcome) -> (result: Result<(), ProfileError>)
    ensures
        match *outcome {
            RunOutcome::Success => result is Ok,
            RunOutcome::Panic { values } => result matches Err(
                ProfileError::ProgramPanicked { message },
            ) && message@ == panic_message_model(values_view(values@)),
        },
{
    match outcome {
        RunOutcome::Success => Ok(()),
        RunOutcome::Panic { values } => Err(
            ProfileError::ProgramPanicked { message: panic_message(values) },
        ),
    }
}

} // verus!
