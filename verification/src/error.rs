use vstd::prelude::*;

verus! {

/// Why a profiling run produced no output.
#[derive(Debug, Clone, PartialEq, Eq)]
pub enum ProfileError {
    /// A sample line is not a stack, one space and a decimal weight; `line`
    /// is that line.
    InvalidSampleFormat { line: Vec<u8> },
    /// A line handed to the binary encoder is not a stack, one space and a
    /// decimal weight; `line` is that line.
    MalformedStack { line: Vec<u8> },
    /// The weights recorded for one stack add up to more than 64 bits hold.
    WeightOverflow,
    /// The profile container cannot take the data: a weight is above
    /// 9,223,372,036.
    EncodingError,
    /// The compressor could not finish its stream.
    IoError,
    /// The profiled program ended in a panic; the message lists its payload.
    ProgramPanicked { message: Vec<u8> },
}

} // verus!
