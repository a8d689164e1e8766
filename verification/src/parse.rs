use crate::decimal::{parse_weight, weight_model};
use crate::error::ProfileError;
use crate::model::{lemma_stack_view_push, samples_view, stack_view, Sample};
use crate::text::{
    copy_range, find_last, last_index, lemma_last_index, lemma_split_push, split, split_model,
    CARRIAGE_RETURN, NEWLINE, SEMICOLON, SPACE,
};
use vstd::prelude::*;
use vstd::slice::slice_subrange;

verus! {

/// The sample that a line denotes: the line is split at its last space, the
/// part before it at every `;` into frames, and the part after it is the
/// weight. `None` where there is no space or the weight is no number.
pub open spec fn line_model(line: Seq<u8>) -> Option<(Seq<Seq<u8>>, nat)> {
    let at = last_index(line, SPACE);
    if at < 0 {
        None
    } else {
        match weight_model(line.skip(at + 1)) {
            Some(weight) => Some((split_model(line.take(at), SEMICOLON), weight)),
            None => None,
        }
    }
}

/// A line without the carriage return that may stand before its end.
pub open spec fn strip_return(line: Seq<u8>) -> Seq<u8> {
    if line.len() > 0 && line.last() == CARRIAGE_RETURN {
        line.drop_last()
    } else {
        line
    }
}

/// The lines of a text. Each newline ends a line, and a carriage return just
/// before it is dropped with it; what follows the last newline is a line of
/// its own unless it is empty.
pub open spec fn lines_model(text: Seq<u8>) -> Seq<Seq<u8>> {
    let pieces = split_model(text, NEWLINE);
    let ended = pieces.drop_last().map_values(|piece: Seq<u8>| strip_return(piece));
    if pieces.last().len() == 0 {
        ended
    } else {
        ended.push(pieces.last())
    }
}

/// The samples that a sequence of lines denotes, where every line denotes
/// one.
pub open spec fn parsed_lines(lines: Seq<Seq<u8>>) -> Option<Seq<(Seq<Seq<u8>>, nat)>> {
    if forall|i: int| 0 <= i < lines.len() ==> line_model(#[trigger] lines[i]) is Some {
        Some(lines.map_values(|line: Seq<u8>| line_model(line).unwrap()))
    } else {
        None
    }
}

/// The samples that a text denotes, line by line.
pub open spec fn text_model(text: Seq<u8>) -> Option<Seq<(Seq<Seq<u8>>, nat)>> {
    parsed_lines(lines_model(text))
}

/// `line` is the first of the lines that denotes no sample.
pub open spec fn is_first_malformed(lines: Seq<Seq<u8>>, line: Seq<u8>) -> bool {
    exists|k: int|
        0 <= k < lines.len() && #[trigger] lines[k] == line && line_model(line) is None
            && forall|j: int| 0 <= j < k ==> line_model(#[trigger] lines[j]) is Some
}

/// The error for a line that denotes no sample: it carries the line.
pub fn invalid_line(line: &[u8]) -> (error: ProfileError)
    ensures
        error matches ProfileError::InvalidSampleFormat { line: held } && held@ == line@,
{
    let held = copy_range(line, 0, line.len());
    proof {
        assert(held@ =~= line@);
    }
    ProfileError::InvalidSampleFormat { line: held }
}

/// Reads one line of the form `frame;frame;... weight`. A line that is not
/// of that form comes back in the error.
pub fn parse_line(line: &[u8]) -> (result: Result<Sample, ProfileError>)
    ensures
        match result {
            Ok(sample) => line_model(line@) == Some(sample@),
            Err(error) => {
                &&& line_model(line@) is None
                &&& error matches ProfileError::InvalidSampleFormat { line: held } && held@
                    == line@
            },
        },
{
    proof {
        lemma_last_index(line@, SPACE);
    }
    match find_last(line, SPACE) {
        None => Err(invalid_line(line)),
        Some(at) => {
            let end = line.len();
            let weight_text = slice_subrange(line, at + 1, end);
            let stack_text = slice_subrange(line, 0, at);
            proof {
                assert(weight_text@ =~= line@.skip(at + 1));
                assert(stack_text@ =~= line@.take(at as int));
            }
            match parse_weight(weight_text) {
                None => Err(invalid_line(line)),
                Some(weight) => Ok(Sample { stack: split(stack_text, SEMICOLON), weight }),
            }
        },
    }
}

/// Splits a text into its lines.
pub fn split_lines(text: &[u8]) -> (lines: Vec<Vec<u8>>)
    ensures
        stack_view(lines@) == lines_model(text@),
{
    let pieces = split(text, NEWLINE);
    proof {
        lemma_split_push(text@, NEWLINE, NEWLINE);
    }
    let ghost model = split_model(text@, NEWLINE);
    let ghost ended = model.drop_last().map_values(|piece: Seq<u8>| strip_return(piece));
    let mut lines: Vec<Vec<u8>> = Vec::new();
    let last: usize = pieces.len() - 1;
    let mut i: usize = 0;
    while i < last
        invariant
            i <= last,
            last == pieces.len() - 1,
            stack_view(pieces@) == model,
            ended == model.drop_last().map_values(|piece: Seq<u8>| strip_return(piece)),
            stack_view(lines@) == ended.take(i as int),
        decreases last - i,
    {
        let piece = pieces[i].as_slice();
        let end: usize = if piece.len() > 0 && piece[piece.len() - 1] == CARRIAGE_RETURN {
            piece.len() - 1
        } else {
            piece.len()
        };
        let line = copy_range(piece, 0, end);
        let ghost before = lines@;
        lines.push(line);
        proof {
            lemma_stack_view_push(before, line);
            assert(model[i as int] == piece@);
            assert(line@ =~= strip_return(piece@));
            assert(stack_view(lines@) =~= ended.take(i + 1));
        }
        i += 1;
    }
    proof {
        assert(ended.take(last as int) =~= ended);
        assert(model.last() == pieces[last as int]@);
    }
    if pieces[last].len() > 0 {
        let piece = pieces[last].as_slice();
        let line = copy_range(piece, 0, piece.len());
        let ghost before = lines@;
        lines.push(line);
        proof {
            lemma_stack_view_push(before, line);
            assert(line@ =~= piece@);
        }
    }
    lines
}

/// Reads every line of a text as a sample. The first line that is no sample
/// ends the reading and comes back in the error.
pub fn parse_samples(text: &[u8]) -> (result: Result<Vec<Sample>, ProfileError>)
    ensures
        match result {
            Ok(samples) => text_model(text@) == Some(samples_view(samples@)),
            Err(error) => {
                &&& text_model(text@) is None
                &&& error matches ProfileError::InvalidSampleFormat { line }
                    && is_first_malformed(lines_model(text@), line@)
            },
        },
{
    let lines = split_lines(text);
    let ghost model = lines_model(text@);
    let mut samples: Vec<Sample> = Vec::new();
    let mut i: usize = 0;
    while i < lines.len()
        invariant
            i <= lines.len(),
            stack_view(lines@) == model,
            model == lines_model(text@),
            samples@.len() == i,
            forall|k: int| 0 <= k < i ==> line_model(#[trigger] model[k]) == Some(samples@[k]@),
        decreases lines.len() - i,
    {
        proof {
            assert(model[i as int] == lines@[i as int]@);
        }
        match parse_line(lines[i].as_slice()) {
            Err(error) => {
                proof {
                    assert(line_model(model[i as int]) is None);
                    assert forall|j: int| 0 <= j < i implies line_model(
                        #[trigger] model[j],
                    ) is Some by {}
                }
                return Err(error);
            },
            Ok(sample) => {
                samples.push(sample);
            },
        }
        i += 1;
    }
    proof {
        assert(model.len() == lines@.len());
        assert(samples_view(samples@) =~= model.map_values(
            |line: Seq<u8>| line_model(line).unwrap(),
        ));
    }
    Ok(samples)
}

} // verus!
