use crate::decimal::{
    decimal_digits, is_digit, lemma_decimal_digits, lemma_weight_round_trip, write_decimal,
};
use crate::model::{aggregate_model, distinct_stacks, first_index, lemma_first_index, stack_view};
use crate::parse::{line_model, lines_model, strip_return, text_model};
use crate::profile::AggregatedProfile;
use crate::text::{
    find_last, free_of, join_model, lemma_last_index, lemma_last_index_is, lemma_split_join,
    lemma_split_push, split_model, NEWLINE, SEMICOLON, SPACE,
};
use vstd::prelude::*;

verus! {

/// One line of folded text, without its newline: the frames from root to
/// leaf with `;` between them, one space, and the weight in decimal.
pub open spec fn folded_line(stack: Seq<Seq<u8>>, weight: nat) -> Seq<u8> {
    join_model(stack, SEMICOLON).push(SPACE) + decimal_digits(weight)
}

/// The folded text of a profile: one line for each entry, in order, each
/// ended by a newline.
pub open spec fn folded_text(entries: Seq<(Seq<Seq<u8>>, nat)>) -> Seq<u8>
    decreases entries.len(),
{
    if entries.len() == 0 {
        Seq::empty()
    } else {
        folded_text(entries.drop_last()) + folded_line(
            entries.last().0,
            entries.last().1,
        ).push(NEWLINE)
    }
}

/// What folded text can carry: a stack of at least one frame, with neither
/// `;` nor a newline in a frame name.
pub open spec fn foldable(stack: Seq<Seq<u8>>) -> bool {
    &&& stack.len() >= 1
    &&& forall|i: int| 0 <= i < stack.len() ==> free_of(#[trigger] stack[i], SEMICOLON)
    &&& forall|i: int| 0 <= i < stack.len() ==> free_of(#[trigger] stack[i], NEWLINE)
}

/// Every entry is foldable and its weight fits in 64 bits.
pub open spec fn all_foldable(entries: Seq<(Seq<Seq<u8>>, nat)>) -> bool {
    forall|i: int|
        0 <= i < entries.len() ==> foldable((#[trigger] entries[i]).0) && entries[i].1 <= u64::MAX
}

/// Whether `byte` does not occur in `text`.
pub fn is_free_of(text: &[u8], byte: u8) -> (free: bool)
    ensures
        free == free_of(text@, byte),
{
    proof {
        lemma_last_index(text@, byte);
    }
    match find_last(text, byte) {
        None => true,
        Some(_) => false,
    }
}

/// Whether folded text can carry the stack: it has a frame, and no frame
/// name holds `;` or a newline.
pub fn is_foldable(stack: &Vec<Vec<u8>>) -> (ok: bool)
    ensures
        ok == foldable(stack_view(stack@)),
{
    if stack.len() == 0 {
        return false;
    }
    let ghost frames = stack_view(stack@);
    let mut i: usize = 0;
    while i < stack.len()
        invariant
            i <= stack.len(),
            frames == stack_view(stack@),
            forall|k: int| 0 <= k < i ==> free_of(#[trigger] frames[k], SEMICOLON),
            forall|k: int| 0 <= k < i ==> free_of(#[trigger] frames[k], NEWLINE),
        decreases stack.len() - i,
    {
        let frame = stack[i].as_slice();
        proof {
            assert(frames[i as int] == frame@);
        }
        if !is_free_of(frame, SEMICOLON) || !is_free_of(frame, NEWLINE) {
            return false;
        }
        i += 1;
    }
    true
}

/// Whether the profile's folded text reads back as the profile: whether
/// folded text can carry every stack of it.
pub fn folds_losslessly(profile: &AggregatedProfile) -> (ok: bool)
    requires
        profile.wf(),
    ensures
        ok == all_foldable(profile@),
{
    let count = profile.len();
    let mut i: usize = 0;
    while i < count
        invariant
            i <= count,
            count == profile@.len(),
            profile.wf(),
            forall|k: int| 0 <= k < i ==> foldable((#[trigger] profile@[k]).0),
        decreases count - i,
    {
        if !is_foldable(profile.stack(i)) {
            proof {
                assert(!foldable(profile@[i as int].0));
            }
            return false;
        }
        i += 1;
    }
    true
}

/// Appends `bytes` to `out`.
pub fn write_bytes(out: &mut Vec<u8>, bytes: &[u8])
    ensures
        final(out)@ == old(out)@ + bytes@,
{
    let mut i: usize = 0;
    proof {
        assert(out@ =~= old(out)@ + bytes@.take(0));
    }
    while i < bytes.len()
        invariant
            i <= bytes.len(),
            out@ == old(out)@ + bytes@.take(i as int),
        decreases bytes.len() - i,
    {
        out.push(bytes[i]);
        proof {
            assert(out@ =~= old(out)@ + bytes@.take(i + 1));
        }
        i += 1;
    }
    proof {
        assert(bytes@.take(bytes.len() as int) =~= bytes@);
    }
}

/// Appends the frames of `stack`, root first, with `;` between them.
pub fn write_stack(out: &mut Vec<u8>, stack: &Vec<Vec<u8>>)
    ensures
        final(out)@ == old(out)@ + join_model(stack_view(stack@), SEMICOLON),
{
    let ghost frames = stack_view(stack@);
    let mut i: usize = 0;
    proof {
        assert(frames.take(0) =~= Seq::<Seq<u8>>::empty());
        assert(out@ =~= old(out)@ + join_model(frames.take(0), SEMICOLON));
    }
    while i < stack.len()
        invariant
            i <= stack.len(),
            frames == stack_view(stack@),
            out@ == old(out)@ + join_model(frames.take(i as int), SEMICOLON),
        decreases stack.len() - i,
    {
        let ghost before = out@;
        if i > 0 {
            out.push(SEMICOLON);
        }
        write_bytes(out, stack[i].as_slice());
        proof {
            let next = frames.take(i + 1);
            assert(next.drop_last() =~= frames.take(i as int));
            assert(next.last() == stack@[i as int]@);
            if i > 0 {
                assert(out@ =~= old(out)@ + join_model(next, SEMICOLON));
            } else {
                assert(before =~= old(out)@);
                assert(out@ =~= old(out)@ + join_model(next, SEMICOLON));
            }
        }
        i += 1;
    }
    proof {
        assert(frames.take(stack.len() as int) =~= frames);
    }
}

/// Renders one entry as a line of folded text, without its newline.
pub fn encode_folded_line(stack: &Vec<Vec<u8>>, weight: u64) -> (line: Vec<u8>)
    ensures
        line@ == folded_line(stack_view(stack@), weight as nat),
{
    let mut line: Vec<u8> = Vec::new();
    write_stack(&mut line, stack);
    line.push(SPACE);
    write_decimal(&mut line, weight);
    proof {
        assert(line@ =~= folded_line(stack_view(stack@), weight as nat));
    }
    line
}

/// Renders a profile as folded text.
pub fn encode_folded(profile: &AggregatedProfile) -> (text: Vec<u8>)
    requires
        profile.wf(),
    ensures
        text@ == folded_text(profile@),
{
    let mut text: Vec<u8> = Vec::new();
    let count = profile.len();
    let mut i: usize = 0;
    proof {
        assert(profile@.take(0) =~= Seq::<(Seq<Seq<u8>>, nat)>::empty());
    }
    while i < count
        invariant
            i <= count,
            count == profile@.len(),
            profile.wf(),
            text@ == folded_text(profile@.take(i as int)),
        decreases count - i,
    {
        let ghost before = text@;
        let line = encode_folded_line(profile.stack(i), profile.weight(i));
        write_bytes(&mut text, line.as_slice());
        text.push(NEWLINE);
        proof {
            let next = profile@.take(i + 1);
            assert(next.drop_last() =~= profile@.take(i as int));
            assert(next.last() == profile@[i as int]);
            assert(text@ =~= before + folded_line(next.last().0, next.last().1).push(NEWLINE));
        }
        i += 1;
    }
    proof {
        assert(profile@.take(count as int) =~= profile@);
    }
    text
}

/// A line of folded text reads back as the stack and the weight that it was
/// written from.
pub proof fn lemma_line_round_trip(stack: Seq<Seq<u8>>, weight: nat)
    requires
        stack.len() >= 1,
        forall|i: int| 0 <= i < stack.len() ==> free_of(#[trigger] stack[i], SEMICOLON),
        weight <= u64::MAX,
    ensures
        line_model(folded_line(stack, weight)) == Some((stack, weight)),
{
    let joined = join_model(stack, SEMICOLON);
    let digits = decimal_digits(weight);
    let line = folded_line(stack, weight);
    lemma_decimal_digits(weight);
    lemma_weight_round_trip(weight);
    lemma_split_join(stack, SEMICOLON);
    assert forall|j: int| joined.len() < j < line.len() implies line[j] != SPACE by {
        assert(is_digit(digits[j - joined.len() - 1]));
    }
    lemma_last_index_is(line, SPACE, joined.len() as int);
    assert(line.skip(joined.len() as int + 1) =~= digits);
    assert(line.take(joined.len() as int) =~= joined);
}

/// Joined frames hold a byte only where a frame or the separator does.
pub proof fn lemma_join_free_of(pieces: Seq<Seq<u8>>, separator: u8, byte: u8)
    requires
        byte != separator,
        forall|i: int| 0 <= i < pieces.len() ==> free_of(#[trigger] pieces[i], byte),
    ensures
        free_of(join_model(pieces, separator), byte),
    decreases pieces.len(),
{
    if pieces.len() == 1 {
        assert(free_of(pieces[0], byte));
    } else if pieces.len() > 1 {
        let front = pieces.drop_last();
        assert forall|i: int| 0 <= i < front.len() implies free_of(#[trigger] front[i], byte) by {
            assert(front[i] == pieces[i]);
        }
        lemma_join_free_of(front, separator, byte);
        assert(free_of(pieces[pieces.len() - 1], byte));
    }
}

/// Text without the separator, appended to any text, extends its last piece.
pub proof fn lemma_split_append(text: Seq<u8>, more: Seq<u8>, separator: u8)
    requires
        free_of(more, separator),
    ensures
        split_model(text, separator).len() >= 1,
        split_model(text + more, separator) == split_model(text, separator).drop_last().push(
            split_model(text, separator).last() + more,
        ),
    decreases more.len(),
{
    lemma_split_push(text, separator, separator);
    let pieces = split_model(text, separator);
    if more.len() == 0 {
        assert(text + more =~= text);
        assert(pieces.last() + more =~= pieces.last());
        assert(pieces.drop_last().push(pieces.last()) =~= pieces);
    } else {
        let front = more.drop_last();
        lemma_split_append(text, front, separator);
        lemma_split_push(text + front, separator, more.last());
        assert((text + front).push(more.last()) =~= text + more);
        assert((pieces.last() + front).push(more.last()) =~= pieces.last() + more);
        let mid = pieces.drop_last().push(pieces.last() + front);
        assert(mid.drop_last() =~= pieces.drop_last());
    }
}

/// The lines of a profile's folded text are the lines of its entries.
pub proof fn lemma_folded_lines(entries: Seq<(Seq<Seq<u8>>, nat)>)
    requires
        all_foldable(entries),
    ensures
        split_model(folded_text(entries), NEWLINE) == entries.map_values(
            |entry: (Seq<Seq<u8>>, nat)| folded_line(entry.0, entry.1),
        ).push(Seq::empty()),
    decreases entries.len(),
{
    let lines = entries.map_values(|entry: (Seq<Seq<u8>>, nat)| folded_line(entry.0, entry.1));
    if entries.len() == 0 {
        lemma_last_index_is(folded_text(entries), NEWLINE, -1);
        assert(split_model(folded_text(entries), NEWLINE) =~= lines.push(Seq::empty()));
    } else {
        let front = entries.drop_last();
        let last = entries.last();
        assert forall|i: int| 0 <= i < front.len() implies foldable((#[trigger] front[i]).0)
            && front[i].1 <= u64::MAX by {
            assert(front[i] == entries[i]);
        }
        lemma_folded_lines(front);
        let line = folded_line(last.0, last.1);
        assert(foldable(last.0));
        lemma_join_free_of(last.0, SEMICOLON, NEWLINE);
        lemma_decimal_digits(last.1);
        let joined = join_model(last.0, SEMICOLON);
        let digits = decimal_digits(last.1);
        assert forall|j: int| 0 <= j < line.len() implies line[j] != NEWLINE by {
            if j > joined.len() {
                assert(is_digit(digits[j - joined.len() - 1]));
            }
        }
        let head = folded_text(front);
        lemma_split_append(head, line, NEWLINE);
        lemma_split_push(head + line, NEWLINE, NEWLINE);
        assert((head + line).push(NEWLINE) =~= head + line.push(NEWLINE));
        let front_lines = front.map_values(
            |entry: (Seq<Seq<u8>>, nat)| folded_line(entry.0, entry.1),
        );
        assert(front_lines.push(Seq::<u8>::empty()).drop_last() =~= front_lines);
        assert(Seq::<u8>::empty() + line =~= line);
        assert(front_lines.push(line) =~= lines);
    }
}

/// Folded text reads back, line by line, as the entries that it was written
/// from.
pub proof fn lemma_text_round_trip(entries: Seq<(Seq<Seq<u8>>, nat)>)
    requires
        all_foldable(entries),
    ensures
        text_model(folded_text(entries)) == Some(entries),
{
    let lines = entries.map_values(|entry: (Seq<Seq<u8>>, nat)| folded_line(entry.0, entry.1));
    lemma_folded_lines(entries);
    let pieces = split_model(folded_text(entries), NEWLINE);
    assert(pieces.drop_last() =~= lines);
    assert forall|i: int| 0 <= i < lines.len() implies strip_return(#[trigger] lines[i])
        == lines[i] && line_model(lines[i]) == Some(entries[i]) by {
        assert(foldable(entries[i].0));
        lemma_line_round_trip(entries[i].0, entries[i].1);
        lemma_decimal_digits(entries[i].1);
        let digits = decimal_digits(entries[i].1);
        assert(is_digit(digits[digits.len() - 1]));
        assert(lines[i].last() == digits.last());
    }
    assert(lines.map_values(|piece: Seq<u8>| strip_return(piece)) =~= lines);
    assert(lines_model(folded_text(entries)) == lines);
    assert(lines.map_values(|line: Seq<u8>| line_model(line).unwrap()) =~= entries);
}

/// Entries with distinct stacks aggregate to themselves.
pub proof fn lemma_aggregate_distinct(entries: Seq<(Seq<Seq<u8>>, nat)>)
    requires
        distinct_stacks(entries),
    ensures
        aggregate_model(entries) == entries,
    decreases entries.len(),
{
    if entries.len() == 0 {
        assert(aggregate_model(entries) =~= entries);
    } else {
        let front = entries.drop_last();
        assert forall|i: int, j: int| 0 <= i < j < front.len() implies (#[trigger] front[i]).0 != (
        #[trigger] front[j]).0 by {
            assert(front[i] == entries[i]);
            assert(front[j] == entries[j]);
        }
        lemma_aggregate_distinct(front);
        lemma_first_index(front, entries.last().0);
        let at = first_index(front, entries.last().0);
        if at >= 0 {
            assert(front[at] == entries[at]);
            assert(entries[at].0 != entries[entries.len() - 1].0);
        }
        assert(front.push(entries.last()) =~= entries);
    }
}

/// Writing a profile as folded text, reading the text back and aggregating
/// what was read gives the profile again, where every stack has a frame and
/// no frame name holds `;` or a newline.
pub proof fn lemma_folded_round_trip(entries: Seq<(Seq<Seq<u8>>, nat)>)
    requires
        distinct_stacks(entries),
        all_foldable(entries),
    ensures
        text_model(folded_text(entries)) == Some(entries),
        aggregate_model(text_model(folded_text(entries)).unwrap()) == entries,
{
    lemma_text_round_trip(entries);
    lemma_aggregate_distinct(entries);
}

} // verus!
