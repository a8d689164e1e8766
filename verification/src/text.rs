use crate::model::stack_view;
use vstd::prelude::*;

verus! {

/// The byte between a stack and its weight.
pub const SPACE: u8 = 0x20;

/// The byte between two frames of a stack.
pub const SEMICOLON: u8 = 0x3b;

/// The byte that ends a line.
pub const NEWLINE: u8 = 0x0a;

/// The byte that may precede a line's end and is not part of the line.
pub const CARRIAGE_RETURN: u8 = 0x0d;

/// The sign that a weight may carry.
pub const PLUS: u8 = 0x2b;

/// The digit zero.
pub const ZERO: u8 = 0x30;

/// The position of the last occurrence of `byte`, or -1 where there is none.
pub open spec fn last_index(text: Seq<u8>, byte: u8) -> int
    decreases text.len(),
{
    if text.len() == 0 {
        -1
    } else if text.last() == byte {
        text.len() - 1
    } else {
        last_index(text.drop_last(), byte)
    }
}

/// The pieces between the occurrences of `separator`: one more piece than
/// there are separators, so the empty text is one empty piece.
pub open spec fn split_model(text: Seq<u8>, separator: u8) -> Seq<Seq<u8>>
    decreases text.len(),
{
    let at = last_index(text, separator);
    if 0 <= at < text.len() {
        split_model(text.take(at), separator).push(text.skip(at + 1))
    } else {
        seq![text]
    }
}

/// The pieces joined again, with `separator` between two neighbours.
pub open spec fn join_model(pieces: Seq<Seq<u8>>, separator: u8) -> Seq<u8>
    decreases pieces.len(),
{
    if pieces.len() == 0 {
        Seq::empty()
    } else if pieces.len() == 1 {
        pieces[0]
    } else {
        join_model(pieces.drop_last(), separator).push(separator) + pieces.last()
    }
}

/// `byte` does not occur in `text`.
pub open spec fn free_of(text: Seq<u8>, byte: u8) -> bool {
    forall|i: int| 0 <= i < text.len() ==> text[i] != byte
}

/// `last_index` is the last place where `byte` stands.
pub proof fn lemma_last_index(text: Seq<u8>, byte: u8)
    ensures
        -1 <= last_index(text, byte) < text.len(),
        last_index(text, byte) >= 0 ==> text[last_index(text, byte)] == byte,
        forall|j: int| last_index(text, byte) < j < text.len() ==> text[j] != byte,
    decreases text.len(),
{
    if text.len() > 0 && text.last() != byte {
        let front = text.drop_last();
        lemma_last_index(front, byte);
        assert forall|j: int| last_index(text, byte) < j < text.len() implies text[j] != byte by {
            if j < front.len() {
                assert(front[j] == text[j]);
            }
        }
    }
}

/// A place where `byte` stands and after which it does not occur is the
/// last index.
pub proof fn lemma_last_index_is(text: Seq<u8>, byte: u8, at: int)
    requires
        -1 <= at < text.len(),
        at >= 0 ==> text[at] == byte,
        forall|j: int| at < j < text.len() ==> text[j] != byte,
    ensures
        last_index(text, byte) == at,
    decreases text.len(),
{
    if text.len() > 0 && text.last() != byte {
        lemma_last_index_is(text.drop_last(), byte, at);
    }
}

/// What one more byte does to the pieces: a separator opens a new empty
/// piece, any other byte extends the last piece.
pub proof fn lemma_split_push(text: Seq<u8>, separator: u8, byte: u8)
    ensures
        split_model(text, separator).len() >= 1,
        byte == separator ==> split_model(text.push(byte), separator) == split_model(
            text,
            separator,
        ).push(Seq::empty()),
        byte != separator ==> split_model(text.push(byte), separator) == split_model(
            text,
            separator,
        ).drop_last().push(split_model(text, separator).last().push(byte)),
{
    let longer = text.push(byte);
    lemma_last_index(text, separator);
    if byte == separator {
        assert(longer.take(text.len() as int) =~= text);
        assert(longer.skip(text.len() as int + 1) =~= Seq::<u8>::empty());
    } else {
        assert(longer.drop_last() =~= text);
        let at = last_index(text, separator);
        if at >= 0 {
            assert(longer.take(at) =~= text.take(at));
            assert(longer.skip(at + 1) =~= text.skip(at + 1).push(byte));
            assert(split_model(text, separator).drop_last() =~= split_model(
                text.take(at),
                separator,
            ));
        } else {
            assert(split_model(text, separator).drop_last() =~= Seq::<Seq<u8>>::empty());
            assert(seq![longer] =~= Seq::<Seq<u8>>::empty().push(text.push(byte)));
        }
    }
}

/// Splitting what was joined gives the pieces back, where there is at least
/// one piece and none holds the separator.
pub proof fn lemma_split_join(pieces: Seq<Seq<u8>>, separator: u8)
    requires
        pieces.len() >= 1,
        forall|i: int| 0 <= i < pieces.len() ==> free_of(#[trigger] pieces[i], separator),
    ensures
        split_model(join_model(pieces, separator), separator) == pieces,
    decreases pieces.len(),
{
    let joined = join_model(pieces, separator);
    if pieces.len() == 1 {
        assert(free_of(pieces[0], separator));
        lemma_last_index_is(joined, separator, -1);
        assert(seq![joined] =~= pieces);
    } else {
        let front = pieces.drop_last();
        let head = join_model(front, separator);
        assert forall|i: int| 0 <= i < front.len() implies free_of(
            #[trigger] front[i],
            separator,
        ) by {
            assert(front[i] == pieces[i]);
        }
        lemma_split_join(front, separator);
        assert(free_of(pieces[pieces.len() - 1], separator));
        lemma_last_index_is(joined, separator, head.len() as int);
        assert(joined.take(head.len() as int) =~= head);
        assert(joined.skip(head.len() as int + 1) =~= pieces.last());
        assert(front.push(pieces.last()) =~= pieces);
    }
}

/// The last place where `byte` stands, if it occurs.
pub fn find_last(text: &[u8], byte: u8) -> (found: Option<usize>)
    ensures
        match found {
            Some(at) => at == last_index(text@, byte),
            None => last_index(text@, byte) == -1,
        },
{
    let mut i: usize = text.len();
    while i > 0
        invariant
            i <= text.len(),
            forall|j: int| i <= j < text.len() ==> text@[j] != byte,
        decreases i,
    {
        if text[i - 1] == byte {
            proof {
                lemma_last_index_is(text@, byte, i - 1);
            }
            return Some(i - 1);
        }
        i -= 1;
    }
    proof {
        lemma_last_index_is(text@, byte, -1);
    }
    None
}

/// A fresh copy of `text[from..to]`.
pub fn copy_range(text: &[u8], from: usize, to: usize) -> (copy: Vec<u8>)
    requires
        from <= to <= text.len(),
    ensures
        copy@ == text@.subrange(from as int, to as int),
{
    let mut copy: Vec<u8> = Vec::new();
    let mut i: usize = from;
    while i < to
        invariant
            from <= i <= to <= text.len(),
            copy@ == text@.subrange(from as int, i as int),
        decreases to - i,
    {
        copy.push(text[i]);
        proof {
            assert(copy@ =~= text@.subrange(from as int, i + 1));
        }
        i += 1;
    }
    copy
}

/// Splits `text` at every occurrence of `separator`.
pub fn split(text: &[u8], separator: u8) -> (pieces: Vec<Vec<u8>>)
    ensures
        stack_view(pieces@) == split_model(text@, separator),
{
    let mut done: Vec<Vec<u8>> = Vec::new();
    let mut current: Vec<u8> = Vec::new();
    let mut i: usize = 0;
    proof {
        assert(text@.take(0) =~= Seq::<u8>::empty());
        assert(stack_view(done@).push(current@) =~= seq![
            Seq::<u8>::empty(),
        ]);
    }
    while i < text.len()
        invariant
            i <= text.len(),
            stack_view(done@).push(current@) == split_model(
                text@.take(i as int),
                separator,
            ),
        decreases text.len() - i,
    {
        let byte = text[i];
        let ghost before = stack_view(done@);
        let ghost partial = current@;
        proof {
            lemma_split_push(text@.take(i as int), separator, byte);
            assert(text@.take(i as int).push(byte) =~= text@.take(i + 1));
            assert(before.push(partial).drop_last() =~= before);
        }
        if byte == separator {
            done.push(current);
            current = Vec::new();
            proof {
                assert(stack_view(done@) =~= before.push(partial));
            }
        } else {
            current.push(byte);
        }
        i += 1;
    }
    proof {
        assert(text@.take(text.len() as int) =~= text@);
    }
    done.push(current);
    proof {
        assert(stack_view(done@) =~= split_model(text@, separator));
    }
    done
}

} // verus!
