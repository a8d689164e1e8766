use vstd::prelude::*;

verus! {

/// The frames of a stack as byte strings, root first.
pub open spec fn stack_view(stack: Seq<Vec<u8>>) -> Seq<Seq<u8>> {
    stack.map_values(|frame: Vec<u8>| frame@)
}

/// The view of a stack with one more frame.
pub proof fn lemma_stack_view_push(stack: Seq<Vec<u8>>, frame: Vec<u8>)
    ensures
        stack_view(stack.push(frame)) == stack_view(stack).push(frame@),
{
    assert(stack_view(stack.push(frame)) =~= stack_view(stack).push(frame@));
}

/// One weighted call stack: either a raw sample or an entry of a profile.
#[derive(Debug, Clone, PartialEq, Eq)]
pub struct Sample {
    /// Frame names, root first.
    pub stack: Vec<Vec<u8>>,
    pub weight: u64,
}

impl View for Sample {
    type V = (Seq<Seq<u8>>, nat);

    open spec fn view(&self) -> (Seq<Seq<u8>>, nat) {
        (stack_view(self.stack@), self.weight as nat)
    }
}

pub open spec fn samples_view(samples: Seq<Sample>) -> Seq<(Seq<Seq<u8>>, nat)> {
    samples.map_values(|sample: Sample| sample@)
}

/// The position of the first entry that holds `stack`, or -1 where none does.
pub open spec fn first_index(entries: Seq<(Seq<Seq<u8>>, nat)>, stack: Seq<Seq<u8>>) -> int
    decreases entries.len(),
{
    if entries.len() == 0 {
        -1
    } else {
        let before = first_index(entries.drop_last(), stack);
        if before >= 0 {
            before
        } else if entries.last().0 == stack {
            entries.len() - 1
        } else {
            -1
        }
    }
}

/// The entries after one more sample: its weight is added to the entry of its
/// stack, or a new entry is appended where the stack is new.
pub open spec fn record(
    entries: Seq<(Seq<Seq<u8>>, nat)>,
    stack: Seq<Seq<u8>>,
    weight: nat,
) -> Seq<(Seq<Seq<u8>>, nat)> {
    let at = first_index(entries, stack);
    if at >= 0 {
        entries.update(at, (stack, entries[at].1 + weight))
    } else {
        entries.push((stack, weight))
    }
}

/// The profile that a sequence of samples aggregates to.
pub open spec fn aggregate_model(samples: Seq<(Seq<Seq<u8>>, nat)>) -> Seq<(Seq<Seq<u8>>, nat)>
    decreases samples.len(),
{
    if samples.len() == 0 {
        Seq::empty()
    } else {
        record(aggregate_model(samples.drop_last()), samples.last().0, samples.last().1)
    }
}

/// The sum of all weights.
pub open spec fn total_weight(entries: Seq<(Seq<Seq<u8>>, nat)>) -> nat
    decreases entries.len(),
{
    if entries.len() == 0 {
        0
    } else {
        total_weight(entries.drop_last()) + entries.last().1
    }
}

/// The weight recorded for `stack`; 0 where no entry holds it.
pub open spec fn weight_of(entries: Seq<(Seq<Seq<u8>>, nat)>, stack: Seq<Seq<u8>>) -> nat {
    let at = first_index(entries, stack);
    if at >= 0 {
        entries[at].1
    } else {
        0
    }
}

/// The sum of the weights of the samples that have `stack`.
pub open spec fn stack_total(samples: Seq<(Seq<Seq<u8>>, nat)>, stack: Seq<Seq<u8>>) -> nat
    decreases samples.len(),
{
    if samples.len() == 0 {
        0
    } else if samples.last().0 == stack {
        stack_total(samples.drop_last(), stack) + samples.last().1
    } else {
        stack_total(samples.drop_last(), stack)
    }
}

/// No stack is the key of two entries.
pub open spec fn distinct_stacks(entries: Seq<(Seq<Seq<u8>>, nat)>) -> bool {
    forall|i: int, j: int| 0 <= i < j < entries.len() ==> (#[trigger] entries[i]).0 != (#[trigger] entries[j]).0
}

/// Some entry holds `stack`.
pub open spec fn has_stack(entries: Seq<(Seq<Seq<u8>>, nat)>, stack: Seq<Seq<u8>>) -> bool {
    exists|i: int| 0 <= i < entries.len() && (#[trigger] entries[i]).0 == stack
}

/// The stacks that occur, as a set.
pub open spec fn stack_set(entries: Seq<(Seq<Seq<u8>>, nat)>) -> Set<Seq<Seq<u8>>> {
    Set::new(|stack: Seq<Seq<u8>>| has_stack(entries, stack))
}

/// Every weight fits in 64 bits.
pub open spec fn weights_fit(entries: Seq<(Seq<Seq<u8>>, nat)>) -> bool {
    forall|i: int| 0 <= i < entries.len() ==> (#[trigger] entries[i]).1 <= u64::MAX
}

/// `first_index` finds the first entry with the stack, and -1 only where
/// there is none.
pub proof fn lemma_first_index(entries: Seq<(Seq<Seq<u8>>, nat)>, stack: Seq<Seq<u8>>)
    ensures
        -1 <= first_index(entries, stack) < entries.len(),
        first_index(entries, stack) >= 0 ==> entries[first_index(entries, stack)].0 == stack,
        forall|j: int| 0 <= j < first_index(entries, stack) ==> (#[trigger] entries[j]).0 != stack,
        first_index(entries, stack) == -1 ==> !has_stack(entries, stack),
        first_index(entries, stack) >= 0 ==> has_stack(entries, stack),
    decreases entries.len(),
{
    if entries.len() > 0 {
        let front = entries.drop_last();
        lemma_first_index(front, stack);
        let before = first_index(front, stack);
        if before >= 0 {
            assert(entries[before] == front[before]);
            assert forall|j: int| 0 <= j < before implies (#[trigger] entries[j]).0 != stack by {
                assert(entries[j] == front[j]);
            }
        } else {
            assert forall|j: int| 0 <= j < entries.len() - 1 implies (#[trigger] entries[j]).0
                != stack by {
                assert(front[j] == entries[j]);
            }
        }
    }
}

/// A place that holds the stack and before which none does is the first
/// index; where no place holds it, the first index is -1.
pub proof fn lemma_first_index_is(
    entries: Seq<(Seq<Seq<u8>>, nat)>,
    stack: Seq<Seq<u8>>,
    at: int,
)
    requires
        -1 <= at < entries.len(),
        at >= 0 ==> entries[at].0 == stack,
        forall|j: int| 0 <= j < at ==> (#[trigger] entries[j]).0 != stack,
        at == -1 ==> forall|j: int| 0 <= j < entries.len() ==> (#[trigger] entries[j]).0 != stack,
    ensures
        first_index(entries, stack) == at,
{
    lemma_first_index(entries, stack);
    let found = first_index(entries, stack);
    if found >= 0 {
        assert(entries[found].0 == stack);
    }
    if at >= 0 {
        assert(has_stack(entries, stack));
    }
}

} // verus!
