use crate::model::{
    aggregate_model, distinct_stacks, first_index, has_stack, lemma_first_index,
    lemma_first_index_is, record, stack_set, stack_total, total_weight, weight_of,
};
use crate::profile::lemma_record_keeps_distinct;
use vstd::prelude::*;

verus! {

/// Adding to the weight of one entry adds as much to the total.
pub proof fn lemma_total_update(entries: Seq<(Seq<Seq<u8>>, nat)>, at: int, weight: nat)
    requires
        0 <= at < entries.len(),
    ensures
        total_weight(entries.update(at, (entries[at].0, entries[at].1 + weight))) == total_weight(
            entries,
        ) + weight,
    decreases entries.len(),
{
    let after = entries.update(at, (entries[at].0, entries[at].1 + weight));
    if at == entries.len() - 1 {
        assert(after.drop_last() =~= entries.drop_last());
    } else {
        let front = entries.drop_last();
        lemma_total_update(front, at, weight);
        assert(after.drop_last() =~= front.update(at, (front[at].0, front[at].1 + weight)));
    }
}

/// Recording a sample adds its weight to the total.
pub proof fn lemma_record_total(
    entries: Seq<(Seq<Seq<u8>>, nat)>,
    stack: Seq<Seq<u8>>,
    weight: nat,
)
    ensures
        total_weight(record(entries, stack, weight)) == total_weight(entries) + weight,
{
    lemma_first_index(entries, stack);
    let at = first_index(entries, stack);
    if at >= 0 {
        lemma_total_update(entries, at, weight);
    } else {
        assert(entries.push((stack, weight)).drop_last() =~= entries);
    }
}

/// After a sample is recorded the stacks are those that were there, and the
/// sample's.
pub proof fn lemma_record_stacks(
    entries: Seq<(Seq<Seq<u8>>, nat)>,
    stack: Seq<Seq<u8>>,
    weight: nat,
    other: Seq<Seq<u8>>,
)
    ensures
        has_stack(record(entries, stack, weight), other) <==> has_stack(entries, other) || other
            == stack,
{
    lemma_first_index(entries, stack);
    let at = first_index(entries, stack);
    let after = record(entries, stack, weight);
    if has_stack(after, other) {
        let i = choose|i: int| 0 <= i < after.len() && (#[trigger] after[i]).0 == other;
        if i < entries.len() {
            assert(entries[i].0 == other);
        }
    }
    if has_stack(entries, other) {
        let i = choose|i: int| 0 <= i < entries.len() && (#[trigger] entries[i]).0 == other;
        assert(after[i].0 == other);
    }
    if other == stack {
        if at >= 0 {
            assert(after[at].0 == other);
        } else {
            assert(after[entries.len() as int].0 == other);
        }
    }
}

/// Recording a sample adds its weight to what is recorded for its stack and
/// leaves what is recorded for any other stack.
pub proof fn lemma_record_weight(
    entries: Seq<(Seq<Seq<u8>>, nat)>,
    stack: Seq<Seq<u8>>,
    weight: nat,
    other: Seq<Seq<u8>>,
)
    ensures
        other == stack ==> weight_of(record(entries, stack, weight), other) == weight_of(
            entries,
            other,
        ) + weight,
        other != stack ==> weight_of(record(entries, stack, weight), other) == weight_of(
            entries,
            other,
        ),
{
    lemma_first_index(entries, stack);
    lemma_first_index(entries, other);
    let at = first_index(entries, stack);
    let after = record(entries, stack, weight);
    if at >= 0 {
        let found = first_index(entries, other);
        assert forall|j: int| 0 <= j < after.len() implies (#[trigger] after[j]).0
            == entries[j].0 by {}
        if found >= 0 {
            assert forall|j: int| 0 <= j < found implies (#[trigger] after[j]).0 != other by {
                assert(entries[j].0 != other);
            }
        } else {
            assert forall|j: int| 0 <= j < after.len() implies (#[trigger] after[j]).0
                != other by {
                assert(entries[j].0 != other);
            }
        }
        lemma_first_index_is(after, other, found);
    } else {
        assert(after.drop_last() =~= entries);
    }
}

/// What a profile records for a stack is the sum of the weights of the
/// samples that have the stack.
pub proof fn lemma_aggregate_weight(samples: Seq<(Seq<Seq<u8>>, nat)>, stack: Seq<Seq<u8>>)
    ensures
        weight_of(aggregate_model(samples), stack) == stack_total(samples, stack),
    decreases samples.len(),
{
    if samples.len() > 0 {
        lemma_aggregate_weight(samples.drop_last(), stack);
        lemma_record_weight(
            aggregate_model(samples.drop_last()),
            samples.last().0,
            samples.last().1,
            stack,
        );
    }
}

/// A stack occurs in a sequence where it occurs before the last element or
/// is the last element's.
pub proof fn lemma_has_stack_last(entries: Seq<(Seq<Seq<u8>>, nat)>, other: Seq<Seq<u8>>)
    requires
        entries.len() > 0,
    ensures
        has_stack(entries, other) <==> has_stack(entries.drop_last(), other) || entries.last().0
            == other,
{
    let front = entries.drop_last();
    if has_stack(entries, other) {
        let i = choose|i: int| 0 <= i < entries.len() && (#[trigger] entries[i]).0 == other;
        if i < front.len() {
            assert(front[i].0 == other);
        }
    }
    if has_stack(front, other) {
        let i = choose|i: int| 0 <= i < front.len() && (#[trigger] front[i]).0 == other;
        assert(entries[i].0 == other);
    }
    if entries.last().0 == other {
        assert(entries[entries.len() - 1].0 == other);
    }
}

/// Aggregation loses and invents no weight: the weights of the profile add
/// up to the weights of the samples.
pub proof fn lemma_aggregate_total(samples: Seq<(Seq<Seq<u8>>, nat)>)
    ensures
        total_weight(aggregate_model(samples)) == total_weight(samples),
    decreases samples.len(),
{
    if samples.len() > 0 {
        lemma_aggregate_total(samples.drop_last());
        lemma_record_total(
            aggregate_model(samples.drop_last()),
            samples.last().0,
            samples.last().1,
        );
    }
}

/// A stack is in the profile exactly where some sample has it.
pub proof fn lemma_aggregate_has_stack(samples: Seq<(Seq<Seq<u8>>, nat)>, stack: Seq<Seq<u8>>)
    ensures
        has_stack(aggregate_model(samples), stack) <==> has_stack(samples, stack),
    decreases samples.len(),
{
    if samples.len() > 0 {
        lemma_aggregate_has_stack(samples.drop_last(), stack);
        lemma_record_stacks(
            aggregate_model(samples.drop_last()),
            samples.last().0,
            samples.last().1,
            stack,
        );
        lemma_has_stack_last(samples, stack);
    }
}

/// The stacks of the profile are the stacks of the samples.
pub proof fn lemma_aggregate_stack_set(samples: Seq<(Seq<Seq<u8>>, nat)>)
    ensures
        stack_set(aggregate_model(samples)) == stack_set(samples),
{
    assert forall|stack: Seq<Seq<u8>>|
        stack_set(aggregate_model(samples)).contains(stack) == stack_set(samples).contains(
            stack,
        ) by {
        lemma_aggregate_has_stack(samples, stack);
    }
    assert(stack_set(aggregate_model(samples)) =~= stack_set(samples));
}

/// No stack is the key of two entries of a profile.
pub proof fn lemma_aggregate_keys_distinct(samples: Seq<(Seq<Seq<u8>>, nat)>)
    ensures
        distinct_stacks(aggregate_model(samples)),
    decreases samples.len(),
{
    if samples.len() > 0 {
        lemma_aggregate_keys_distinct(samples.drop_last());
        lemma_record_keeps_distinct(
            aggregate_model(samples.drop_last()),
            samples.last().0,
            samples.last().1,
        );
    }
}

/// The entries of a profile stand in the order in which their stacks first
/// occur among the samples: of two entries, the earlier one's stack is first
/// seen earlier.
pub proof fn lemma_first_seen_order(samples: Seq<(Seq<Seq<u8>>, nat)>, i: int, j: int)
    requires
        0 <= i < j < aggregate_model(samples).len(),
    ensures
        0 <= first_index(samples, aggregate_model(samples)[i].0) < first_index(
            samples,
            aggregate_model(samples)[j].0,
        ) < samples.len(),
    decreases samples.len(),
{
    let profile = aggregate_model(samples);
    let front = samples.drop_last();
    let middle = aggregate_model(front);
    let stack = samples.last().0;
    lemma_first_index(middle, stack);
    lemma_first_index(front, middle[i].0);
    lemma_aggregate_has_stack(front, middle[i].0);
    assert(profile[i].0 == middle[i].0);
    assert(has_stack(middle, middle[i].0));
    if j < middle.len() {
        assert(profile[j].0 == middle[j].0);
        lemma_first_seen_order(front, i, j);
    } else {
        lemma_first_index(front, stack);
        lemma_aggregate_has_stack(front, stack);
    }
}

} // verus!
