use crate::error::ProfileError;
use crate::model::{
    distinct_stacks, first_index, has_stack, lemma_first_index, lemma_stack_view_push, record,
    stack_view, weights_fit,
};
use vstd::prelude::*;

verus! {

/// Whether two byte strings hold the same bytes.
pub fn bytes_equal(a: &Vec<u8>, b: &Vec<u8>) -> (same: bool)
    ensures
        same == (a@ == b@),
{
    if a.len() != b.len() {
        return false;
    }
    let mut i: usize = 0;
    while i < a.len()
        invariant
            i <= a.len(),
            a.len() == b.len(),
            forall|k: int| 0 <= k < i ==> a[k] == b[k],
        decreases a.len() - i,
    {
        if a[i] != b[i] {
            return false;
        }
        i += 1;
    }
    proof {
        assert(a@ =~= b@);
    }
    true
}

/// Whether two stacks hold the same frames in the same order.
pub fn stacks_equal(a: &Vec<Vec<u8>>, b: &Vec<Vec<u8>>) -> (same: bool)
    ensures
        same == (stack_view(a@) == stack_view(b@)),
{
    if a.len() != b.len() {
        proof {
            assert(stack_view(a@).len() != stack_view(b@).len());
        }
        return false;
    }
    let mut i: usize = 0;
    while i < a.len()
        invariant
            i <= a.len(),
            a.len() == b.len(),
            forall|k: int| 0 <= k < i ==> a[k]@ == b[k]@,
        decreases a.len() - i,
    {
        if !bytes_equal(&a[i], &b[i]) {
            proof {
                assert(stack_view(a@)[i as int] == a[i as int]@);
                assert(stack_view(b@)[i as int] == b[i as int]@);
            }
            return false;
        }
        i += 1;
    }
    proof {
        assert(stack_view(a@) =~= stack_view(b@));
    }
    true
}

/// A fresh copy of a byte string.
pub fn copy_bytes(bytes: &Vec<u8>) -> (copy: Vec<u8>)
    ensures
        copy@ == bytes@,
{
    let mut copy: Vec<u8> = Vec::new();
    let mut i: usize = 0;
    while i < bytes.len()
        invariant
            i <= bytes.len(),
            copy@ == bytes@.take(i as int),
        decreases bytes.len() - i,
    {
        copy.push(bytes[i]);
        proof {
            assert(copy@ =~= bytes@.take(i + 1));
        }
        i += 1;
    }
    proof {
        assert(bytes@.take(bytes.len() as int) =~= bytes@);
    }
    copy
}

/// A fresh copy of a stack.
pub fn copy_stack(stack: &Vec<Vec<u8>>) -> (copy: Vec<Vec<u8>>)
    ensures
        stack_view(copy@) == stack_view(stack@),
{
    let mut copy: Vec<Vec<u8>> = Vec::new();
    let mut i: usize = 0;
    while i < stack.len()
        invariant
            i <= stack.len(),
            stack_view(copy@) == stack_view(stack@).take(i as int),
        decreases stack.len() - i,
    {
        let ghost before = copy@;
        let frame = copy_bytes(&stack[i]);
        copy.push(frame);
        proof {
            lemma_stack_view_push(before, frame);
            assert(stack_view(stack@)[i as int] == stack@[i as int]@);
            assert(stack_view(copy@) =~= stack_view(stack@).take(i + 1));
        }
        i += 1;
    }
    proof {
        assert(stack_view(stack@).take(stack.len() as int) =~= stack_view(stack@));
    }
    copy
}

/// An aggregated profile: distinct call stacks, in the order in which each was
/// first seen, each with the weight accumulated for it.
#[derive(Debug, Clone, PartialEq, Eq)]
pub struct AggregatedProfile {
    stacks: Vec<Vec<Vec<u8>>>,
    weights: Vec<u64>,
}

impl View for AggregatedProfile {
    type V = Seq<(Seq<Seq<u8>>, nat)>;

    closed spec fn view(&self) -> Seq<(Seq<Seq<u8>>, nat)> {
        Seq::new(
            self.stacks@.len(),
            |i: int| (stack_view(self.stacks@[i]@), self.weights@[i] as nat),
        )
    }
}

impl AggregatedProfile {
    /// Each stack has its weight.
    pub closed spec fn paired(&self) -> bool {
        self.stacks@.len() == self.weights@.len()
    }

    /// The profile's invariant: no stack is recorded twice, and every weight
    /// fits in 64 bits.
    pub open spec fn wf(&self) -> bool {
        &&& self.paired()
        &&& distinct_stacks(self@)
        &&& weights_fit(self@)
    }

    /// The empty profile.
    pub fn new() -> (profile: AggregatedProfile)
        ensures
            profile.wf(),
            profile@ == Seq::<(Seq<Seq<u8>>, nat)>::empty(),
    {
        let profile = AggregatedProfile { stacks: Vec::new(), weights: Vec::new() };
        proof {
            assert(profile@ =~= Seq::<(Seq<Seq<u8>>, nat)>::empty());
        }
        profile
    }

    /// The number of distinct stacks.
    pub fn len(&self) -> (n: usize)
        requires
            self.wf(),
        ensures
            n == self@.len(),
    {
        self.stacks.len()
    }

    /// The stack of the entry at `index`, root first.
    pub fn stack(&self, index: usize) -> (stack: &Vec<Vec<u8>>)
        requires
            self.wf(),
            index < self@.len(),
        ensures
            stack_view(stack@) == self@[index as int].0,
    {
        &self.stacks[index]
    }

    /// The weight of the entry at `index`.
    pub fn weight(&self, index: usize) -> (weight: u64)
        requires
            self.wf(),
            index < self@.len(),
        ensures
            weight == self@[index as int].1,
    {
        self.weights[index]
    }

    /// Replaces the weight of the entry at `index`.
    pub fn set_weight(&mut self, index: usize, weight: u64)
        requires
            old(self).wf(),
            index < old(self)@.len(),
        ensures
            final(self).wf(),
            final(self)@ == old(self)@.update(
                index as int,
                (old(self)@[index as int].0, weight as nat),
            ),
    {
        self.weights.set(index, weight);
        proof {
            assert(self@ =~= old(self)@.update(
                index as int,
                (old(self)@[index as int].0, weight as nat),
            ));
        }
    }

    /// Where `stack` is recorded, if it is.
    pub fn find(&self, stack: &Vec<Vec<u8>>) -> (found: Option<usize>)
        requires
            self.wf(),
        ensures
            match found {
                Some(index) => index == first_index(self@, stack_view(stack@)),
                None => first_index(self@, stack_view(stack@)) == -1,
            },
    {
        let mut i: usize = 0;
        while i < self.stacks.len()
            invariant
                i <= self.stacks.len(),
                self.stacks@.len() == self@.len(),
                forall|k: int| 0 <= k < i ==> (#[trigger] self@[k]).0 != stack_view(stack@),
            decreases self.stacks.len() - i,
        {
            if stacks_equal(&self.stacks[i], stack) {
                proof {
                    lemma_first_index(self@, stack_view(stack@));
                    assert(self@[i as int].0 == stack_view(stack@));
                }
                return Some(i);
            }
            i += 1;
        }
        proof {
            lemma_first_index(self@, stack_view(stack@));
        }
        None
    }

    /// Records one sample: adds `weight` to the entry of `stack`, or appends a
    /// new entry where the stack is new. Where the sum would pass 64 bits the
    /// profile is left as it was.
    pub fn add(&mut self, stack: &Vec<Vec<u8>>, weight: u64) -> (result: Result<(), ProfileError>)
        requires
            old(self).wf(),
        ensures
            final(self).wf(),
            result is Ok <==> weights_fit(record(old(self)@, stack_view(stack@), weight as nat)),
            result is Ok ==> final(self)@ == record(
                old(self)@,
                stack_view(stack@),
                weight as nat,
            ),
            result is Err ==> final(self)@ == old(self)@ && result == Err::<(), ProfileError>(
                ProfileError::WeightOverflow,
            ),
    {
        let ghost before = self@;
        let ghost key = stack_view(stack@);
        proof {
            lemma_first_index(before, key);
        }
        match self.find(stack) {
            Some(index) => {
                let current = self.weights[index];
                if weight > u64::MAX - current {
                    proof {
                        let after = record(before, key, weight as nat);
                        assert(after[index as int].1 > u64::MAX);
                    }
                    return Err(ProfileError::WeightOverflow);
                }
                self.weights.set(index, current + weight);
                proof {
                    assert(before[index as int].0 == key);
                    assert(self@ =~= record(before, key, weight as nat));
                    lemma_record_keeps_distinct(before, key, weight as nat);
                }
                Ok(())
            },
            None => {
                self.stacks.push(copy_stack(stack));
                self.weights.push(weight);
                proof {
                    assert(self@ =~= record(before, key, weight as nat));
                    lemma_record_keeps_distinct(before, key, weight as nat);
                }
                Ok(())
            },
        }
    }
}

/// Recording a sample keeps the stacks distinct.
pub proof fn lemma_record_keeps_distinct(
    entries: Seq<(Seq<Seq<u8>>, nat)>,
    stack: Seq<Seq<u8>>,
    weight: nat,
)
    requires
        distinct_stacks(entries),
    ensures
        distinct_stacks(record(entries, stack, weight)),
{
    lemma_first_index(entries, stack);
    let after = record(entries, stack, weight);
    let at = first_index(entries, stack);
    assert forall|i: int, j: int| 0 <= i < j < after.len() implies (#[trigger] after[i]).0 != (
    #[trigger] after[j]).0 by {
        if at >= 0 {
            assert(after[i].0 == entries[i].0);
            assert(after[j].0 == entries[j].0);
        } else {
            if j < entries.len() {
                assert(after[i] == entries[i]);
                assert(after[j] == entries[j]);
            } else {
                assert(after[i] == entries[i]);
                assert(!has_stack(entries, stack));
            }
        }
    }
}

} // verus!
