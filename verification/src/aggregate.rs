use crate::error::ProfileError;
use crate::laws::{
    lemma_aggregate_stack_set, lemma_aggregate_total, lemma_aggregate_weight,
    lemma_first_seen_order,
};
use crate::model::{
    aggregate_model, first_index, lemma_first_index, samples_view, stack_set, stack_total,
    total_weight, weight_of, weights_fit, Sample,
};
use crate::parse::{is_first_malformed, lines_model, parse_samples, text_model};
use crate::profile::AggregatedProfile;
use vstd::prelude::*;

verus! {

/// The profile of a prefix of the samples is a prefix of the whole profile,
/// entry by entry, with weights that are no larger.
pub proof fn lemma_aggregate_grows(samples: Seq<(Seq<Seq<u8>>, nat)>, n: int)
    requires
        0 <= n <= samples.len(),
    ensures
        aggregate_model(samples.take(n)).len() <= aggregate_model(samples).len(),
        forall|i: int|
            0 <= i < aggregate_model(samples.take(n)).len() ==> {
                &&& (#[trigger] aggregate_model(samples.take(n))[i]).0 == aggregate_model(
                    samples,
                )[i].0
                &&& aggregate_model(samples.take(n))[i].1 <= aggregate_model(samples)[i].1
            },
    decreases samples.len(),
{
    if n == samples.len() {
        assert(samples.take(n) =~= samples);
    } else {
        let front = samples.drop_last();
        lemma_aggregate_grows(front, n);
        assert(front.take(n) =~= samples.take(n));
        let part = aggregate_model(samples.take(n));
        let middle = aggregate_model(front);
        lemma_first_index(middle, samples.last().0);
        assert forall|i: int| 0 <= i < part.len() implies {
            &&& (#[trigger] part[i]).0 == aggregate_model(samples)[i].0
            &&& part[i].1 <= aggregate_model(samples)[i].1
        } by {
            assert(part[i].0 == middle[i].0);
        }
    }
}

/// Aggregates samples: one entry for each distinct stack, in the order in
/// which the stacks first occur, with the sum of the weights of its samples.
/// Fails where such a sum does not fit in 64 bits.
pub fn aggregate(samples: &Vec<Sample>) -> (result: Result<AggregatedProfile, ProfileError>)
    ensures
        result is Ok <==> weights_fit(aggregate_model(samples_view(samples@))),
        match result {
            Ok(profile) => profile.wf() && profile@ == aggregate_model(samples_view(samples@)),
            Err(error) => error == ProfileError::WeightOverflow,
        },
        result matches Ok(profile) ==> total_weight(profile@) == total_weight(
            samples_view(samples@),
        ),
        result matches Ok(profile) ==> stack_set(profile@) == stack_set(samples_view(samples@)),
        result matches Ok(profile) ==> forall|stack: Seq<Seq<u8>>|
            #[trigger] weight_of(profile@, stack) == stack_total(samples_view(samples@), stack),
        result matches Ok(profile) ==> forall|i: int, j: int|
            0 <= i < j < profile@.len() ==> 0 <= first_index(
                samples_view(samples@),
                (#[trigger] profile@[i]).0,
            ) < first_index(samples_view(samples@), (#[trigger] profile@[j]).0),
{
    let ghost model = samples_view(samples@);
    let mut profile = AggregatedProfile::new();
    let mut i: usize = 0;
    proof {
        assert(model.take(0) =~= Seq::<(Seq<Seq<u8>>, nat)>::empty());
    }
    while i < samples.len()
        invariant
            i <= samples.len(),
            model == samples_view(samples@),
            profile.wf(),
            profile@ == aggregate_model(model.take(i as int)),
        decreases samples.len() - i,
    {
        let sample = &samples[i];
        proof {
            assert(model.take(i + 1).drop_last() =~= model.take(i as int));
            assert(model.take(i + 1).last() == sample@);
        }
        match profile.add(&sample.stack, sample.weight) {
            Err(error) => {
                proof {
                    lemma_aggregate_grows(model, i + 1);
                    let part = aggregate_model(model.take(i + 1));
                    let bad = choose|k: int| 0 <= k < part.len() && !((#[trigger] part[k]).1 <= u64::MAX);
                    assert(aggregate_model(model)[bad].1 >= part[bad].1);
                }
                return Err(ProfileError::WeightOverflow);
            },
            Ok(()) => {},
        }
        i += 1;
    }
    proof {
        assert(model.take(samples.len() as int) =~= model);
        lemma_aggregate_total(model);
        lemma_aggregate_stack_set(model);
        assert forall|stack: Seq<Seq<u8>>| #[trigger]
            weight_of(profile@, stack) == stack_total(model, stack) by {
            lemma_aggregate_weight(model, stack);
        }
        assert forall|i: int, j: int| 0 <= i < j < profile@.len() implies 0 <= first_index(
            model,
            (#[trigger] profile@[i]).0,
        ) < first_index(model, (#[trigger] profile@[j]).0) by {
            lemma_first_seen_order(model, i, j);
        }
    }
    Ok(profile)
}

/// Reads samples from text, one to a line, and aggregates them.
pub fn aggregate_text(text: &[u8]) -> (result: Result<AggregatedProfile, ProfileError>)
    ensures
        match result {
            Ok(profile) => {
                &&& profile.wf()
                &&& text_model(text@) is Some
                &&& profile@ == aggregate_model(text_model(text@).unwrap())
            },
            Err(error) => if text_model(text@) is None {
                error matches ProfileError::InvalidSampleFormat { line } && is_first_malformed(
                    lines_model(text@),
                    line@,
                )
            } else {
                &&& error == ProfileError::WeightOverflow
                &&& !weights_fit(aggregate_model(text_model(text@).unwrap()))
            },
        },
{
    match parse_samples(text) {
        Err(error) => Err(error),
        Ok(samples) => aggregate(&samples),
    }
}

/// The weight that an entry keeps after adjustment. No frame carries a fixed
/// cost yet, so every weight stays as it is.
pub fn adjusted_weight(stack: &Vec<Vec<u8>>, weight: u64) -> (adjusted: u64)
    ensures
        adjusted == weight,
{
    weight
}

/// Adjusts the weight of every entry; the stacks and their order stay.
pub fn adjust_weights(profile: &mut AggregatedProfile)
    requires
        old(profile).wf(),
    ensures
        final(profile).wf(),
        final(profile)@.len() == old(profile)@.len(),
        forall|i: int|
            0 <= i < old(profile)@.len() ==> (#[trigger] final(profile)@[i]).0 == old(
                profile,
            )@[i].0,
        stack_set(final(profile)@) == stack_set(old(profile)@),
        final(profile)@ == old(profile)@,
{
    let count = profile.len();
    let mut i: usize = 0;
    while i < count
        invariant
            profile.wf(),
            profile@ == old(profile)@,
            count == profile@.len(),
        decreases count - i,
    {
        let weight = adjusted_weight(profile.stack(i), profile.weight(i));
        profile.set_weight(i, weight);
        i += 1;
    }
}

} // verus!
