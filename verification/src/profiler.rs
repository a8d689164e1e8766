use crate::aggregate::{adjust_weights, aggregate};
use crate::error::ProfileError;
use crate::gate::{check_outcome, panic_message_model, values_view, RunOutcome};
use crate::model::{aggregate_model, samples_view, weights_fit, Sample};
use crate::profile::AggregatedProfile;
use vstd::prelude::*;

verus! {

/// Turns the result of a run into a profile. A run that panicked gives no
/// profile, whatever it sampled: the error carries the panic message. The
/// samples of a run that returned are aggregated, and the weights of the
/// profile adjusted.
pub fn profile(outcome: &RunOutcome, samples: &Vec<Sample>) -> (result: Result<
    AggregatedProfile,
    ProfileError,
>)
    ensures
        match *outcome {
            RunOutcome::Panic { values } => result matches Err(
                ProfileError::ProgramPanicked { message },
            ) && message@ == panic_message_model(values_view(values@)),
            RunOutcome::Success => match result {
                Ok(profile) => {
                    &&& profile.wf()
                    &&& profile@ == aggregate_model(samples_view(samples@))
                },
                Err(error) => {
                    &&& error == ProfileError::WeightOverflow
                    &&& !weights_fit(aggregate_model(samples_view(samples@)))
                },
            },
        },
{
    match check_outcome(outcome) {
        Err(error) => Err(error),
        Ok(()) => match aggregate(samples) {
            Err(error) => Err(error),
            Ok(mut profile) => {
                adjust_weights(&mut profile);
                Ok(profile)
            },
        },
    }
}

} // verus!
