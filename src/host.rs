//! The decisions of the execution host: what each event of the form's session leads to.
//!
//! The host owns one surface. It waits in `Idle`; a submission that decodes moves it to
//! `Computing` and asks for the function to be evaluated; the result, shown with the output's
//! precision, brings it back to `Idle`. A submission that does not decode, or a function that
//! fails, leaves the output as it was and the host `Idle`. A close request ends the session.
use vstd::prelude::*;
use crate::decimal::Decimal;
use crate::fixed::fixed_text;
use crate::schema::Teaser;
use crate::fixed::to_fixed;
use crate::wire::{DecodeError, decode_spec, decode_submission, show_command, show_result_command};

verus! {

#[derive(Clone, Copy, Debug, PartialEq, Eq, Structural)]
pub enum Phase {
    /// Waiting for a submission.
    Idle,
    /// A submission decoded; its function value is awaited.
    Computing,
    /// The surface was closed.
    Closed,
}

/// What happens to the host.
#[derive(Clone, Debug)]
pub enum Event {
    /// The surface sent a submission message.
    Submission(String),
    /// The function returned this value.
    Computed(Decimal),
    /// The function failed, or returned what no `Decimal` holds.
    Failed,
    /// The surface asked to close.
    CloseRequested,
}

/// What the host asks of its surroundings.
#[derive(Clone, Debug)]
pub enum Action {
    /// Evaluate the function on these values.
    Evaluate(Vec<Decimal>),
    /// Run this command on the surface.
    Show(String),
    /// The submission was refused; the output stays as it was.
    Reject(DecodeError),
    /// End the process with this status.
    Exit(i32),
    /// Nothing to do.
    Nothing,
}

/// The parts of a schema that the host's decisions depend on.
pub struct Host {
    count: usize,
    precision: usize,
}

/// The phase that follows `event` in `phase`.
pub open spec fn next_phase(host: Host, phase: Phase, event: Event) -> Phase {
    match event {
        Event::CloseRequested => Phase::Closed,
        Event::Submission(raw) => if phase == Phase::Idle {
            if decode_spec(raw@, host.count_spec()) is Ok {
                Phase::Computing
            } else {
                Phase::Idle
            }
        } else {
            phase
        },
        Event::Computed(_) => if phase == Phase::Computing {
            Phase::Idle
        } else {
            phase
        },
        Event::Failed => if phase == Phase::Computing {
            Phase::Idle
        } else {
            phase
        },
    }
}

impl Host {
    /// The number of inputs of the schema.
    pub closed spec fn count_spec(&self) -> nat {
        self.count as nat
    }

    /// The number of decimal places of the result.
    pub closed spec fn precision_spec(&self) -> nat {
        self.precision as nat
    }

    /// The host of a form with this configuration.
    pub fn new(teaser: &Teaser) -> (r: Host)
        ensures
            r.count_spec() == teaser.inputs_spec().len(),
            r.precision_spec() == teaser.output_spec().precision_spec(),
    {
        Host { count: teaser.inputs().len(), precision: teaser.output().get_precision() }
    }

    /// The phase after `event` in `phase`, and what to do.
    pub fn step(&self, phase: Phase, event: &Event) -> (r: (Phase, Action))
        ensures
            r.0 == next_phase(*self, phase, *event),
            (*event is CloseRequested) ==> r.0 == Phase::Closed && r.1 is Exit && r.1->Exit_0 == 0,
            (*event is Submission && phase == Phase::Idle) ==> ({
                let decoded = decode_spec(event->Submission_0@, self.count_spec());
                &&& decoded is Ok ==> r.0 == Phase::Computing && r.1 is Evaluate
                    && r.1->Evaluate_0@ == decoded->Ok_0
                &&& decoded is Err ==> r.0 == Phase::Idle && r.1 is Reject && r.1->Reject_0
                    == decoded->Err_0
            }),
            (*event is Computed && phase == Phase::Computing) ==> r.0 == Phase::Idle && r.1 is Show
                && r.1->Show_0@ == show_command(
                fixed_text(event->Computed_0, self.precision_spec()),
            ),
            (*event is Failed && phase == Phase::Computing) ==> r.0 == Phase::Idle && r.1 is Nothing,
            !(*event is CloseRequested) && !(*event is Submission && phase == Phase::Idle) && !(
            *event is Computed && phase == Phase::Computing) && !(*event is Failed && phase
                == Phase::Computing) ==> r.0 == phase && r.1 is Nothing,
    {
        match event {
            Event::CloseRequested => (Phase::Closed, Action::Exit(0)),
            Event::Submission(raw) => {
                if phase == Phase::Idle {
                    match decode_submission(raw.as_str(), self.count) {
                        Ok(values) => (Phase::Computing, Action::Evaluate(values)),
                        Err(e) => (Phase::Idle, Action::Reject(e)),
                    }
                } else {
                    (phase, Action::Nothing)
                }
            },
            Event::Computed(value) => {
                if phase == Phase::Computing {
                    let shown = to_fixed(value, self.precision);
                    (Phase::Idle, Action::Show(show_result_command(shown.as_str())))
                } else {
                    (phase, Action::Nothing)
                }
            },
            Event::Failed => {
                if phase == Phase::Computing {
                    (Phase::Idle, Action::Nothing)
                } else {
                    (phase, Action::Nothing)
                }
            },
        }
    }
}

/// A round of submission and result returns the host to `Idle`, so the same message is taken the
/// same way again: it decodes to the same values, and the same function value shows the same text.
pub proof fn lemma_repeat_submission(host: Host, msg: String, value: Decimal)
    requires
        decode_spec(msg@, host.count_spec()) is Ok,
    ensures
        next_phase(host, Phase::Idle, Event::Submission(msg)) == Phase::Computing,
        next_phase(host, Phase::Computing, Event::Computed(value)) == Phase::Idle,
        next_phase(
            host,
            next_phase(
                host,
                next_phase(host, Phase::Idle, Event::Submission(msg)),
                Event::Computed(value),
            ),
            Event::Submission(msg),
        ) == Phase::Computing,
{
}

/// A submission that does not decode changes nothing: the host stays `Idle`.
pub proof fn lemma_rejected_submission(host: Host, msg: String)
    requires
        decode_spec(msg@, host.count_spec()) is Err,
    ensures
        next_phase(host, Phase::Idle, Event::Submission(msg)) == Phase::Idle,
{
}

} // verus!
