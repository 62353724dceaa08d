//! Decisions taken while driving the sound server client's event loop.
use vstd::prelude::*;

verus! {

/// What one turn of the sound server client's event loop reported.
#[derive(Clone, Copy, Debug, PartialEq, Eq, Structural)]
pub enum IterateOutcome {
    Success,
    Quit,
    Error,
}

/// State of the connection context to the sound server.
#[derive(Clone, Copy, Debug, PartialEq, Eq, Structural)]
pub enum ContextStatus {
    /// Still connecting, authorizing or setting its name.
    Pending,
    Ready,
    Failed,
    Terminated,
}

/// State of a pending server operation.
#[derive(Clone, Copy, Debug, PartialEq, Eq, Structural)]
pub enum OperationStatus {
    Running,
    Done,
    Cancelled,
}

/// What to do after one turn of the event loop.
#[derive(Clone, Copy, Debug, PartialEq, Eq, Structural)]
pub enum Step {
    /// Turn the event loop again.
    Continue,
    /// The awaited state was reached.
    Finished,
    /// Give up: the awaited state will not be reached.
    Abandoned,
}

/// Decides the next step while waiting for the connection to become ready:
/// a loop turn that quits or fails, or a failed or terminated context, ends
/// the attempt; a ready context after a good turn ends the wait.
pub fn connect_step(iterate: IterateOutcome, context: ContextStatus) -> (r: Step)
    ensures
        r == match iterate {
            IterateOutcome::Quit | IterateOutcome::Error => Step::Abandoned,
            IterateOutcome::Success => match context {
                ContextStatus::Ready => Step::Finished,
                ContextStatus::Failed | ContextStatus::Terminated => Step::Abandoned,
                ContextStatus::Pending => Step::Continue,
            },
        },
{
    match iterate {
        IterateOutcome::Quit | IterateOutcome::Error => Step::Abandoned,
        IterateOutcome::Success => match context {
            ContextStatus::Ready => Step::Finished,
            ContextStatus::Failed | ContextStatus::Terminated => Step::Abandoned,
            ContextStatus::Pending => Step::Continue,
        },
    }
}

/// Decides the next step while waiting for an operation: a loop turn that
/// quits ends the wait unfinished; otherwise (a loop error is only reported)
/// the operation's own state decides.
pub fn wait_for_operation_step(iterate: IterateOutcome, operation: OperationStatus) -> (r: Step)
    ensures
        r == match iterate {
            IterateOutcome::Quit => Step::Abandoned,
            _ => match operation {
                OperationStatus::Done => Step::Finished,
                OperationStatus::Running => Step::Continue,
                OperationStatus::Cancelled => Step::Abandoned,
            },
        },
{
    if iterate == IterateOutcome::Quit {
        return Step::Abandoned;
    }
    match operation {
        OperationStatus::Done => Step::Finished,
        OperationStatus::Running => Step::Continue,
        OperationStatus::Cancelled => Step::Abandoned,
    }
}

} // verus!
