//! The order of the program's stages: splash screen, commit workflow,
//! confetti, stopping at the first failure.
use vstd::prelude::*;

verus! {

/// A stage of a session.
#[derive(Clone, Copy, Debug, PartialEq, Eq, Structural)]
pub enum Stage {
    Splash,
    Workflow,
    Confetti,
}

/// What the host does next.
#[derive(Clone, Copy, Debug, PartialEq, Eq, Structural)]
pub enum Action {
    /// Run this stage and report whether it succeeded.
    Perform(Stage),
    /// Every stage succeeded.
    Finish,
    /// The stage just run failed; surface its error.
    Abort,
}

/// The action that follows `completed` (none yet at the start) having
/// succeeded or failed.
pub open spec fn next_action(completed: Option<Stage>, succeeded: bool) -> Action {
    match completed {
        None => Action::Perform(Stage::Splash),
        Some(stage) => if !succeeded {
            Action::Abort
        } else {
            match stage {
                Stage::Splash => Action::Perform(Stage::Workflow),
                Stage::Workflow => Action::Perform(Stage::Confetti),
                Stage::Confetti => Action::Finish,
            }
        },
    }
}

/// Decides the next step of a session from the stage last completed and its outcome.
pub fn run(completed: Option<Stage>, succeeded: bool) -> (a: Action)
    ensures
        a == next_action(completed, succeeded),
{
    match completed {
        None => Action::Perform(Stage::Splash),
        Some(stage) => if !succeeded {
            Action::Abort
        } else {
            match stage {
                Stage::Splash => Action::Perform(Stage::Workflow),
                Stage::Workflow => Action::Perform(Stage::Confetti),
                Stage::Confetti => Action::Finish,
            }
        },
    }
}

} // verus!
