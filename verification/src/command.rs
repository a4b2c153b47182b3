//! The executor: the application-supplied action behind a fully bound
//! record, and the wrapper that translates its outcome into the public
//! result type.

use vstd::prelude::*;
use crate::error::Error;

verus! {

/// A command: a type whose values are built from a bound record and whose
/// action runs against the shared state.  Implemented by the application;
/// the engine promises nothing about what an action does.
pub trait Command: Sized {
    /// The shared state the action mutates.
    type State;

    /// The error the action may report.
    type Error;

    /// Consumes the bound command and acts on the state.
    fn action(self, state: &mut Self::State) -> Result<(), Self::Error>;
}

/// Translates an action's outcome into the public result type: success
/// passes through unchanged, and a reported failure becomes a user-level
/// error, structurally distinct from every internal kind.
pub fn wrap_outcome<E>(outcome: Result<(), E>) -> (r: Result<(), Error<E>>)
    ensures
        outcome is Ok ==> r == Ok::<(), Error<E>>(()),
        (outcome matches Err(e) ==> r == Err::<(), Error<E>>(Error::User(e))),
{
    match outcome {
        Ok(u) => Ok(u),
        Err(e) => Err(Error::User(e)),
    }
}

/// Invokes the application action on a bound command and exclusive state
/// and hands its outcome on through `wrap_outcome`.  What the action
/// itself decides cannot be stated here - `action` is the application's -
/// but whatever came back, the executor reports it unchanged, and so
/// never produces an internal error of its own.
pub fn execute<C: Command>(cmd: C, state: &mut C::State) -> (r: Result<(), Error<C::Error>>)
    ensures
        (match r {
            Ok(u) => true,
            Err(e) => e is User,
        }),
{
    wrap_outcome(cmd.action(state))
}

} // verus!
