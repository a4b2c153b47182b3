//! An older dispatch interface kept for applications that route by hand:
//! a branch receives the first argument and the remaining arguments as an
//! explicit list.

use vstd::prelude::*;

verus! {

/// A hand-written dispatch target: acts on the first argument and the
/// list of those that follow it.
pub trait Branch {
    /// The shared state the branch mutates.
    type State;

    /// Runs the branch on the split arguments.
    fn run(state: &mut Self::State, arg: &str, args: Vec<String>) -> Result<(), String>;
}

} // verus!
