//! Minimal marker types shared by handler declarations.

use vstd::prelude::*;

verus! {

/// A state type for consoles that carry no shared data between commands.
#[derive(Debug, Clone, Copy, PartialEq, Eq, Structural, Hash, Default)]
pub struct EmptyState;

/// The payload of a presence-only flag: the flag is either absent or set,
/// and carries no further value.
#[derive(Debug, Clone, Copy, PartialEq, Eq, Structural, Hash, Default)]
pub struct Trigger;

} // verus!
