//! Kinds of simulated entities.

use vstd::prelude::*;

verus! {

/// The kind of a simulated entity.
#[derive(Debug, Clone, Copy, PartialEq, Eq, Structural)]
pub enum EntityType {
    Player,
}

} // verus!
