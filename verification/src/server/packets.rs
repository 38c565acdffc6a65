//! Inputs as the entity server queues them.

use vstd::prelude::*;

verus! {

/// An input from a client, carrying its direction `input_vector` as sent.
#[derive(Debug)]
pub struct InputState<V> {
    pub client_id: u32,
    pub sequence: u32,
    pub timestamp: u64,
    pub input_vector: V,
}

} // verus!
