use vstd::prelude::*;

pub mod errors;
pub mod registry;
pub mod store;
pub mod coordinator;
pub mod laws;
pub mod snapshot;
pub mod provision;
pub mod command;

verus! {

/// Maximum accepted payload size in bytes, matching the ingress cap.
pub const MAX_PAYLOAD: usize = 16384;

pub fn max_payload() -> (r: usize)
    ensures
        r == MAX_PAYLOAD,
{
    MAX_PAYLOAD
}

} // verus!
