//! Adaptive fan-out: how many chunk fetches a peer may run in parallel,
//! given how many chunks it contributes to the swarm.

use vstd::prelude::*;

verus! {

/// The largest fan-out any peer may use.
pub const MAX_FANOUT: usize = 4;

/// Parallel connections allowed to a peer that holds `chunks` chunk files:
/// one more for every five chunks it contributes, capped at four.
pub open spec fn max_allowed(chunks: nat) -> nat {
    if chunks < 5 {
        1
    } else if chunks < 10 {
        2
    } else if chunks < 15 {
        3
    } else {
        4
    }
}

/// Maximum number of parallel fetches a peer holding `chunk_count` local
/// chunk files may run.
pub fn determine_max_connections(chunk_count: usize) -> (r: usize)
    ensures
        r == max_allowed(chunk_count as nat),
        1 <= r <= MAX_FANOUT,
{
    if chunk_count <= 4 {
        1
    } else if chunk_count <= 9 {
        2
    } else if chunk_count <= 14 {
        3
    } else {
        4
    }
}

/// Whether a user-chosen parallelism is acceptable for a peer whose cap is `allowed`.
pub fn accept_parallelism(requested: usize, allowed: usize) -> (r: bool)
    ensures
        r == (1 <= requested && requested <= allowed),
{
    1 <= requested && requested <= allowed
}

} // verus!
