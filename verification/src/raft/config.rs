//! The timing of a node.

use vstd::prelude::*;

verus! {

/// The timing of a node, in milliseconds.
#[derive(Debug, Clone)]
pub struct RaftConfig {
    pub election_timeout_min_ms: u64,
    pub election_timeout_max_ms: u64,
    pub heartbeat_interval_ms: u64,
    pub transport_timeout_ms: u64,
}

impl Default for RaftConfig {
    fn default() -> (r: Self)
        ensures
            r.election_timeout_min_ms == 150,
            r.election_timeout_max_ms == 300,
            r.heartbeat_interval_ms == 75,
            r.transport_timeout_ms == 350,
    {
        RaftConfig {
            election_timeout_min_ms: 150,
            election_timeout_max_ms: 300,
            heartbeat_interval_ms: 75,
            transport_timeout_ms: 350,
        }
    }
}

/// Calls `rand::random_range` on the half-open range from `low` up to `high`. The number lies in
/// that range; which one it is, is left to chance. The call panics on an empty range.
#[verifier::external_body]
fn random_range(low: u64, high: u64) -> (r: u64)
    requires
        low < high,
    ensures
        low <= r < high,
{
    rand::random_range(low..high)
}

impl RaftConfig {
    /// Whether there is an election timeout to choose from.
    pub open spec fn valid(self) -> bool {
        self.election_timeout_min_ms < self.election_timeout_max_ms
    }

    pub fn new(
        election_timeout_min_ms: u64,
        election_timeout_max_ms: u64,
        heartbeat_interval_ms: u64,
        transport_timeout_ms: u64,
    ) -> (r: Self)
        requires
            election_timeout_min_ms < election_timeout_max_ms,
        ensures
            r.election_timeout_min_ms == election_timeout_min_ms,
            r.election_timeout_max_ms == election_timeout_max_ms,
            r.heartbeat_interval_ms == heartbeat_interval_ms,
            r.transport_timeout_ms == transport_timeout_ms,
            r.valid(),
    {
        RaftConfig {
            election_timeout_min_ms,
            election_timeout_max_ms,
            heartbeat_interval_ms,
            transport_timeout_ms,
        }
    }

    /// How many milliseconds to wait for a leader before standing for election: a random number
    /// between the two bounds, the upper one excluded.
    pub fn random_election_timeout(&self) -> (r: u64)
        requires
            self.valid(),
        ensures
            self.election_timeout_min_ms <= r < self.election_timeout_max_ms,
    {
        random_range(self.election_timeout_min_ms, self.election_timeout_max_ms)
    }
}

} // verus!
