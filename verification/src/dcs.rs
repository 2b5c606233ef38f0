//! Integer thresholds for rigidity and swarm-uniformity decisions.
use vstd::prelude::*;

verus! {

/// Laman's rigidity threshold: a network is rigid at 12 neighbour edges per agent.
pub const LAMAN_NEIGHBOR_THRESHOLD: usize = 12;

/// Above this number of agents uniform rules replace individual variation.
pub const SWARM_UNIFORMITY_THRESHOLD: usize = 500;

/// Whether a network of `agents` agents, each with `avg_neighbors` neighbours
/// on average, is rigidly connected. Networks of fewer than two agents are
/// always rigid.
pub fn is_rigidly_connected(agents: usize, avg_neighbors: usize) -> (r: bool)
    ensures
        r == (agents < 2 || avg_neighbors >= LAMAN_NEIGHBOR_THRESHOLD),
{
    if agents < 2 {
        return true;
    }
    avg_neighbors >= LAMAN_NEIGHBOR_THRESHOLD
}

/// Whether uniform swarm rules should be used for `agent_count` agents.
pub fn should_use_uniform_rules(agent_count: usize) -> (r: bool)
    ensures
        r == (agent_count >= SWARM_UNIFORMITY_THRESHOLD),
{
    agent_count >= SWARM_UNIFORMITY_THRESHOLD
}

} // verus!
