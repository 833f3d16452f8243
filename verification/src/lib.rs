use vstd::prelude::*;

pub mod backpressure;
pub mod connection;
pub mod discovery;
pub mod flow;
pub mod frame;
pub mod keep_alive;
pub mod link_graph;
pub mod named_table;
pub mod reconciliation;
pub mod registry;
pub mod routing;
pub mod server;
pub mod shortest_paths;
pub mod text;
pub mod topic;

verus! {

/// Adds two unsigned integers.
pub fn add(left: u64, right: u64) -> (sum: u64)
    requires
        left + right <= u64::MAX,
    ensures
        sum == left + right,
{
    left + right
}

} // verus!
