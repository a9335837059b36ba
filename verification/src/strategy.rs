use vstd::prelude::*;
use crate::text::same_text;

verus! {

/// The way a load balancer picks the backend server for a request.
#[derive(Clone, Copy, Debug, PartialEq, Eq, Structural)]
pub enum Strategy {
    /// Hand out the servers in turn, one after the other.
    RoundRobin,
    /// Each client walks through the servers in turn on its own.
    StickyRoundRobin,
    /// Hand out each server as often as its weight says, in turn.
    WeightedRoundRobin,
    /// Pick the server with the fewest open connections.
    LeastConnections,
    /// Pick the server with the shortest measured response time.
    LeastTime,
    /// A name that none of the above carries: the first server is used.
    Unsupported,
}

/// The strategy that a strategy name stands for.
pub open spec fn strategy_of(name: Seq<char>) -> Strategy {
    if name == "round_robin"@ {
        Strategy::RoundRobin
    } else if name == "sticky_round_robin"@ {
        Strategy::StickyRoundRobin
    } else if name == "weighted_round_robin"@ {
        Strategy::WeightedRoundRobin
    } else if name == "least_connections"@ {
        Strategy::LeastConnections
    } else if name == "least_time"@ {
        Strategy::LeastTime
    } else {
        Strategy::Unsupported
    }
}

impl Strategy {
    /// Reads a strategy from its name, as given on the command line.
    pub fn from_name(name: &String) -> (s: Strategy)
        ensures
            s == strategy_of(name@),
    {
        if same_text(name, "round_robin") {
            Strategy::RoundRobin
        } else if same_text(name, "sticky_round_robin") {
            Strategy::StickyRoundRobin
        } else if same_text(name, "weighted_round_robin") {
            Strategy::WeightedRoundRobin
        } else if same_text(name, "least_connections") {
            Strategy::LeastConnections
        } else if same_text(name, "least_time") {
            Strategy::LeastTime
        } else {
            Strategy::Unsupported
        }
    }
}

} // verus!
