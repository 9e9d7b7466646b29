//! Balancing policies: which healthy backend takes the next request.
pub mod least_connections;
pub mod round_robin;
pub mod weighted;

use vstd::prelude::*;

use crate::backend::{is_listing, ordered_listing, Backend, BackendManager};
use crate::config::LoadBalancerConfig;
use crate::text::same_text;

use self::least_connections::{is_first_least_loaded, LeastConnections};
use self::round_robin::{round_robin_choice, round_robin_step, RoundRobin};
use self::weighted::{healthy_weight_fits, weight_sum, weighted_choice, WeightedRoundRobin};

verus! {

/// No backend in the table is healthy.
pub open spec fn none_healthy(t: Map<Seq<char>, Backend>) -> bool {
    forall|k: Seq<char>| #[trigger] t.contains_key(k) ==> !t[k].healthy
}

/// `b` is a healthy backend of the table, as the table holds it.
pub open spec fn is_healthy_member(t: Map<Seq<char>, Backend>, b: Backend) -> bool {
    &&& t.contains_key(b.name@)
    &&& t[b.name@] == b
    &&& b.healthy
}

/// A listing of the healthy backends is empty exactly when none is healthy.
pub proof fn lemma_listing_empty(t: Map<Seq<char>, Backend>, l: Seq<Backend>)
    requires
        is_listing(t, l, true),
    ensures
        l.len() == 0 <==> none_healthy(t),
{
    if l.len() > 0 {
        assert(t.contains_key(l[0].name@));
    } else {
        assert forall|k: Seq<char>| #[trigger] t.contains_key(k) implies !t[k].healthy by {
            if t[k].healthy {
                let i = choose|i: int| 0 <= i < l.len() && #[trigger] l[i].name@ == k;
            }
        }
    }
}

/// A policy that picks the backend for the next request.
pub trait LoadBalancer {
    /// Whether the policy can pick from this manager's table (the weighted
    /// policy needs the healthy weights to sum to at most `u32::MAX`).
    spec fn can_pick(&self, manager: &BackendManager) -> bool;

    /// The policy's name.
    spec fn policy_name(&self) -> Seq<char>;

    /// The next backend: `None` exactly when no backend is healthy, and
    /// otherwise a healthy backend of the table.
    fn next_backend(&mut self, manager: &BackendManager) -> (r: Option<Backend>)
        requires
            manager.wf(),
            old(self).can_pick(manager),
        ensures
            r is None <==> none_healthy(manager.table()),
            r matches Some(b) ==> is_healthy_member(manager.table(), b),
    ;

    /// The policy's name, as the stats endpoint reports it.
    fn name(&self) -> (r: &'static str)
        ensures
            r@ == self.policy_name(),
    ;
}

/// The policy that a configuration names.
#[derive(Debug)]
pub enum Balancer {
    RoundRobin(RoundRobin),
    LeastConnections(LeastConnections),
    Weighted(WeightedRoundRobin),
}

impl LoadBalancer for Balancer {
    open spec fn can_pick(&self, manager: &BackendManager) -> bool {
        match self {
            Balancer::Weighted(_) => healthy_weight_fits(manager),
            _ => true,
        }
    }

    open spec fn policy_name(&self) -> Seq<char> {
        match self {
            Balancer::RoundRobin(b) => b.policy_name(),
            Balancer::LeastConnections(b) => b.policy_name(),
            Balancer::Weighted(b) => b.policy_name(),
        }
    }

    /// Besides what every policy promises, `policy_pick` holds: the policy
    /// stays the same, round robin picks at its position in some listing and
    /// moves on by one when something was healthy, least connections picks a
    /// backend with the fewest open connections, and the weighted policy
    /// picks what a draw below the total weight selects.
    fn next_backend(&mut self, manager: &BackendManager) -> (r: Option<Backend>)
        ensures
            policy_pick(*old(self), *final(self), manager.table(), r),
    {
        match self {
            Balancer::RoundRobin(b) => b.next_backend(manager),
            Balancer::LeastConnections(b) => b.next_backend(manager),
            Balancer::Weighted(b) => b.next_backend(manager),
        }
    }

    fn name(&self) -> (r: &'static str) {
        match self {
            Balancer::RoundRobin(b) => b.name(),
            Balancer::LeastConnections(b) => b.name(),
            Balancer::Weighted(b) => b.name(),
        }
    }
}

impl Balancer {
    /// Whether the policy can pick from this manager's table.
    pub fn ready(&self, manager: &BackendManager) -> (r: bool)
        requires
            manager.wf(),
        ensures
            r == self.can_pick(manager),
    {
        match self {
            Balancer::Weighted(_) => WeightedRoundRobin::weights_fit(manager),
            _ => true,
        }
    }
}

/// What a pick by balancer `b0` from table `t` gives: the result `r` and
/// the balancer's next state `b1`. The policy stays the same; the result is
/// `None` exactly when nothing is healthy, and otherwise a healthy backend of
/// the table, and
/// - round robin: the backend at the old position of the listing of the
///   healthy backends in name order (`round_robin_step`), the position
///   moving on by one (wrapping at the top of `usize`), or kept when nothing
///   is healthy;
/// - least connections: a backend with the fewest open connections, the
///   first such in name order;
/// - weighted: with a total healthy weight of zero the first backend in
///   name order, otherwise what some draw below the total weight selects
///   from the healthy backends in name order.
pub open spec fn policy_pick(b0: Balancer, b1: Balancer, t: Map<Seq<char>, Backend>, r: Option<Backend>) -> bool {
    &&& policy_kind(b1) == policy_kind(b0)
    &&& (r is None <==> none_healthy(t))
    &&& (r matches Some(b) ==> is_healthy_member(t, b))
    &&& (b0 matches Balancer::RoundRobin(rr0) ==> b1 matches Balancer::RoundRobin(rr1)
        && (none_healthy(t) ==> rr1.position() == rr0.position())
        && (!none_healthy(t) ==> {
        &&& rr1.position() == rr0.position().wrapping_add(1)
        &&& exists|l: Seq<Backend>|
            #[trigger] is_listing(t, l, true) && l.len() > 0 && r == Some(
                round_robin_choice(l, rr0.position() as int),
            )
    }))
    &&& (b0 matches Balancer::RoundRobin(rr0) ==> b1 matches Balancer::RoundRobin(rr1) && round_robin_step(
        rr0.position(),
        rr1.position(),
        t,
        r,
    ))
    &&& (policy_kind(b0) == 1 ==> (r matches Some(b) ==> exists|i: int|
        #[trigger] is_first_least_loaded(ordered_listing(t, true), i) && b == ordered_listing(t, true)[i]))
    &&& (policy_kind(b0) == 2 ==> (r is Some ==> ({
        let l = ordered_listing(t, true);
        if weight_sum(l) == 0 {
            r == Some(l[0])
        } else {
            exists|d: int| 0 <= d < weight_sum(l) && r == #[trigger] weighted_choice(l, d)
        }
    })))
    &&& (policy_kind(b0) == 1 ==> (r matches Some(b) ==> {
        &&& forall|k: Seq<char>|
            #[trigger] t.contains_key(k) && t[k].healthy ==> b.active_connections <= t[k].active_connections
        &&& exists|l: Seq<Backend>, i: int|
            #[trigger] is_listing(t, l, true) && #[trigger] is_first_least_loaded(l, i) && b == l[i]
    }))
    &&& (policy_kind(b0) == 2 ==> (r is Some ==> exists|l: Seq<Backend>|
        #[trigger] is_listing(t, l, true) && l.len() > 0 && (if weight_sum(l) == 0 {
            r == Some(l[0])
        } else {
            exists|d: int| 0 <= d < weight_sum(l) && r == #[trigger] weighted_choice(l, d)
        })))
}

/// Which policy an algorithm name selects: 1 for `least_connections`, 2 for
/// `weighted`, 0 (round robin) for anything else.
pub open spec fn policy_for(algorithm: Seq<char>) -> int {
    if algorithm == "least_connections"@ {
        1
    } else if algorithm == "weighted"@ {
        2
    } else {
        0
    }
}

/// Which policy a balancer is, numbered as in `policy_for`.
pub open spec fn policy_kind(b: Balancer) -> int {
    match b {
        Balancer::RoundRobin(_) => 0,
        Balancer::LeastConnections(_) => 1,
        Balancer::Weighted(_) => 2,
    }
}

/// The policy the configuration names, in its starting state.
pub fn from_config(config: &LoadBalancerConfig) -> (r: Balancer)
    ensures
        policy_kind(r) == policy_for(config.algorithm@),
        r matches Balancer::RoundRobin(rr) ==> rr.position() == 0,
{
    if same_text(config.algorithm.as_str(), "least_connections") {
        Balancer::LeastConnections(LeastConnections::new())
    } else if same_text(config.algorithm.as_str(), "weighted") {
        Balancer::Weighted(WeightedRoundRobin::new())
    } else {
        Balancer::RoundRobin(RoundRobin::new())
    }
}

} // verus!
