use vstd::prelude::*;

use crate::backend::{is_listing, ordered_listing, Backend, BackendManager};
use crate::load_balancer::{is_healthy_member, lemma_listing_empty, none_healthy, LoadBalancer};

verus! {

/// Index `i` holds the fewest active connections of `l`, and every earlier
/// backend holds more: the first of the least loaded.
pub open spec fn is_first_least_loaded(l: Seq<Backend>, i: int) -> bool {
    &&& 0 <= i < l.len()
    &&& forall|j: int| 0 <= j < l.len() ==> l[i].active_connections <= #[trigger] l[j].active_connections
    &&& forall|j: int| 0 <= j < i ==> l[i].active_connections < #[trigger] l[j].active_connections
}

/// Sends each request to the backend with the fewest open connections.
#[derive(Debug)]
pub struct LeastConnections {}

impl LeastConnections {
    pub fn new() -> (r: Self) {
        LeastConnections {}
    }

    /// The first backend of the list with the fewest active connections;
    /// `None` for an empty list.
    pub fn pick(healthy: &Vec<Backend>) -> (r: Option<Backend>)
        ensures
            healthy@.len() == 0 ==> r is None,
            healthy@.len() > 0 ==> exists|i: int|
                is_first_least_loaded(healthy@, i) && r == Some(#[trigger] healthy@[i]),
    {
        let n = healthy.len();
        if n == 0 {
            return None;
        }
        let mut best: usize = 0;
        let mut i: usize = 1;
        while i < n
            invariant
                n == healthy@.len(),
                1 <= i <= n,
                best < i,
                forall|j: int| 0 <= j < i ==> healthy@[best as int].active_connections <= #[trigger] healthy@[j].active_connections,
                forall|j: int| 0 <= j < best ==> healthy@[best as int].active_connections < #[trigger] healthy@[j].active_connections,
            decreases n - i,
        {
            if healthy[i].active_connections < healthy[best].active_connections {
                best = i;
            }
            i = i + 1;
        }
        proof {
            assert(is_first_least_loaded(healthy@, best as int));
        }
        Some(healthy[best].duplicate())
    }
}

impl LoadBalancer for LeastConnections {
    open spec fn can_pick(&self, manager: &BackendManager) -> bool {
        true
    }

    open spec fn policy_name(&self) -> Seq<char> {
        "least_connections"@
    }

    /// A healthy backend with no more active connections than any other
    /// healthy backend; of those, the first in name order.
    fn next_backend(&mut self, manager: &BackendManager) -> (r: Option<Backend>)
        ensures
            r matches Some(b) ==> forall|k: Seq<char>|
                #[trigger] manager.table().contains_key(k) && manager.table()[k].healthy
                    ==> b.active_connections <= manager.table()[k].active_connections,
            r matches Some(b) ==> exists|l: Seq<Backend>, i: int|
                #[trigger] is_listing(manager.table(), l, true) && #[trigger] is_first_least_loaded(l, i)
                    && b == l[i],
            r matches Some(b) ==> exists|i: int|
                #[trigger] is_first_least_loaded(ordered_listing(manager.table(), true), i) && b == ordered_listing(
                    manager.table(),
                    true,
                )[i],
    {
        let healthy = manager.get_healthy_backends();
        proof {
            lemma_listing_empty(manager.table(), healthy@);
        }
        let r = LeastConnections::pick(&healthy);
        proof {
            if healthy@.len() > 0 {
                let i = choose|i: int| is_first_least_loaded(healthy@, i) && r == Some(#[trigger] healthy@[i]);
                let t = manager.table();
                assert(t.contains_key(healthy@[i].name@));
                assert forall|k: Seq<char>| #[trigger] t.contains_key(k) && t[k].healthy implies healthy@[i].active_connections
                    <= t[k].active_connections by {
                    let j = choose|j: int| 0 <= j < healthy@.len() && #[trigger] healthy@[j].name@ == k;
                    assert(healthy@[j] == t[k]);
                }
            }
        }
        r
    }

    fn name(&self) -> (r: &'static str) {
        "least_connections"
    }
}

} // verus!
