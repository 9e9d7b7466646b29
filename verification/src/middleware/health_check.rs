//! The report served by the stats endpoint.
use vstd::prelude::*;

use crate::backend::{is_listing, ordered_listing, stats_of, Backend, BackendManager, BackendStats};
use crate::load_balancer::{Balancer, LoadBalancer};

verus! {

/// What the stats endpoint reports: the balancing policy, every backend,
/// how many there are, and how many of them are healthy.
#[derive(Debug)]
pub struct StatsReport {
    pub load_balancer: String,
    pub backends: Vec<BackendStats>,
    pub total_backends: usize,
    pub healthy_backends: usize,
}

/// How many of the reports are of healthy backends.
pub open spec fn healthy_count(s: Seq<BackendStats>) -> nat
    decreases s.len(),
{
    if s.len() == 0 {
        0
    } else {
        healthy_count(s.drop_last()) + if s.last().healthy { 1nat } else { 0nat }
    }
}

/// Law of the report's count: the healthy backends counted are the reports
/// that say healthy, however many of them there are and whatever else they
/// say.
pub proof fn lemma_healthy_count(s: Seq<BackendStats>)
    ensures
        healthy_count(s) == s.filter(|x: BackendStats| x.healthy).len(),
        healthy_count(s) <= s.len(),
        (forall|i: int| 0 <= i < s.len() ==> (#[trigger] s[i]).healthy) ==> healthy_count(s) == s.len(),
        (forall|i: int| 0 <= i < s.len() ==> !(#[trigger] s[i]).healthy) ==> healthy_count(s) == 0,
    decreases s.len(),
{
    reveal_with_fuel(Seq::filter, 1);
    if s.len() > 0 {
        let d = s.drop_last();
        lemma_healthy_count(d);
        assert forall|i: int| 0 <= i < d.len() implies #[trigger] d[i] == s[i] by {}
    }
}

/// The stats report of the manager's backends under the given policy.
pub fn stats_report(manager: &BackendManager, balancer: &Balancer) -> (r: StatsReport)
    requires
        manager.wf(),
    ensures
        r.load_balancer@ == balancer.policy_name(),
        exists|l: Seq<Backend>|
            #[trigger] is_listing(manager.table(), l, false) && r.backends@.len() == l.len() && forall|i: int|
                0 <= i < l.len() ==> #[trigger] r.backends@[i] == stats_of(l[i]),
        r.backends@.len() == ordered_listing(manager.table(), false).len(),
        forall|i: int|
            0 <= i < r.backends@.len() ==> #[trigger] r.backends@[i] == stats_of(ordered_listing(manager.table(), false)[i]),
        r.total_backends == r.backends@.len(),
        r.healthy_backends == healthy_count(r.backends@),
        r.healthy_backends == r.backends@.filter(|x: BackendStats| x.healthy).len(),
{
    let stats = manager.stats();
    let name = balancer.name().to_owned();
    let n = stats.len();
    let mut healthy: usize = 0;
    let mut i: usize = 0;
    proof {
        assert(stats@.take(0) =~= Seq::<BackendStats>::empty());
    }
    while i < n
        invariant
            n == stats@.len(),
            i <= n,
            healthy == healthy_count(stats@.take(i as int)),
            healthy <= i,
        decreases n - i,
    {
        proof {
            assert(stats@.take(i + 1).drop_last() =~= stats@.take(i as int));
        }
        if stats[i].healthy {
            healthy = healthy + 1;
        }
        i = i + 1;
    }
    proof {
        assert(stats@.take(n as int) =~= stats@);
        lemma_healthy_count(stats@);
    }
    StatsReport { load_balancer: name, backends: stats, total_backends: n, healthy_backends: healthy }
}

} // verus!
