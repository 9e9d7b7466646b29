//! What a health probe's result does to a backend.
use vstd::prelude::*;
use vstd::string::*;

use crate::backend::{Backend, BackendManager};
use crate::config::HealthCheckConfig;

verus! {

/// What a probe changed, for the log.
#[derive(Debug, PartialEq, Eq)]
pub enum ProbeOutcome {
    /// The backend was down and answered often enough in a row: it is
    /// healthy again.
    Recovered,
    /// The backend failed this many probes in a row and was marked down.
    MarkedUnhealthy(u32),
    /// Nothing worth reporting.
    Unchanged,
}

/// One more in a count that stops at the largest `u32`.
pub open spec fn count_up(n: u32) -> u32 {
    if n == u32::MAX { n } else { (n + 1) as u32 }
}

/// The backend after a probe, given the health it had when the round
/// started, whether the probe succeeded, the two thresholds, and the time
/// of the probe (milliseconds since the Unix epoch).
///
/// A success while up changes nothing. A success while down counts one more
/// success in a row; once that count reaches `healthy_threshold` the backend
/// is marked healthy, with both counts cleared. A failure counts one more
/// failure and clears the success count; once the failure count reaches
/// `unhealthy_threshold` a backend that was up is marked down (the failure
/// count is kept).
pub open spec fn after_probe(
    b: Backend,
    was_healthy: bool,
    ok: bool,
    healthy_threshold: u32,
    unhealthy_threshold: u32,
    now: i64,
) -> Backend {
    if ok {
        if was_healthy {
            b
        } else {
            let counted = Backend { consecutive_successes: count_up(b.consecutive_successes), ..b };
            if counted.consecutive_successes >= healthy_threshold {
                Backend {
                    healthy: true,
                    consecutive_failures: 0,
                    consecutive_successes: 0,
                    last_health_check: Some(now),
                    ..b
                }
            } else {
                counted
            }
        }
    } else {
        let failed = Backend {
            consecutive_failures: (b.consecutive_failures + 1) as u32,
            consecutive_successes: 0,
            ..b
        };
        if failed.consecutive_failures >= unhealthy_threshold && was_healthy {
            Backend { healthy: false, last_health_check: Some(now), ..failed }
        } else {
            failed
        }
    }
}

/// The outcome reported for a probe (`known`: whether the backend is in the
/// table).
pub open spec fn outcome_of(
    known: bool,
    b: Backend,
    was_healthy: bool,
    ok: bool,
    healthy_threshold: u32,
    unhealthy_threshold: u32,
) -> ProbeOutcome {
    if ok {
        let successes: u32 = if known { count_up(b.consecutive_successes) } else { 0 };
        if was_healthy || successes < healthy_threshold {
            ProbeOutcome::Unchanged
        } else {
            ProbeOutcome::Recovered
        }
    } else {
        let fails: u32 = if known { (b.consecutive_failures + 1) as u32 } else { 0 };
        if fails >= unhealthy_threshold && was_healthy {
            ProbeOutcome::MarkedUnhealthy(fails)
        } else {
            ProbeOutcome::Unchanged
        }
    }
}

/// Whether health checks run at all.
pub fn checks_enabled(config: &HealthCheckConfig) -> (r: bool)
    ensures
        r == config.enabled,
{
    config.enabled
}

/// The address a backend is probed at: its URL followed by `/health`.
pub fn probe_url(url: &str) -> (r: String)
    ensures
        r@ == url@ + "/health"@,
{
    let mut s = url.to_owned();
    s.append("/health");
    s
}

/// Whether a probe succeeded: an answer came, with a 2xx status.
pub fn probe_succeeded(status: Option<u16>) -> (r: bool)
    ensures
        r == (status matches Some(s) && 200 <= s <= 299),
{
    match status {
        Some(s) => 200 <= s && s <= 299,
        None => false,
    }
}

/// Applies one probe result, obtained at `now` (milliseconds since the Unix
/// epoch), to the named backend. `was_healthy` is the health the backend
/// had when the round of probes began.
pub fn record_probe(
    manager: &mut BackendManager,
    name: &str,
    was_healthy: bool,
    ok: bool,
    healthy_threshold: u32,
    unhealthy_threshold: u32,
    now: i64,
) -> (r: ProbeOutcome)
    requires
        old(manager).wf(),
        !ok && old(manager).has(name@) ==> old(manager).table()[name@].consecutive_failures < u32::MAX,
    ensures
        final(manager).wf(),
        old(manager).has(name@) ==> final(manager).table()[name@].healthy == old(manager).table()[name@].healthy
            || final(manager).table()[name@].healthy == ok,
        r == outcome_of(
            old(manager).has(name@),
            old(manager).table()[name@],
            was_healthy,
            ok,
            healthy_threshold,
            unhealthy_threshold,
        ),
        old(manager).has(name@) ==> final(manager).table() == old(manager).table().insert(
            name@,
            after_probe(
                old(manager).table()[name@],
                was_healthy,
                ok,
                healthy_threshold,
                unhealthy_threshold,
                now,
            ),
        ),
        !old(manager).has(name@) ==> final(manager).table() == old(manager).table(),
{
    let ghost t0 = manager.table();
    proof {
        if t0.contains_key(name@) {
            lemma_probe_follows_result(t0[name@], was_healthy, ok, healthy_threshold, unhealthy_threshold, now);
        }
    }
    if ok {
        if was_healthy {
            return ProbeOutcome::Unchanged;
        }
        let successes = manager.increment_consecutive_successes(name);
        if successes >= healthy_threshold {
            manager.reset_consecutive_failures(name);
            manager.set_healthy(name, true, now);
            manager.reset_consecutive_successes(name);
            proof {
                if t0.contains_key(name@) {
                    assert(manager.table() =~= t0.insert(
                        name@,
                        after_probe(t0[name@], was_healthy, ok, healthy_threshold, unhealthy_threshold, now),
                    ));
                }
            }
            return ProbeOutcome::Recovered;
        }
        proof {
            if t0.contains_key(name@) {
                assert(manager.table() =~= t0.insert(
                    name@,
                    after_probe(t0[name@], was_healthy, ok, healthy_threshold, unhealthy_threshold, now),
                ));
            }
        }
        ProbeOutcome::Unchanged
    } else {
        let fails = manager.increment_consecutive_failures(name);
        manager.reset_consecutive_successes(name);
        if fails >= unhealthy_threshold && was_healthy {
            manager.set_healthy(name, false, now);
            proof {
                if t0.contains_key(name@) {
                    assert(manager.table() =~= t0.insert(
                        name@,
                        after_probe(t0[name@], was_healthy, ok, healthy_threshold, unhealthy_threshold, now),
                    ));
                }
            }
            return ProbeOutcome::MarkedUnhealthy(fails);
        }
        proof {
            if t0.contains_key(name@) {
                assert(manager.table() =~= t0.insert(
                    name@,
                    after_probe(t0[name@], was_healthy, ok, healthy_threshold, unhealthy_threshold, now),
                ));
            }
        }
        ProbeOutcome::Unchanged
    }
}

/// The backend after a run of probes that all fail (or all succeed, by
/// `ok`), one per round, each round starting from the health the previous
/// round left, the `i`th probe made at `times[i]`.
pub open spec fn after_rounds(
    b: Backend,
    ok: bool,
    healthy_threshold: u32,
    unhealthy_threshold: u32,
    times: Seq<i64>,
) -> Backend
    decreases times.len(),
{
    if times.len() == 0 {
        b
    } else {
        let prev = after_rounds(b, ok, healthy_threshold, unhealthy_threshold, times.drop_last());
        after_probe(prev, prev.healthy, ok, healthy_threshold, unhealthy_threshold, times.last())
    }
}

/// Law of the health checks: a healthy backend with no failures counted
/// stays healthy through fewer than `unhealthy_threshold` failed probes in a
/// row, with each of them counted, and is marked unhealthy by the failed
/// probe that brings the count to the threshold (the first one, for a
/// threshold of zero).
pub proof fn lemma_failures_mark_unhealthy(
    b: Backend,
    healthy_threshold: u32,
    unhealthy_threshold: u32,
    times: Seq<i64>,
)
    requires
        b.healthy,
        b.consecutive_failures == 0,
        times.len() < u32::MAX,
    ensures
        ({
            let after = after_rounds(b, false, healthy_threshold, unhealthy_threshold, times);
            &&& after.consecutive_failures == times.len()
            &&& (times.len() < unhealthy_threshold || times.len() == 0) ==> after.healthy
            &&& (times.len() >= unhealthy_threshold && times.len() > 0) ==> !after.healthy
        }),
    decreases times.len(),
{
    if times.len() > 0 {
        lemma_failures_mark_unhealthy(b, healthy_threshold, unhealthy_threshold, times.drop_last());
    }
}

/// Law of the health checks: a backend that is down, with no successes
/// counted, stays down through fewer than `healthy_threshold` successful
/// probes in a row, with each of them counted, and is marked healthy, with
/// no failures counted, by the successful probe that brings the count to the
/// threshold (the first one, for a threshold of zero or one).
pub proof fn lemma_successes_recover(
    b: Backend,
    healthy_threshold: u32,
    unhealthy_threshold: u32,
    times: Seq<i64>,
)
    requires
        !b.healthy,
        b.consecutive_successes == 0,
        times.len() < u32::MAX,
    ensures
        ({
            let after = after_rounds(b, true, healthy_threshold, unhealthy_threshold, times);
            &&& (times.len() < healthy_threshold || times.len() == 0) ==> !after.healthy
                && after.consecutive_successes == times.len()
            &&& (times.len() >= healthy_threshold && times.len() > 0) ==> after.healthy
                && after.consecutive_failures == 0
        }),
    decreases times.len(),
{
    if times.len() > 0 {
        lemma_successes_recover(b, healthy_threshold, unhealthy_threshold, times.drop_last());
        let prev = after_rounds(b, true, healthy_threshold, unhealthy_threshold, times.drop_last());
        if times.len() - 1 >= healthy_threshold && times.len() - 1 > 0 {
            assert(prev.healthy);
        }
    }
}

/// Law of the health checks: after a probe a backend's health is what it
/// was or what the probe found; a failed probe never marks a backend healthy
/// and a successful one never marks it unhealthy.
pub proof fn lemma_probe_follows_result(
    b: Backend,
    was_healthy: bool,
    ok: bool,
    healthy_threshold: u32,
    unhealthy_threshold: u32,
    now: i64,
)
    ensures
        ({
            let after = after_probe(b, was_healthy, ok, healthy_threshold, unhealthy_threshold, now);
            after.healthy == b.healthy || after.healthy == ok
        }),
{
}

} // verus!
