//! Per-client token buckets.
//!
//! A bucket that allows `max_tokens` requests per window of `window_secs`
//! seconds is kept in exact arithmetic: one token is `window_secs * 10^9`
//! units, and every nanosecond adds `max_tokens` units, up to a capacity of
//! `max_tokens` tokens (or as many units as a `u128` holds, where that is
//! fewer). Times are nanoseconds on a monotonic clock, read by the caller.
use vstd::prelude::*;

use dashmap::DashMap;

use crate::config::RateLimitConfig;
use crate::external::{bucket_table, bucket_table_insert, bucket_table_new, bucket_table_take};
use crate::text::{before_first, decimal, decimal_string, prefix_before, trim, trimmed};

verus! {

/// Nanoseconds per second.
pub open spec fn nanos_per_sec() -> int {
    1_000_000_000
}

/// The capacity of a bucket: `rate` tokens of `cost` units, or the largest
/// `u128` where that is less.
pub open spec fn capped_capacity(rate: int, cost: int) -> int {
    if rate * cost > u128::MAX { u128::MAX as int } else { rate * cost }
}

/// The nanoseconds from `last` to `now`, or zero when `now` is earlier.
pub open spec fn elapsed_between(last: int, now: int) -> int {
    if now >= last { now - last } else { 0 }
}

/// The fill level after `elapsed` nanoseconds at `rate` units per
/// nanosecond, capped at `capacity`.
pub open spec fn refilled(level: int, capacity: int, rate: int, elapsed: int) -> int {
    if level + elapsed * rate > capacity {
        capacity
    } else {
        level + elapsed * rate
    }
}

/// Whether a request is let through, and the level after it, for a bucket
/// at `level` (of `capacity`, filling at `rate`, a token being `cost` units)
/// asked `elapsed` nanoseconds after its last refill. A bucket with a
/// window of zero refills at once and lets a request through whenever it
/// allows any.
pub open spec fn consume(level: int, capacity: int, rate: int, cost: int, elapsed: int) -> (bool, int) {
    if cost == 0 {
        (rate >= 1, level)
    } else {
        let l = refilled(level, capacity, rate, elapsed);
        if l >= cost {
            (true, l - cost)
        } else {
            (false, l)
        }
    }
}

/// `n` requests made at one instant against a bucket at `level`: how many
/// are let through, and the level left.
pub open spec fn burst(level: int, capacity: int, rate: int, cost: int, n: nat) -> (nat, int)
    decreases n,
{
    if n == 0 {
        (0, level)
    } else {
        let prev = burst(level, capacity, rate, cost, (n - 1) as nat);
        let step = consume(prev.1, capacity, rate, cost, 0);
        (if step.0 { prev.0 + 1 } else { prev.0 }, step.1)
    }
}

/// Law of the token bucket: of `n` requests made at one instant against a
/// full bucket of `rate` tokens, the first `rate` are let through and the
/// rest refused.
pub proof fn lemma_burst_from_full(rate: int, cost: int, n: nat)
    requires
        rate >= 0,
        cost > 0,
    ensures
        burst(rate * cost, rate * cost, rate, cost, n).0 == (if n < rate { n as int } else { rate }),
        burst(rate * cost, rate * cost, rate, cost, n).1 == rate * cost - (if n < rate { n as int } else { rate }) * cost,
    decreases n,
{
    if n > 0 {
        lemma_burst_from_full(rate, cost, (n - 1) as nat);
        let m: int = if n - 1 < rate { n - 1 } else { rate };
        let level = rate * cost - m * cost;
        assert(level == (rate - m) * cost) by (nonlinear_arith)
            requires
                level == rate * cost - m * cost,
        ;
        assert(0 <= level <= rate * cost) by (nonlinear_arith)
            requires
                level == (rate - m) * cost,
                0 <= m <= rate,
                cost > 0,
        ;
        assert(refilled(level, rate * cost, rate, 0) == level);
        if n - 1 < rate {
            assert(level >= cost) by (nonlinear_arith)
                requires
                    level == (rate - m) * cost,
                    m < rate,
                    cost > 0,
            ;
            assert(level - cost == rate * cost - n * cost) by (nonlinear_arith)
                requires
                    level == rate * cost - m * cost,
                    m == n - 1,
            ;
        } else {
            assert(level == 0) by (nonlinear_arith)
                requires
                    level == (rate - m) * cost,
                    m == rate,
            ;
        }
    }
}

/// Law of the token bucket: whatever its level, a bucket left alone for a
/// whole window is full again.
pub proof fn lemma_full_after_window(level: int, rate: int, cost: int, elapsed: int)
    requires
        rate >= 0,
        cost >= 0,
        0 <= level <= rate * cost,
        elapsed >= cost,
    ensures
        refilled(level, rate * cost, rate, elapsed) == rate * cost,
{
    assert(level + elapsed * rate >= rate * cost) by (nonlinear_arith)
        requires
            level >= 0,
            elapsed >= cost,
            rate >= 0,
    ;
}

/// `es.len()` requests against a bucket at `level`, the `i`th made `es[i]`
/// nanoseconds after the one before (the first after the last refill): how
/// many are let through, and the level left.
pub open spec fn run(level: int, capacity: int, rate: int, cost: int, es: Seq<int>) -> (nat, int)
    decreases es.len(),
{
    if es.len() == 0 {
        (0, level)
    } else {
        let prev = run(level, capacity, rate, cost, es.drop_last());
        let step = consume(prev.1, capacity, rate, cost, es.last());
        (if step.0 { prev.0 + 1 } else { prev.0 }, step.1)
    }
}

/// The sum of a sequence of times.
pub open spec fn total_time(es: Seq<int>) -> int
    decreases es.len(),
{
    if es.len() == 0 {
        0
    } else {
        total_time(es.drop_last()) + es.last()
    }
}

/// Law of the token bucket over time: of the requests made over a span of
/// `T` nanoseconds against a bucket at `level`, no more are let through than
/// the level and what `T` adds hold tokens: `count * cost <= level + T *
/// rate` (with a full bucket of `N` tokens and a window of `w` seconds, at
/// most `N + T * N / (w * 10^9)`).
pub proof fn lemma_run_bound(level: int, capacity: int, rate: int, cost: int, es: Seq<int>)
    requires
        0 <= level <= capacity,
        rate >= 0,
        cost > 0,
        forall|i: int| 0 <= i < es.len() ==> #[trigger] es[i] >= 0,
    ensures
        run(level, capacity, rate, cost, es).0 * cost + run(level, capacity, rate, cost, es).1 <= level
            + total_time(es) * rate,
        0 <= run(level, capacity, rate, cost, es).1 <= capacity,
    decreases es.len(),
{
    if es.len() > 0 {
        assert forall|i: int| 0 <= i < es.drop_last().len() implies #[trigger] es.drop_last()[i] >= 0 by {
            assert(es.drop_last()[i] == es[i]);
        }
        lemma_run_bound(level, capacity, rate, cost, es.drop_last());
        let prev = run(level, capacity, rate, cost, es.drop_last());
        let e = es.last();
        assert(e >= 0);
        assert(e * rate >= 0) by (nonlinear_arith)
            requires
                e >= 0,
                rate >= 0,
        ;
        assert(total_time(es) * rate == total_time(es.drop_last()) * rate + e * rate) by (nonlinear_arith)
            requires
                total_time(es) == total_time(es.drop_last()) + e,
        ;
        let c = prev.0;
        assert((c + 1) * cost == c * cost + cost) by (nonlinear_arith);
    }
}

/// Law of the token bucket over time: a full bucket of `rate` tokens lets
/// the first `rate` requests through, whenever they come.
pub proof fn lemma_run_from_full(rate: int, cost: int, es: Seq<int>)
    requires
        rate >= 0,
        cost > 0,
        rate * cost <= u128::MAX,
        es.len() <= rate,
        forall|i: int| 0 <= i < es.len() ==> #[trigger] es[i] >= 0,
    ensures
        run(rate * cost, rate * cost, rate, cost, es).0 == es.len(),
        run(rate * cost, rate * cost, rate, cost, es).1 >= (rate - es.len()) * cost,
        run(rate * cost, rate * cost, rate, cost, es).1 <= rate * cost,
    decreases es.len(),
{
    if es.len() > 0 {
        assert forall|i: int| 0 <= i < es.drop_last().len() implies #[trigger] es.drop_last()[i] >= 0 by {
            assert(es.drop_last()[i] == es[i]);
        }
        lemma_run_from_full(rate, cost, es.drop_last());
        let k = es.len() - 1;
        let prev = run(rate * cost, rate * cost, rate, cost, es.drop_last());
        let e = es.last();
        assert(e >= 0);
        assert(e * rate >= 0) by (nonlinear_arith)
            requires
                e >= 0,
                rate >= 0,
        ;
        assert((rate - k) * cost >= cost) by (nonlinear_arith)
            requires
                k < rate,
                cost > 0,
        ;
        assert((rate - k) * cost - cost == (rate - (k + 1)) * cost) by (nonlinear_arith);
    }
}

/// Successive requests from one client, made at `times` (nanoseconds on
/// the monotonic clock), the first one finding no bucket: how many are let
/// through, and the level left. Each step is what `RateLimiterLayer::check`
/// does: the first request gets a full bucket stamped with its own time
/// (zero elapsed), every later one is refilled for the time since the one
/// before.
pub open spec fn client_history(capacity: int, rate: int, cost: int, times: Seq<int>) -> (nat, int)
    decreases times.len(),
{
    if times.len() == 0 {
        (0, capacity)
    } else {
        let prev = client_history(capacity, rate, cost, times.drop_last());
        let e = if times.len() == 1 {
            0
        } else {
            elapsed_between(times[times.len() - 2], times.last())
        };
        let step = consume(prev.1, capacity, rate, cost, e);
        (if step.0 { prev.0 + 1 } else { prev.0 }, step.1)
    }
}

/// The times do not go backwards.
pub open spec fn nondecreasing(times: Seq<int>) -> bool {
    forall|i: int, j: int| 0 <= i <= j < times.len() ==> times[i] <= times[j]
}

/// Law of the rate limiter over a client's successive requests: from the
/// client's first request to its last, `T` nanoseconds apart, no more are
/// let through than the full bucket and what `T` adds hold tokens:
/// `count * cost <= capacity + T * rate` (for `N` requests per window of `w`
/// seconds, at most `N + T * N / (w * 10^9)`). Requests of other clients
/// never enter this count: `check` leaves their buckets alone.
pub proof fn lemma_client_history_bound(capacity: int, rate: int, cost: int, times: Seq<int>)
    requires
        capacity >= 0,
        rate >= 0,
        cost > 0,
        times.len() >= 1,
        nondecreasing(times),
    ensures
        client_history(capacity, rate, cost, times).0 * cost + client_history(capacity, rate, cost, times).1
            <= capacity + (times.last() - times[0]) * rate,
        0 <= client_history(capacity, rate, cost, times).1 <= capacity,
    decreases times.len(),
{
    let h = client_history(capacity, rate, cost, times);
    if times.len() == 1 {
        let d = times.drop_last();
        assert(d.len() == 0);
        assert(client_history(capacity, rate, cost, d) == (0nat, capacity));
        assert(0 * rate == 0);
        assert(refilled(capacity, capacity, rate, 0) == capacity);
        let step = consume(capacity, capacity, rate, cost, 0);
        assert(h == (if step.0 { 1nat } else { 0nat }, step.1));
        assert((times.last() - times[0]) * rate == 0);
        assert(1 * cost == cost);
        assert(0 * cost == 0);
    } else {
        let d = times.drop_last();
        assert(nondecreasing(d)) by {
            assert forall|i: int, j: int| 0 <= i <= j < d.len() implies d[i] <= d[j] by {
                assert(d[i] == times[i] && d[j] == times[j]);
            }
        }
        lemma_client_history_bound(capacity, rate, cost, d);
        let prev = client_history(capacity, rate, cost, d);
        let a = times[times.len() - 2];
        let b = times.last();
        assert(a <= b);
        assert(d.last() == a);
        assert(d[0] == times[0]);
        let e = b - a;
        assert(elapsed_between(a, b) == e);
        assert(e * rate >= 0) by (nonlinear_arith)
            requires
                e >= 0,
                rate >= 0,
        ;
        assert((a - times[0]) * rate + e * rate == (b - times[0]) * rate) by (nonlinear_arith)
            requires
                e == b - a,
        ;
        let c = prev.0;
        assert((c + 1) * cost == c * cost + cost) by (nonlinear_arith);
    }
}

/// Law of the rate limiter over a client's successive requests: a client's
/// first `N` requests (`N` being the requests per window) are let through
/// whenever they come, when the bucket's capacity is `N` whole tokens.
pub proof fn lemma_client_history_first(rate: int, cost: int, times: Seq<int>)
    requires
        rate >= 0,
        cost > 0,
        times.len() <= rate,
        nondecreasing(times),
    ensures
        client_history(rate * cost, rate, cost, times).0 == times.len(),
        (rate - times.len()) * cost <= client_history(rate * cost, rate, cost, times).1 <= rate * cost,
    decreases times.len(),
{
    if times.len() > 0 {
        let d = times.drop_last();
        assert(nondecreasing(d)) by {
            assert forall|i: int, j: int| 0 <= i <= j < d.len() implies d[i] <= d[j] by {
                assert(d[i] == times[i] && d[j] == times[j]);
            }
        }
        lemma_client_history_first(rate, cost, d);
        let k = d.len() as int;
        let prev = client_history(rate * cost, rate, cost, d);
        let e = if times.len() == 1 {
            0
        } else {
            elapsed_between(times[times.len() - 2], times.last())
        };
        assert(e >= 0);
        assert(e * rate >= 0) by (nonlinear_arith)
            requires
                e >= 0,
                rate >= 0,
        ;
        assert((rate - k) * cost >= cost) by (nonlinear_arith)
            requires
                k < rate,
                cost > 0,
        ;
        assert((rate - k) * cost - cost == (rate - (k + 1)) * cost) by (nonlinear_arith);
        assert(rate * cost >= 0) by (nonlinear_arith)
            requires
                rate >= 0,
                cost > 0,
        ;
    }
}

/// A token bucket.
pub struct TokenBucket {
    level: u128,
    capacity: u128,
    rate: u128,
    cost: u128,
    last_refill: u128,
}

impl TokenBucket {
    /// The fill level, in units.
    pub closed spec fn level(&self) -> int {
        self.level as int
    }

    /// The most units the bucket holds.
    pub closed spec fn capacity(&self) -> int {
        self.capacity as int
    }

    /// Units added per nanosecond: the number of requests per window.
    pub closed spec fn rate(&self) -> int {
        self.rate as int
    }

    /// Units per token: the window in nanoseconds.
    pub closed spec fn cost(&self) -> int {
        self.cost as int
    }

    /// The time of the last refill, in nanoseconds.
    pub closed spec fn last_refill(&self) -> int {
        self.last_refill as int
    }

    /// The capacity is `rate` tokens (capped at the largest `u128`) and the
    /// level does not exceed it.
    pub closed spec fn wf(&self) -> bool {
        &&& self.capacity == capped_capacity(self.rate as int, self.cost as int)
        &&& self.level <= self.capacity
    }

    /// A full bucket for `max_tokens` requests per `window_secs` seconds,
    /// last refilled at `now`.
    pub fn new(max_tokens: u64, window_secs: u64, now: u128) -> (r: Self)
        ensures
            r.wf(),
            r.rate() == max_tokens,
            r.cost() == window_secs * nanos_per_sec(),
            r.capacity() == capped_capacity(max_tokens as int, window_secs * nanos_per_sec()),
            r.level() == r.capacity(),
            r.last_refill() == now,
    {
        proof {
            assert(window_secs * 1_000_000_000 <= u128::MAX) by (nonlinear_arith)
                requires
                    window_secs <= u64::MAX,
            ;
        }
        let cost: u128 = (window_secs as u128) * 1_000_000_000u128;
        let capacity: u128 = match (max_tokens as u128).checked_mul(cost) {
            Some(c) => c,
            None => u128::MAX,
        };
        TokenBucket { level: capacity, capacity, rate: max_tokens as u128, cost, last_refill: now }
    }

    /// Adds what `elapsed` nanoseconds bring, up to the capacity.
    pub fn refill_by(&mut self, elapsed: u128)
        requires
            old(self).wf(),
        ensures
            final(self).wf(),
            final(self).level() == refilled(old(self).level(), old(self).capacity(), old(self).rate(), elapsed as int),
            final(self).capacity() == old(self).capacity(),
            final(self).rate() == old(self).rate(),
            final(self).cost() == old(self).cost(),
            final(self).last_refill() == old(self).last_refill(),
    {
        let room = self.capacity - self.level;
        match elapsed.checked_mul(self.rate) {
            None => {
                self.level = self.capacity;
            },
            Some(added) => {
                if added > room {
                    self.level = self.capacity;
                } else {
                    self.level = self.level + added;
                }
            },
        }
    }

    /// Takes a token if there is one: whether the request is let through.
    /// A bucket with a window of zero lets a request through whenever it
    /// allows any.
    fn take_token(&mut self) -> (r: bool)
        requires
            old(self).wf(),
        ensures
            final(self).wf(),
            old(self).cost() == 0 ==> r == (old(self).rate() >= 1) && final(self).level() == old(self).level(),
            old(self).cost() != 0 ==> (r, final(self).level()) == (if old(self).level() >= old(self).cost() {
                (true, old(self).level() - old(self).cost())
            } else {
                (false, old(self).level())
            }),
            final(self).capacity() == old(self).capacity(),
            final(self).rate() == old(self).rate(),
            final(self).cost() == old(self).cost(),
            final(self).last_refill() == old(self).last_refill(),
    {
        if self.cost == 0 {
            return self.rate >= 1;
        }
        if self.level >= self.cost {
            self.level = self.level - self.cost;
            true
        } else {
            false
        }
    }

    /// Refills for `elapsed` nanoseconds, then takes a token if there is
    /// one: whether the request is let through. The refill time is left as
    /// it was.
    pub fn consume_after(&mut self, elapsed: u128) -> (r: bool)
        requires
            old(self).wf(),
        ensures
            final(self).wf(),
            (r, final(self).level()) == consume(
                old(self).level(),
                old(self).capacity(),
                old(self).rate(),
                old(self).cost(),
                elapsed as int,
            ),
            final(self).capacity() == old(self).capacity(),
            final(self).rate() == old(self).rate(),
            final(self).cost() == old(self).cost(),
            final(self).last_refill() == old(self).last_refill(),
    {
        self.refill_by(elapsed);
        proof {
            let cap = old(self).capacity();
            let rate = old(self).rate();
            let cost = old(self).cost();
            if cost == 0 {
                assert(rate * cost == 0) by (nonlinear_arith)
                    requires
                        cost == 0,
                ;
                assert(cap == 0);
            }
        }
        self.take_token()
    }

    /// Refills for the time from the last refill to `now`, which becomes
    /// the time of the last refill.
    fn refill(&mut self, now: u128)
        requires
            old(self).wf(),
        ensures
            final(self).wf(),
            final(self).level() == refilled(
                old(self).level(),
                old(self).capacity(),
                old(self).rate(),
                elapsed_between(old(self).last_refill(), now as int),
            ),
            final(self).capacity() == old(self).capacity(),
            final(self).rate() == old(self).rate(),
            final(self).cost() == old(self).cost(),
            final(self).last_refill() == now,
    {
        let elapsed: u128 = if now >= self.last_refill { now - self.last_refill } else { 0 };
        self.last_refill = now;
        self.refill_by(elapsed);
    }

    /// At time `now`: adds what the time since the last refill brings,
    /// takes a token if there is one, and records `now` as the time of the
    /// last refill. Returns whether the request is let through.
    pub fn try_consume(&mut self, now: u128) -> (r: bool)
        requires
            old(self).wf(),
        ensures
            final(self).wf(),
            (r, final(self).level()) == consume(
                old(self).level(),
                old(self).capacity(),
                old(self).rate(),
                old(self).cost(),
                elapsed_between(old(self).last_refill(), now as int),
            ),
            final(self).capacity() == old(self).capacity(),
            final(self).rate() == old(self).rate(),
            final(self).cost() == old(self).cost(),
            final(self).last_refill() == now,
    {
        self.refill(now);
        proof {
            let cap = old(self).capacity();
            let rate = old(self).rate();
            let cost = old(self).cost();
            if cost == 0 {
                assert(rate * cost == 0) by (nonlinear_arith)
                    requires
                        cost == 0,
                ;
                assert(cap == 0);
            }
        }
        self.take_token()
    }
}

/// The per-client rate limiter: one bucket per client address.
pub struct RateLimiterLayer {
    buckets: DashMap<(u8, u128), TokenBucket>,
    max_requests: u64,
    window_secs: u64,
}

/// What a refused request is answered with.
#[derive(Debug, PartialEq, Eq)]
pub struct Rejection {
    pub status: u16,
    pub retry_after: String,
    pub body: String,
}

impl RateLimiterLayer {
    /// The bucket of each client seen so far.
    pub closed spec fn buckets(&self) -> Map<(u8, u128), TokenBucket> {
        bucket_table(self.buckets)
    }

    pub closed spec fn max_requests(&self) -> u64 {
        self.max_requests
    }

    pub closed spec fn window_secs(&self) -> u64 {
        self.window_secs
    }

    /// Every bucket is well formed and made for this limiter's setting.
    pub open spec fn wf(&self) -> bool {
        forall|k: (u8, u128)|
            #[trigger] self.buckets().contains_key(k) ==> {
                &&& self.buckets()[k].wf()
                &&& self.buckets()[k].rate() == self.max_requests()
                &&& self.buckets()[k].cost() == self.window_secs() * nanos_per_sec()
            }
    }

    /// A limiter with no client seen yet.
    pub fn new(config: &RateLimitConfig) -> (r: Self)
        ensures
            r.wf(),
            r.max_requests() == config.max_requests,
            r.window_secs() == config.window_secs,
            r.buckets().dom() == Set::<(u8, u128)>::empty(),
    {
        RateLimiterLayer {
            buckets: bucket_table_new(),
            max_requests: config.max_requests,
            window_secs: config.window_secs,
        }
    }

    /// Whether a request from `client`, made at `now` (nanoseconds on a
    /// monotonic clock), is let through. A client seen for the first time
    /// gets a full bucket refilled at `now`; the client's bucket is refilled
    /// for the time since its last refill, which becomes `now`; the buckets
    /// of other clients are left as they are.
    pub fn check(&mut self, client: (u8, u128), now: u128) -> (r: bool)
        requires
            old(self).wf(),
        ensures
            final(self).wf(),
            check_step(*old(self), *final(self), client, now as int, r),
    {
        let ghost old_buckets = self.buckets();
        let taken = bucket_table_take(&mut self.buckets, client);
        let mut bucket = match taken {
            Some(b) => b,
            None => TokenBucket::new(self.max_requests, self.window_secs, now),
        };
        let r = bucket.try_consume(now);
        bucket_table_insert(&mut self.buckets, client, bucket);
        proof {
            assert(self.buckets().dom() =~= old_buckets.dom().insert(client));
        }
        r
    }

    /// The value of the `Retry-After` header on a refused request: the
    /// window in seconds.
    pub fn retry_after(&self) -> (r: String)
        ensures
            r@ == decimal(self.window_secs() as nat),
    {
        decimal_string(self.window_secs)
    }

    /// The answer to a refused request: status 429, `Retry-After` set to the
    /// window, and the body `Rate limit exceeded`.
    pub fn rejection(&self) -> (r: Rejection)
        ensures
            r.status == 429,
            r.retry_after@ == decimal(self.window_secs() as nat),
            r.body@ == "Rate limit exceeded"@,
    {
        Rejection {
            status: 429,
            retry_after: self.retry_after(),
            body: "Rate limit exceeded".to_owned(),
        }
    }
}

/// What `check(client, now)` does, from limiter `l0` to limiter `l1`,
/// answering `r`. The setting stays; the client gets a bucket, refilled at
/// `now`; the buckets of other clients stay as they are; and the answer and
/// the client's new level are one step of `consume`: from its bucket's level
/// for the time since its last refill, or, for a client seen for the first
/// time, from a full bucket with nothing elapsed.
pub open spec fn check_step(l0: RateLimiterLayer, l1: RateLimiterLayer, client: (u8, u128), now: int, r: bool) -> bool {
    let cap = capped_capacity(l0.max_requests() as int, l0.window_secs() * nanos_per_sec());
    let rate = l0.max_requests() as int;
    let cost = l0.window_secs() * nanos_per_sec();
    &&& l1.max_requests() == l0.max_requests()
    &&& l1.window_secs() == l0.window_secs()
    &&& l1.buckets().dom() == l0.buckets().dom().insert(client)
    &&& forall|k: (u8, u128)|
        k != client && #[trigger] l0.buckets().contains_key(k) ==> l1.buckets()[k] == l0.buckets()[k]
    &&& l1.buckets()[client].last_refill() == now
    &&& l0.buckets().contains_key(client) ==> (r, l1.buckets()[client].level()) == consume(
        l0.buckets()[client].level(),
        cap,
        rate,
        cost,
        elapsed_between(l0.buckets()[client].last_refill(), now),
    )
    &&& !l0.buckets().contains_key(client) ==> (r, l1.buckets()[client].level()) == consume(
        cap,
        cap,
        rate,
        cost,
        0,
    )
}

/// The bucket that limiter `l` holds for `client` is where the client's
/// requests at `times` leave it: none before the first request, and after
/// them the level of `client_history`, last refilled at the last of them.
pub open spec fn bucket_follows(l: RateLimiterLayer, client: (u8, u128), times: Seq<int>) -> bool {
    if times.len() == 0 {
        !l.buckets().contains_key(client)
    } else {
        &&& l.buckets().contains_key(client)
        &&& l.buckets()[client].level() == client_history(
            capped_capacity(l.max_requests() as int, l.window_secs() * nanos_per_sec()),
            l.max_requests() as int,
            l.window_secs() * nanos_per_sec(),
            times,
        ).1
        &&& l.buckets()[client].last_refill() == times.last()
    }
}

/// Law of `check` over a client's successive requests: when the client's
/// bucket is where its earlier requests at `times` left it, a request at
/// `now` (no earlier than the last of them) is let through exactly when
/// `client_history` counts one more for `times` followed by `now`, and the
/// bucket is then where that history leaves it. The bucket of any other
/// client stays where its own requests left it, so `lemma_client_history_bound`
/// and `lemma_client_history_first` hold of each client's answers, whatever
/// other clients ask in between.
pub proof fn lemma_check_follows_history(
    l0: RateLimiterLayer,
    l1: RateLimiterLayer,
    client: (u8, u128),
    times: Seq<int>,
    now: int,
    r: bool,
    other: (u8, u128),
    other_times: Seq<int>,
)
    requires
        check_step(l0, l1, client, now, r),
        bucket_follows(l0, client, times),
        times.len() > 0 ==> times.last() <= now,
        other != client,
        bucket_follows(l0, other, other_times),
    ensures
        bucket_follows(l1, client, times.push(now)),
        r <==> client_history(
            capped_capacity(l0.max_requests() as int, l0.window_secs() * nanos_per_sec()),
            l0.max_requests() as int,
            l0.window_secs() * nanos_per_sec(),
            times.push(now),
        ).0 == client_history(
            capped_capacity(l0.max_requests() as int, l0.window_secs() * nanos_per_sec()),
            l0.max_requests() as int,
            l0.window_secs() * nanos_per_sec(),
            times,
        ).0 + 1,
        bucket_follows(l1, other, other_times),
{
    let cap = capped_capacity(l0.max_requests() as int, l0.window_secs() * nanos_per_sec());
    let rate = l0.max_requests() as int;
    let cost = l0.window_secs() * nanos_per_sec();
    let ts = times.push(now);
    assert(ts.drop_last() =~= times);
    assert(ts.last() == now);
    if times.len() > 0 {
        assert(ts[ts.len() - 2] == times.last());
    }
    assert(client_history(cap, rate, cost, ts) == {
        let prev = client_history(cap, rate, cost, times);
        let e = if ts.len() == 1 { 0 } else { elapsed_between(ts[ts.len() - 2], ts.last()) };
        let step = consume(prev.1, cap, rate, cost, e);
        (if step.0 { prev.0 + 1 } else { prev.0 }, step.1)
    });
    if times.len() == 0 {
        assert(client_history(cap, rate, cost, times) == (0nat, cap));
    }
    if other_times.len() > 0 {
        assert(l0.buckets().contains_key(other));
        assert(l1.buckets()[other] == l0.buckets()[other]);
    } else {
        assert(!l1.buckets().dom().contains(other));
    }
}

/// The part of an `X-Forwarded-For` value that names the client: the text
/// before the first comma, without surrounding white space.
pub open spec fn forwarded_client(value: Seq<char>) -> Seq<char> {
    trimmed(before_first(value, ','))
}

pub fn forwarded_client_text(value: &str) -> (r: String)
    ensures
        r@ == forwarded_client(value@),
{
    let first = prefix_before(value, ',');
    trim(first.as_str())
}

/// The key of `0.0.0.0`, used when the client's address is unknown.
pub open spec fn unknown_client() -> (u8, u128) {
    (4, 0)
}

/// The client a request is counted against: the peer address of the
/// connection when known, else the address named first in
/// `X-Forwarded-For` when it parses, else `0.0.0.0`. Addresses are keyed
/// as `(4, bits)` or `(6, bits)`.
pub fn client_key(peer: Option<(u8, u128)>, forwarded: Option<(u8, u128)>) -> (r: (u8, u128))
    ensures
        r == (match peer {
            Some(p) => p,
            None => match forwarded {
                Some(f) => f,
                None => unknown_client(),
            },
        }),
{
    match peer {
        Some(p) => p,
        None => match forwarded {
            Some(f) => f,
            None => (4, 0),
        },
    }
}

/// The limiter the configuration asks for, if it enables one.
pub fn layer(config: &RateLimitConfig) -> (r: Option<RateLimiterLayer>)
    ensures
        r is Some <==> config.enabled,
        r matches Some(l) ==> l.wf() && l.max_requests() == config.max_requests && l.window_secs()
            == config.window_secs && l.buckets().dom() == Set::<(u8, u128)>::empty(),
{
    if config.enabled {
        Some(RateLimiterLayer::new(config))
    } else {
        None
    }
}

} // verus!
