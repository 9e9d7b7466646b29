//! The table of backends and the counters kept for each of them.
pub mod health;

use vstd::prelude::*;

use dashmap::DashMap;

use crate::config::BackendConfig;
use crate::text::{
    comes_before, lemma_text_before_strict, lemma_text_before_total, lemma_text_before_transitive,
    text_before,
};
use crate::external::{
    backend_table, backend_table_entries, backend_table_get, backend_table_insert,
    backend_table_new,
};

verus! {

/// One upstream server and the counters the proxy keeps for it.
///
/// Response times are kept as their sum in microseconds: the mean response
/// time is `total_response_us / total_requests`. `last_health_check` is the
/// time of the last change of health, in milliseconds since the Unix epoch.
/// `consecutive_successes` counts the successful probes of a backend that is
/// down since its last failure.
#[derive(Debug, PartialEq, Eq)]
pub struct Backend {
    pub name: String,
    pub url: String,
    pub weight: u32,
    pub max_retries: u32,
    pub healthy: bool,
    pub active_connections: u64,
    pub total_requests: u64,
    pub failed_requests: u64,
    pub total_response_us: u64,
    pub last_health_check: Option<i64>,
    pub consecutive_failures: u32,
    pub consecutive_successes: u32,
}

/// What the stats endpoint reports of one backend.
#[derive(Debug, PartialEq, Eq)]
pub struct BackendStats {
    pub name: String,
    pub url: String,
    pub healthy: bool,
    pub active_connections: u64,
    pub total_requests: u64,
    pub failed_requests: u64,
    pub successful_requests: u64,
    pub total_response_us: u64,
    pub weight: u32,
}

impl Backend {
    /// A field-by-field copy.
    pub fn duplicate(&self) -> (r: Backend)
        ensures
            r == *self,
    {
        Backend {
            name: self.name.clone(),
            url: self.url.clone(),
            weight: self.weight,
            max_retries: self.max_retries,
            healthy: self.healthy,
            active_connections: self.active_connections,
            total_requests: self.total_requests,
            failed_requests: self.failed_requests,
            total_response_us: self.total_response_us,
            last_health_check: self.last_health_check,
            consecutive_failures: self.consecutive_failures,
            consecutive_successes: self.consecutive_successes,
        }
    }
}

/// The state of a backend that was just configured: healthy, idle, with no
/// requests counted and no health check yet.
pub open spec fn fresh_backend(c: BackendConfig) -> Backend {
    Backend {
        name: c.name,
        url: c.url,
        weight: c.weight,
        max_retries: c.max_retries,
        healthy: true,
        active_connections: 0,
        total_requests: 0,
        failed_requests: 0,
        total_response_us: 0,
        last_health_check: None,
        consecutive_failures: 0,
        consecutive_successes: 0,
    }
}

/// The table that a list of backend configurations gives: one entry per
/// name, a later configuration replacing an earlier one of the same name.
pub open spec fn table_from(cfgs: Seq<BackendConfig>) -> Map<Seq<char>, Backend>
    decreases cfgs.len(),
{
    if cfgs.len() == 0 {
        Map::empty()
    } else {
        table_from(cfgs.drop_last()).insert(cfgs.last().name@, fresh_backend(cfgs.last()))
    }
}

/// What the stats endpoint reports of a backend.
pub open spec fn stats_of(b: Backend) -> BackendStats {
    BackendStats {
        name: b.name,
        url: b.url,
        healthy: b.healthy,
        active_connections: b.active_connections,
        total_requests: b.total_requests,
        failed_requests: b.failed_requests,
        successful_requests: (b.total_requests - b.failed_requests) as u64,
        total_response_us: b.total_response_us,
        weight: b.weight,
    }
}

/// A backend kept under key `k`: it carries `k` as its name, and no more of
/// its requests failed than were made.
pub open spec fn entry_ok(k: Seq<char>, b: Backend) -> bool {
    &&& b.name@ == k
    &&& b.failed_requests <= b.total_requests
}

/// `r` lists the backends of `t` (only the healthy ones when `only_healthy`),
/// each exactly once, in some order.
pub open spec fn is_listing(t: Map<Seq<char>, Backend>, r: Seq<Backend>, only_healthy: bool) -> bool {
    &&& forall|i: int|
        0 <= i < r.len() ==> {
            &&& t.contains_key(#[trigger] r[i].name@)
            &&& t[r[i].name@] == r[i]
            &&& (only_healthy ==> r[i].healthy)
        }
    &&& forall|i: int, j: int| 0 <= i < j < r.len() ==> #[trigger] r[i].name@ != #[trigger] r[j].name@
    &&& forall|k: Seq<char>|
        #[trigger] t.contains_key(k) && (only_healthy ==> t[k].healthy) ==> exists|i: int|
            0 <= i < r.len() && #[trigger] r[i].name@ == k
}

/// The backends of `l` come in the order of their names (`text_before`).
pub open spec fn by_name(l: Seq<Backend>) -> bool {
    forall|i: int, j: int| 0 <= i < j < l.len() ==> text_before(#[trigger] l[i].name@, #[trigger] l[j].name@)
}

/// The listing of the backends of `t` (only the healthy ones when
/// `only_healthy`) in the order of their names: there is exactly one
/// (`lemma_listing_unique`).
pub open spec fn ordered_listing(t: Map<Seq<char>, Backend>, only_healthy: bool) -> Seq<Backend> {
    choose|l: Seq<Backend>| is_listing(t, l, only_healthy) && by_name(l)
}

/// A listing without its first backend lists the table without that
/// backend's key.
pub proof fn lemma_listing_drop_first(t: Map<Seq<char>, Backend>, l: Seq<Backend>, h: bool)
    requires
        is_listing(t, l, h),
        l.len() > 0,
    ensures
        is_listing(t.remove(l[0].name@), l.drop_first(), h),
{
    let k = l[0].name@;
    let t2 = t.remove(k);
    let a = l.drop_first();
    assert forall|i: int| 0 <= i < a.len() implies {
        &&& t2.contains_key(#[trigger] a[i].name@)
        &&& t2[a[i].name@] == a[i]
        &&& (h ==> a[i].healthy)
    } by {
        assert(a[i] == l[i + 1]);
        assert(l[0].name@ != l[i + 1].name@);
    }
    assert forall|p: int, q: int| 0 <= p < q < a.len() implies #[trigger] a[p].name@ != #[trigger] a[q].name@ by {
        assert(a[p] == l[p + 1]);
        assert(a[q] == l[q + 1]);
    }
    assert forall|kk: Seq<char>| #[trigger] t2.contains_key(kk) && (h ==> t2[kk].healthy) implies exists|i: int|
        0 <= i < a.len() && #[trigger] a[i].name@ == kk by {
        assert(t.contains_key(kk));
        assert(t2[kk] == t[kk]);
        let i = choose|i: int| 0 <= i < l.len() && #[trigger] l[i].name@ == kk;
        assert(i != 0);
        assert(a[i - 1] == l[i]);
    }
}

/// Law of listings: two listings of the same table that both come in the
/// order of the names are the same, so `ordered_listing` is the listing in
/// name order.
pub proof fn lemma_listing_unique(t: Map<Seq<char>, Backend>, l1: Seq<Backend>, l2: Seq<Backend>, h: bool)
    requires
        is_listing(t, l1, h),
        is_listing(t, l2, h),
        by_name(l1),
        by_name(l2),
    ensures
        l1 == l2,
    decreases l1.len(),
{
    if l1.len() == 0 {
        if l2.len() > 0 {
            assert(t.contains_key(l2[0].name@));
        }
        assert(l1 =~= l2);
    } else {
        assert(t.contains_key(l1[0].name@));
        let k1 = l1[0].name@;
        let j = choose|j: int| 0 <= j < l2.len() && #[trigger] l2[j].name@ == k1;
        let k2 = l2[0].name@;
        if k1 != k2 {
            assert(t.contains_key(k2));
            let i = choose|i: int| 0 <= i < l1.len() && #[trigger] l1[i].name@ == k2;
            assert(j != 0 && i != 0);
            assert(text_before(l2[0].name@, l2[j].name@));
            assert(text_before(l1[0].name@, l1[i].name@));
            lemma_text_before_strict(k1, k2);
        }
        assert(l1[0] == l2[0]);
        lemma_listing_drop_first(t, l1, h);
        lemma_listing_drop_first(t, l2, h);
        let a = l1.drop_first();
        let b = l2.drop_first();
        assert(by_name(a)) by {
            assert forall|p: int, q: int| 0 <= p < q < a.len() implies text_before(#[trigger] a[p].name@, #[trigger] a[q].name@) by {
                assert(a[p] == l1[p + 1] && a[q] == l1[q + 1]);
            }
        }
        assert(by_name(b)) by {
            assert forall|p: int, q: int| 0 <= p < q < b.len() implies text_before(#[trigger] b[p].name@, #[trigger] b[q].name@) by {
                assert(b[p] == l2[p + 1] && b[q] == l2[q + 1]);
            }
        }
        lemma_listing_unique(t.remove(k1), a, b, h);
        assert(l1 =~= l2) by {
            assert forall|i: int| 0 <= i < l1.len() implies l1[i] == l2[i] by {
                if i > 0 {
                    assert(l1[i] == a[i - 1] && l2[i] == b[i - 1]);
                }
            }
        }
    }
}

/// A listing reordered by name is a listing of the same table.
proof fn lemma_reordered_listing(t: Map<Seq<char>, Backend>, w: Seq<Backend>, r: Seq<Backend>, idx: Seq<int>, h: bool)
    requires
        is_listing(t, w, h),
        by_name(r),
        idx.len() == r.len(),
        forall|p: int| 0 <= p < r.len() ==> 0 <= #[trigger] idx[p] < w.len() && r[p] == w[idx[p]],
        forall|a: int| 0 <= a < w.len() ==> #[trigger] holds_index(idx, a),
    ensures
        is_listing(t, r, h),
{
    assert forall|i: int| 0 <= i < r.len() implies t.contains_key(#[trigger] r[i].name@) && t[r[i].name@] == r[i] by {
        let a = idx[i];
        assert(0 <= a < w.len() && r[i] == w[a]);
        assert(t.contains_key(w[a].name@));
    }
    assert forall|i: int| 0 <= i < r.len() && h implies (#[trigger] r[i]).healthy by {
        let a = idx[i];
        assert(0 <= a < w.len() && r[i] == w[a]);
        assert(t.contains_key(w[a].name@));
    }
    assert forall|i: int, j: int| 0 <= i < j < r.len() implies #[trigger] r[i].name@ != #[trigger] r[j].name@ by {
        assert(text_before(r[i].name@, r[j].name@));
        lemma_text_before_strict(r[i].name@, r[i].name@);
    }
    assert forall|k: Seq<char>| #[trigger] t.contains_key(k) && (h ==> t[k].healthy) implies exists|i: int|
        0 <= i < r.len() && #[trigger] r[i].name@ == k by {
        let a = choose|a: int| 0 <= a < w.len() && #[trigger] w[a].name@ == k;
        assert(holds_index(idx, a));
        let p = choose|p: int| 0 <= p < idx.len() && #[trigger] idx[p] == a;
        assert(r[p] == w[a]);
        assert(r[p].name@ == k);
    }
}

/// Some entry of `idx` is `a`.
pub open spec fn holds_index(idx: Seq<int>, a: int) -> bool {
    exists|p: int| 0 <= p < idx.len() && #[trigger] idx[p] == a
}

/// Inserting `x` where everything before comes before it and everything
/// after comes after it keeps a list in name order.
proof fn lemma_insert_by_name(l: Seq<Backend>, j: int, x: Backend)
    requires
        0 <= j <= l.len(),
        by_name(l),
        forall|q: int| 0 <= q < j ==> text_before((#[trigger] l[q]).name@, x.name@),
        forall|q: int| j <= q < l.len() ==> text_before(x.name@, (#[trigger] l[q]).name@),
    ensures
        by_name(l.insert(j, x)),
{
    let r = l.insert(j, x);
    assert forall|p: int, q: int| 0 <= p < q < r.len() implies text_before(#[trigger] r[p].name@, #[trigger] r[q].name@) by {
        if q < j {
            assert(r[p] == l[p] && r[q] == l[q]);
        } else if q == j {
            assert(r[p] == l[p]);
        } else if p == j {
            assert(r[q] == l[q - 1]);
        } else if p < j {
            assert(r[p] == l[p] && r[q] == l[q - 1]);
            lemma_text_before_transitive(l[p].name@, x.name@, l[q - 1].name@);
        } else {
            assert(r[p] == l[p - 1] && r[q] == l[q - 1]);
        }
    }
}

/// The backends of `src`, whose names are all different, reordered by name:
/// backend `p` of the result is backend `idx[p]` of `src`, and every backend
/// of `src` is somewhere in the result.
fn sort_by_name(src: &Vec<Backend>) -> (res: (Vec<Backend>, Ghost<Seq<int>>))
    requires
        forall|i: int, j: int| 0 <= i < j < src@.len() ==> #[trigger] src@[i].name@ != #[trigger] src@[j].name@,
    ensures
        by_name(res.0@),
        res.1@.len() == res.0@.len(),
        forall|p: int| 0 <= p < res.0@.len() ==> 0 <= #[trigger] res.1@[p] < src@.len() && res.0@[p] == src@[res.1@[p]],
        forall|a: int| 0 <= a < src@.len() ==> #[trigger] holds_index(res.1@, a),
{
    let n = src.len();
    let mut r: Vec<Backend> = Vec::new();
    let ghost mut idx: Seq<int> = Seq::empty();
    let mut i: usize = 0;
    while i < n
        invariant
            n == src@.len(),
            i <= n,
            forall|i: int, j: int| 0 <= i < j < src@.len() ==> #[trigger] src@[i].name@ != #[trigger] src@[j].name@,
            by_name(r@),
            idx.len() == r@.len(),
            forall|p: int| 0 <= p < r@.len() ==> 0 <= #[trigger] idx[p] < i && r@[p] == src@[idx[p]],
            forall|a: int| 0 <= a < i ==> #[trigger] holds_index(idx, a),
        decreases n - i,
    {
        let x = src[i].duplicate();
        let m = r.len();
        let mut j: usize = 0;
        while j < m && !comes_before(x.name.as_str(), r[j].name.as_str())
            invariant
                m == r@.len(),
                j <= m,
                i < n,
                n == src@.len(),
                x == src@[i as int],
                forall|i: int, j: int| 0 <= i < j < src@.len() ==> #[trigger] src@[i].name@ != #[trigger] src@[j].name@,
                idx.len() == r@.len(),
                forall|p: int| 0 <= p < r@.len() ==> 0 <= #[trigger] idx[p] < i && r@[p] == src@[idx[p]],
                forall|q: int| 0 <= q < j ==> text_before((#[trigger] r@[q]).name@, x.name@),
            decreases m - j,
        {
            proof {
                let a = idx[j as int];
                assert(src@[a].name@ != src@[i as int].name@);
                lemma_text_before_total(x.name@, r@[j as int].name@);
            }
            j = j + 1;
        }
        let ghost old_r = r@;
        let ghost old_idx = idx;
        proof {
            assert forall|q: int| j <= q < m implies text_before(x.name@, (#[trigger] old_r[q]).name@) by {
                if q > j {
                    lemma_text_before_transitive(x.name@, old_r[j as int].name@, old_r[q].name@);
                }
            }
            lemma_insert_by_name(old_r, j as int, x);
            idx = idx.insert(j as int, i as int);
        }
        r.insert(j, x);
        proof {
            assert forall|p: int| 0 <= p < r@.len() implies 0 <= #[trigger] idx[p] < i + 1 && r@[p] == src@[idx[p]] by {
                if p < j {
                    assert(r@[p] == old_r[p] && idx[p] == old_idx[p]);
                } else if p > j {
                    assert(r@[p] == old_r[p - 1] && idx[p] == old_idx[p - 1]);
                }
            }
            assert forall|a: int| 0 <= a < i + 1 implies #[trigger] holds_index(idx, a) by {
                if a < i {
                    assert(holds_index(old_idx, a));
                    let p = choose|p: int| 0 <= p < old_idx.len() && #[trigger] old_idx[p] == a;
                    if p < j {
                        assert(idx[p] == a);
                    } else {
                        assert(idx[p + 1] == a);
                    }
                } else {
                    assert(idx[j as int] == a);
                }
            }
        }
        i = i + 1;
    }
    (r, Ghost(idx))
}

/// `b` after a health mark made at `now` (milliseconds since the Unix
/// epoch): the flag set, the check time stamped, and the failure count
/// cleared when the mark is healthy.
pub open spec fn health_marked(b: Backend, healthy: bool, now: i64) -> Backend {
    Backend {
        healthy,
        last_health_check: Some(now),
        consecutive_failures: if healthy { 0 } else { b.consecutive_failures },
        ..b
    }
}

/// `b` after one more request that succeeded or failed and took
/// `response_us` microseconds.
pub open spec fn after_request(b: Backend, success: bool, response_us: u64) -> Backend {
    Backend {
        total_requests: (b.total_requests + 1) as u64,
        failed_requests: if success { b.failed_requests } else { (b.failed_requests + 1) as u64 },
        total_response_us: if b.total_response_us + response_us > u64::MAX {
            u64::MAX
        } else {
            (b.total_response_us + response_us) as u64
        },
        ..b
    }
}

/// `b` with one more open connection.
pub open spec fn connection_opened(b: Backend) -> Backend {
    Backend { active_connections: (b.active_connections + 1) as u64, ..b }
}

/// `b` with one open connection fewer, the count stopping at zero.
pub open spec fn connection_closed(b: Backend) -> Backend {
    Backend {
        active_connections: if b.active_connections == 0 { 0 } else { (b.active_connections - 1) as u64 },
        ..b
    }
}

/// Law of the connection count: closing a connection undoes opening one.
pub proof fn lemma_close_undoes_open(b: Backend)
    requires
        b.active_connections < u64::MAX,
    ensures
        connection_closed(connection_opened(b)) == b,
{
}

/// Law of the request counters: a request that opens a connection, closes
/// it and is recorded leaves the open connections as they were, adds one to
/// the requests, one to the failures exactly when it failed, and keeps the
/// failures within the requests.
pub proof fn lemma_request_round_trip(b: Backend, success: bool, response_us: u64)
    requires
        b.active_connections < u64::MAX,
        b.total_requests < u64::MAX,
        b.failed_requests <= b.total_requests,
    ensures
        ({
            let after = after_request(connection_closed(connection_opened(b)), success, response_us);
            &&& after.active_connections == b.active_connections
            &&& after.total_requests == b.total_requests + 1
            &&& after.failed_requests == b.failed_requests + (if success { 0int } else { 1int })
            &&& after.failed_requests <= after.total_requests
        }),
{
}

/// The shared table of backends, keyed by name.
pub struct BackendManager {
    backends: DashMap<String, Backend>,
}

impl BackendManager {
    /// The backends, by name.
    pub closed spec fn table(&self) -> Map<Seq<char>, Backend> {
        backend_table(self.backends)
    }

    /// The table is finite and every entry is consistent with its key.
    pub open spec fn wf(&self) -> bool {
        &&& self.table().dom().finite()
        &&& forall|k: Seq<char>| #[trigger] self.table().contains_key(k) ==> entry_ok(k, self.table()[k])
    }

    /// Whether a backend of this name is known.
    pub open spec fn has(&self, name: Seq<char>) -> bool {
        self.table().contains_key(name)
    }

    /// Every backend that a balancer may pick has room for one more open
    /// connection.
    pub open spec fn connections_have_room(&self) -> bool {
        forall|k: Seq<char>|
            #[trigger] self.table().contains_key(k) && self.table()[k].healthy ==> self.table()[k].active_connections
                < u64::MAX
    }

    /// A manager holding one fresh backend per configured name.
    pub fn new(configs: Vec<BackendConfig>) -> (m: Self)
        ensures
            m.wf(),
            m.table() == table_from(configs@),
    {
        let mut m = BackendManager { backends: backend_table_new() };
        let n = configs.len();
        let mut i: usize = 0;
        proof {
            assert(configs@.take(0) =~= Seq::<BackendConfig>::empty());
            assert(m.table() =~= table_from(configs@.take(0)));
        }
        while i < n
            invariant
                n == configs@.len(),
                i <= n,
                m.wf(),
                m.table() == table_from(configs@.take(i as int)),
            decreases n - i,
        {
            let c = &configs[i];
            let b = Backend {
                name: c.name.clone(),
                url: c.url.clone(),
                weight: c.weight,
                max_retries: c.max_retries,
                healthy: true,
                active_connections: 0,
                total_requests: 0,
                failed_requests: 0,
                total_response_us: 0,
                last_health_check: None,
                consecutive_failures: 0,
                consecutive_successes: 0,
            };
            proof {
                assert(b == fresh_backend(configs@[i as int]));
                assert(configs@.take(i + 1).drop_last() =~= configs@.take(i as int));
                assert(configs@.take(i + 1).last() == configs@[i as int]);
            }
            backend_table_insert(&mut m.backends, c.name.clone(), b);
            i = i + 1;
        }
        proof {
            assert(configs@.take(n as int) =~= configs@);
        }
        m
    }

    /// Every backend, each once, in the order of their names.
    pub fn get_all_backends(&self) -> (r: Vec<Backend>)
        requires
            self.wf(),
        ensures
            is_listing(self.table(), r@, false),
            by_name(r@),
            r@ == ordered_listing(self.table(), false),
    {
        self.listing(false)
    }

    /// Every healthy backend, each once, in the order of their names: the
    /// same listing for the same table.
    pub fn get_healthy_backends(&self) -> (r: Vec<Backend>)
        requires
            self.wf(),
        ensures
            is_listing(self.table(), r@, true),
            by_name(r@),
            r@ == ordered_listing(self.table(), true),
    {
        self.listing(true)
    }

    fn listing(&self, only_healthy: bool) -> (r: Vec<Backend>)
        requires
            self.wf(),
        ensures
            is_listing(self.table(), r@, only_healthy),
            by_name(r@),
            r@ == ordered_listing(self.table(), only_healthy),
    {
        let walked = self.walk(only_healthy);
        let ghost t = self.table();
        let (r, Ghost(idx)) = sort_by_name(&walked);
        proof {
            lemma_reordered_listing(t, walked@, r@, idx, only_healthy);
            let l = ordered_listing(t, only_healthy);
            lemma_listing_unique(t, l, r@, only_healthy);
        }
        r
    }

    /// Every backend (only the healthy ones when `only_healthy`), each once,
    /// in the order in which the table is walked.
    fn walk(&self, only_healthy: bool) -> (r: Vec<Backend>)
        requires
            self.wf(),
        ensures
            is_listing(self.table(), r@, only_healthy),
    {
        let entries = backend_table_entries(&self.backends);
        let ghost t = self.table();
        let mut r: Vec<Backend> = Vec::new();
        let ghost mut picked: Seq<int> = Seq::empty();
        let n = entries.len();
        let mut i: usize = 0;
        while i < n
            invariant
                n == entries@.len(),
                i <= n,
                t == self.table(),
                self.wf(),
                forall|a: int|
                    0 <= a < n ==> t.contains_key(#[trigger] entries@[a].0@) && t[entries@[a].0@]
                        == entries@[a].1,
                forall|a: int, b: int|
                    0 <= a < b < n ==> #[trigger] entries@[a].0@ != #[trigger] entries@[b].0@,
                picked.len() == r@.len(),
                forall|p: int| 0 <= p < r@.len() ==> 0 <= #[trigger] picked[p] < i,
                forall|p: int, q: int| 0 <= p < q < r@.len() ==> #[trigger] picked[p] < #[trigger] picked[q],
                forall|p: int|
                    0 <= p < r@.len() ==> #[trigger] r@[p] == entries@[picked[p]].1,
                forall|a: int|
                    0 <= a < i && (only_healthy ==> entries@[a].1.healthy) ==> exists|p: int|
                        0 <= p < r@.len() && #[trigger] picked[p] == a,
                forall|p: int| 0 <= p < r@.len() ==> (only_healthy ==> (#[trigger] r@[p]).healthy),
            decreases n - i,
        {
            let ghost old_picked = picked;
            if !only_healthy || entries[i].1.healthy {
                let b = entries[i].1.duplicate();
                proof {
                    picked = picked.push(i as int);
                }
                r.push(b);
            }
            proof {
                assert forall|a: int|
                    0 <= a < i + 1 && (only_healthy ==> entries@[a].1.healthy) implies exists|p: int|
                    0 <= p < r@.len() && #[trigger] picked[p] == a by {
                    if a < i {
                        let p = choose|p: int| 0 <= p < old_picked.len() && #[trigger] old_picked[p] == a;
                        assert(picked[p] == a);
                    } else {
                        assert(picked[picked.len() - 1] == a);
                    }
                }
            }
            i = i + 1;
        }
        proof {
            assert forall|p: int| 0 <= p < r@.len() implies t.contains_key(#[trigger] r@[p].name@)
                && t[r@[p].name@] == r@[p] by {
                let a = picked[p];
                assert(t.contains_key(entries@[a].0@));
                assert(entry_ok(entries@[a].0@, t[entries@[a].0@]));
            }
            assert forall|p: int, q: int| 0 <= p < q < r@.len() implies #[trigger] r@[p].name@
                != #[trigger] r@[q].name@ by {
                let a = picked[p];
                let b = picked[q];
                assert(t.contains_key(entries@[a].0@));
                assert(entry_ok(entries@[a].0@, t[entries@[a].0@]));
                assert(t.contains_key(entries@[b].0@));
                assert(entry_ok(entries@[b].0@, t[entries@[b].0@]));
            }
            assert forall|k: Seq<char>|
                #[trigger] t.contains_key(k) && (only_healthy ==> t[k].healthy) implies exists|
                p: int,
            | 0 <= p < r@.len() && #[trigger] r@[p].name@ == k by {
                let a = choose|a: int| 0 <= a < n && #[trigger] entries@[a].0@ == k;
                assert(entries@[a].1 == t[k]);
                let p = choose|p: int| 0 <= p < r@.len() && #[trigger] picked[p] == a;
                assert(entry_ok(k, t[k]));
                assert(r@[p].name@ == k);
            }
        }
        r
    }

    /// The backend of this name, if there is one.
    pub fn get_backend(&self, name: &str) -> (r: Option<Backend>)
        ensures
            r == (if self.has(name@) { Some(self.table()[name@]) } else { None }),
    {
        backend_table_get(&self.backends, name)
    }

    /// Records a health mark made at `now` (milliseconds since the Unix
    /// epoch): sets the flag, stamps the time, and on a healthy mark clears
    /// the failure count. Unknown names are ignored.
    pub fn set_healthy(&mut self, name: &str, healthy: bool, now: i64)
        requires
            old(self).wf(),
        ensures
            final(self).wf(),
            old(self).has(name@) ==> final(self).table() == old(self).table().insert(
                name@,
                health_marked(old(self).table()[name@], healthy, now),
            ),
            !old(self).has(name@) ==> final(self).table() == old(self).table(),
    {
        match backend_table_get(&self.backends, name) {
            None => {},
            Some(b) => {
                let mut b = b;
                b.healthy = healthy;
                b.last_health_check = Some(now);
                if healthy {
                    b.consecutive_failures = 0;
                }
                let key = b.name.clone();
                proof {
                    assert(entry_ok(name@, old(self).table()[name@]));
                }
                backend_table_insert(&mut self.backends, key, b);
                proof {
                    assert(final(self).table()[name@] == b);
                    assert(final(self).table() =~= old(self).table().insert(name@, b));
                }
            },
        }
    }

    /// Counts one more failed health probe and returns the new count (zero
    /// for an unknown name).
    pub fn increment_consecutive_failures(&mut self, name: &str) -> (r: u32)
        requires
            old(self).wf(),
            old(self).has(name@) ==> old(self).table()[name@].consecutive_failures < u32::MAX,
        ensures
            final(self).wf(),
            old(self).has(name@) ==> {
                &&& r == old(self).table()[name@].consecutive_failures + 1
                &&& final(self).table() == old(self).table().insert(
                    name@,
                    Backend { consecutive_failures: r, ..old(self).table()[name@] },
                )
            },
            !old(self).has(name@) ==> r == 0 && final(self).table() == old(self).table(),
    {
        match backend_table_get(&self.backends, name) {
            None => 0,
            Some(b) => {
                let mut b = b;
                b.consecutive_failures = b.consecutive_failures + 1;
                let r = b.consecutive_failures;
                let key = b.name.clone();
                proof {
                    assert(entry_ok(name@, old(self).table()[name@]));
                }
                backend_table_insert(&mut self.backends, key, b);
                r
            },
        }
    }

    /// Clears the failure count of a backend; returns the new count, zero.
    pub fn reset_consecutive_failures(&mut self, name: &str) -> (r: u32)
        requires
            old(self).wf(),
        ensures
            final(self).wf(),
            r == 0,
            old(self).has(name@) ==> final(self).table() == old(self).table().insert(
                name@,
                Backend { consecutive_failures: 0, ..old(self).table()[name@] },
            ),
            !old(self).has(name@) ==> final(self).table() == old(self).table(),
    {
        match backend_table_get(&self.backends, name) {
            None => 0,
            Some(b) => {
                let mut b = b;
                b.consecutive_failures = 0;
                let r = b.consecutive_failures;
                let key = b.name.clone();
                proof {
                    assert(entry_ok(name@, old(self).table()[name@]));
                }
                backend_table_insert(&mut self.backends, key, b);
                r
            },
        }
    }

    /// Counts one more successful probe of a backend (the count stops at
    /// the largest `u32`) and returns the new count (zero for an unknown
    /// name).
    pub fn increment_consecutive_successes(&mut self, name: &str) -> (r: u32)
        requires
            old(self).wf(),
        ensures
            final(self).wf(),
            old(self).has(name@) ==> {
                &&& r == (if old(self).table()[name@].consecutive_successes == u32::MAX {
                    u32::MAX as int
                } else {
                    old(self).table()[name@].consecutive_successes + 1
                })
                &&& final(self).table() == old(self).table().insert(
                    name@,
                    Backend { consecutive_successes: r, ..old(self).table()[name@] },
                )
            },
            !old(self).has(name@) ==> r == 0 && final(self).table() == old(self).table(),
    {
        match backend_table_get(&self.backends, name) {
            None => 0,
            Some(b) => {
                let mut b = b;
                b.consecutive_successes = b.consecutive_successes.saturating_add(1);
                let r = b.consecutive_successes;
                let key = b.name.clone();
                proof {
                    assert(entry_ok(name@, old(self).table()[name@]));
                }
                backend_table_insert(&mut self.backends, key, b);
                r
            },
        }
    }

    /// Clears the success count of a backend; returns the new count, zero.
    pub fn reset_consecutive_successes(&mut self, name: &str) -> (r: u32)
        requires
            old(self).wf(),
        ensures
            final(self).wf(),
            r == 0,
            old(self).has(name@) ==> final(self).table() == old(self).table().insert(
                name@,
                Backend { consecutive_successes: 0, ..old(self).table()[name@] },
            ),
            !old(self).has(name@) ==> final(self).table() == old(self).table(),
    {
        match backend_table_get(&self.backends, name) {
            None => 0,
            Some(b) => {
                let mut b = b;
                b.consecutive_successes = 0;
                let key = b.name.clone();
                proof {
                    assert(entry_ok(name@, old(self).table()[name@]));
                }
                backend_table_insert(&mut self.backends, key, b);
                0
            },
        }
    }

    /// Counts a finished request: one more in total, one more failed when it
    /// did not succeed, and its time added to the sum (which stops at the
    /// largest `u64`).
    pub fn record_request(&mut self, name: &str, success: bool, response_us: u64)
        requires
            old(self).wf(),
            old(self).has(name@) ==> old(self).table()[name@].total_requests < u64::MAX,
        ensures
            final(self).wf(),
            old(self).has(name@) ==> final(self).table() == old(self).table().insert(
                name@,
                after_request(old(self).table()[name@], success, response_us),
            ),
            !old(self).has(name@) ==> final(self).table() == old(self).table(),
    {
        match backend_table_get(&self.backends, name) {
            None => {},
            Some(b) => {
                let mut b = b;
                proof {
                    assert(entry_ok(name@, old(self).table()[name@]));
                }
                b.total_requests = b.total_requests + 1;
                if !success {
                    b.failed_requests = b.failed_requests + 1;
                }
                b.total_response_us = b.total_response_us.saturating_add(response_us);
                let key = b.name.clone();
                backend_table_insert(&mut self.backends, key, b);
            },
        }
    }

    /// One more open connection to the backend.
    pub fn increment_connections(&mut self, name: &str)
        requires
            old(self).wf(),
            old(self).has(name@) ==> old(self).table()[name@].active_connections < u64::MAX,
        ensures
            final(self).wf(),
            old(self).has(name@) ==> final(self).table() == old(self).table().insert(
                name@,
                connection_opened(old(self).table()[name@]),
            ),
            !old(self).has(name@) ==> final(self).table() == old(self).table(),
    {
        match backend_table_get(&self.backends, name) {
            None => {},
            Some(b) => {
                let mut b = b;
                proof {
                    assert(entry_ok(name@, old(self).table()[name@]));
                }
                b.active_connections = b.active_connections + 1;
                let key = b.name.clone();
                backend_table_insert(&mut self.backends, key, b);
            },
        }
    }

    /// One open connection fewer; the count does not go below zero.
    pub fn decrement_connections(&mut self, name: &str)
        requires
            old(self).wf(),
        ensures
            final(self).wf(),
            old(self).has(name@) ==> final(self).table() == old(self).table().insert(
                name@,
                connection_closed(old(self).table()[name@]),
            ),
            !old(self).has(name@) ==> final(self).table() == old(self).table(),
    {
        match backend_table_get(&self.backends, name) {
            None => {},
            Some(b) => {
                let mut b = b;
                proof {
                    assert(entry_ok(name@, old(self).table()[name@]));
                }
                b.active_connections = b.active_connections.saturating_sub(1);
                let key = b.name.clone();
                backend_table_insert(&mut self.backends, key, b);
            },
        }
    }

    /// The report of every backend, each once.
    pub fn stats(&self) -> (r: Vec<BackendStats>)
        requires
            self.wf(),
        ensures
            exists|l: Seq<Backend>|
                #[trigger] is_listing(self.table(), l, false) && r@.len() == l.len() && forall|i: int|
                    0 <= i < l.len() ==> #[trigger] r@[i] == stats_of(l[i]),
            r@.len() == ordered_listing(self.table(), false).len(),
            forall|i: int|
                0 <= i < r@.len() ==> #[trigger] r@[i] == stats_of(ordered_listing(self.table(), false)[i]),
    {
        let all = self.get_all_backends();
        let mut r: Vec<BackendStats> = Vec::new();
        let n = all.len();
        let mut i: usize = 0;
        while i < n
            invariant
                n == all@.len(),
                i <= n,
                self.wf(),
                is_listing(self.table(), all@, false),
                r@.len() == i,
                forall|j: int| 0 <= j < i ==> #[trigger] r@[j] == stats_of(all@[j]),
            decreases n - i,
        {
            let b = &all[i];
            proof {
                assert(self.table().contains_key(all@[i as int].name@));
                assert(entry_ok(all@[i as int].name@, self.table()[all@[i as int].name@]));
            }
            let s = BackendStats {
                name: b.name.clone(),
                url: b.url.clone(),
                healthy: b.healthy,
                active_connections: b.active_connections,
                total_requests: b.total_requests,
                failed_requests: b.failed_requests,
                successful_requests: b.total_requests - b.failed_requests,
                total_response_us: b.total_response_us,
                weight: b.weight,
            };
            r.push(s);
            i = i + 1;
        }
        r
    }

    /// Whether every backend that a balancer may pick has room for one
    /// more open connection.
    pub fn healthy_connections_have_room(&self) -> (r: bool)
        requires
            self.wf(),
        ensures
            r == self.connections_have_room(),
    {
        let healthy = self.get_healthy_backends();
        let n = healthy.len();
        let mut i: usize = 0;
        while i < n
            invariant
                n == healthy@.len(),
                i <= n,
                is_listing(self.table(), healthy@, true),
                forall|j: int| 0 <= j < i ==> (#[trigger] healthy@[j]).active_connections < u64::MAX,
            decreases n - i,
        {
            if healthy[i].active_connections == u64::MAX {
                proof {
                    assert(self.table().contains_key(healthy@[i as int].name@));
                }
                return false;
            }
            i = i + 1;
        }
        proof {
            assert forall|k: Seq<char>|
                #[trigger] self.table().contains_key(k) && self.table()[k].healthy implies self.table()[k].active_connections
                < u64::MAX by {
                let j = choose|j: int| 0 <= j < healthy@.len() && #[trigger] healthy@[j].name@ == k;
                assert(healthy@[j].active_connections < u64::MAX);
            }
        }
        true
    }
}

} // verus!
