use vstd::prelude::*;

use crate::backend::{is_listing, ordered_listing, Backend, BackendManager};
use crate::load_balancer::{is_healthy_member, lemma_listing_empty, none_healthy, LoadBalancer};

verus! {

/// The backend that position `index` selects from a non-empty list.
pub open spec fn round_robin_choice(l: Seq<Backend>, index: int) -> Backend {
    l[index % (l.len() as int)]
}

/// One round-robin pick from table `t`, the position going from `p0` to
/// `p1` and the pick being `r`: with `l` the healthy backends in name order
/// (a listing of them), `None` with the position kept when `l` is empty,
/// and otherwise `l[p0 mod |l|]` with the position moved on by one.
pub open spec fn round_robin_step(p0: usize, p1: usize, t: Map<Seq<char>, Backend>, r: Option<Backend>) -> bool {
    let l = ordered_listing(t, true);
    &&& is_listing(t, l, true)
    &&& (l.len() == 0 ==> r is None && p1 == p0)
    &&& (l.len() > 0 ==> r == Some(l[(p0 as int) % (l.len() as int)]) && p1 == p0.wrapping_add(1))
}

/// Law of round robin over successive requests: `n` successive picks from
/// an unchanged table with `n > 0` healthy backends, starting at position
/// `p` (at least `n` below the top of `usize`), pick the healthy backends in
/// turn: the `k`th pick is the backend at `(p + k) mod n` in name order, no
/// two of the `n` picks are the same backend, and every healthy backend is
/// picked once.
pub proof fn lemma_round_robin_turns(t: Map<Seq<char>, Backend>, ps: Seq<usize>, rs: Seq<Option<Backend>>)
    requires
        ordered_listing(t, true).len() > 0,
        ps.len() == ordered_listing(t, true).len() + 1,
        rs.len() == ordered_listing(t, true).len(),
        forall|k: int| #![trigger rs[k]] 0 <= k < rs.len() ==> round_robin_step(ps[k], ps[k + 1], t, rs[k]),
        ps[0] + ordered_listing(t, true).len() <= usize::MAX,
    ensures
        forall|k: int|
            0 <= k < rs.len() ==> #[trigger] rs[k] == Some(
                ordered_listing(t, true)[(ps[0] + k) % (ordered_listing(t, true).len() as int)],
            ),
        forall|k1: int, k2: int| 0 <= k1 < rs.len() && 0 <= k2 < rs.len() && k1 != k2 ==> #[trigger] rs[k1] != #[trigger] rs[k2],
        forall|key: Seq<char>|
            #[trigger] t.contains_key(key) && t[key].healthy ==> exists|k: int| 0 <= k < rs.len() && rs[k] == Some(t[key]),
{
    let l = ordered_listing(t, true);
    let n = l.len() as int;
    let p = ps[0] as int;
    assert(round_robin_step(ps[0], ps[1], t, rs[0]));
    assert(is_listing(t, l, true));
    assert forall|k: int| 0 <= k <= n implies #[trigger] ps[k] == p + k by {
        lemma_positions(t, ps, rs, k);
    }
    assert forall|k: int| 0 <= k < rs.len() implies #[trigger] rs[k] == Some(l[(p + k) % n]) by {
        assert(round_robin_step(ps[k], ps[k + 1], t, rs[k]));
        assert(ps[k] == p + k);
    }
    assert forall|k1: int, k2: int| 0 <= k1 < rs.len() && 0 <= k2 < rs.len() && k1 != k2 implies #[trigger] rs[k1]
        != #[trigger] rs[k2] by {
        let j1 = slot(p, k1, n);
        let j2 = slot(p, k2, n);
        vstd::arithmetic::div_mod::lemma_mod_pos_bound(p + k1, n);
        vstd::arithmetic::div_mod::lemma_mod_pos_bound(p + k2, n);
        lemma_round_robin_cycles(l, p, j1);
        if j1 == j2 {
            assert(k1 == (j1 + n - p % n) % n);
            assert(k2 == (j1 + n - p % n) % n);
        }
        assert(j1 != j2);
        if j1 < j2 {
            assert(l[j1].name@ != l[j2].name@);
        } else {
            assert(l[j2].name@ != l[j1].name@);
        }
    }
    assert forall|key: Seq<char>| #[trigger] t.contains_key(key) && t[key].healthy implies exists|k: int|
        0 <= k < rs.len() && rs[k] == Some(t[key]) by {
        let j = choose|j: int| 0 <= j < l.len() && #[trigger] l[j].name@ == key;
        lemma_round_robin_cycles(l, p, j);
        let k = (j + n - p % n) % n;
        assert(slot(p, k, n) == j);
        assert(rs[k] == Some(l[j]));
    }
}

proof fn lemma_positions(t: Map<Seq<char>, Backend>, ps: Seq<usize>, rs: Seq<Option<Backend>>, k: int)
    requires
        ordered_listing(t, true).len() > 0,
        ps.len() == rs.len() + 1,
        forall|k: int| #![trigger rs[k]] 0 <= k < rs.len() ==> round_robin_step(ps[k], ps[k + 1], t, rs[k]),
        ps[0] + rs.len() <= usize::MAX,
        0 <= k <= rs.len(),
    ensures
        ps[k] == ps[0] + k,
    decreases k,
{
    if k > 0 {
        lemma_positions(t, ps, rs, k - 1);
        assert(round_robin_step(ps[k - 1], ps[k], t, rs[k - 1]));
    }
}

/// Cycles through the healthy backends, one step per request.
#[derive(Debug)]
pub struct RoundRobin {
    index: usize,
}

impl RoundRobin {
    /// The position of the next pick.
    pub closed spec fn position(&self) -> usize {
        self.index
    }

    pub fn new() -> (r: Self)
        ensures
            r.position() == 0,
    {
        RoundRobin { index: 0 }
    }

    /// The backend at `index`, counted round the list; `None` for an empty
    /// list.
    pub fn pick(healthy: &Vec<Backend>, index: usize) -> (r: Option<Backend>)
        ensures
            healthy@.len() == 0 ==> r is None,
            healthy@.len() > 0 ==> r == Some(round_robin_choice(healthy@, index as int)),
    {
        if healthy.len() == 0 {
            return None;
        }
        let i = index % healthy.len();
        Some(healthy[i].duplicate())
    }
}

impl RoundRobin {
    /// The next pick from the given list of healthy backends: the backend at
    /// the current position, counted round the list, after which the
    /// position moves on by one (wrapping at the top of `usize`); `None`,
    /// with the position kept, for an empty list.
    pub fn next_from(&mut self, healthy: &Vec<Backend>) -> (r: Option<Backend>)
        ensures
            healthy@.len() == 0 ==> r is None && final(self).position() == old(self).position(),
            healthy@.len() > 0 ==> r == Some(round_robin_choice(healthy@, old(self).position() as int))
                && final(self).position() == old(self).position().wrapping_add(1),
    {
        if healthy.len() == 0 {
            return None;
        }
        let idx = self.index;
        self.index = self.index.wrapping_add(1);
        RoundRobin::pick(healthy, idx)
    }
}

impl LoadBalancer for RoundRobin {
    open spec fn can_pick(&self, manager: &BackendManager) -> bool {
        true
    }

    open spec fn policy_name(&self) -> Seq<char> {
        "round_robin"@
    }

    /// The healthy backend at the current position of the listing of the
    /// healthy backends in name order (`ordered_listing`, the one listing
    /// that `get_healthy_backends` gives for the table); the position then
    /// moves on by one (wrapping at the top of `usize`) unless nothing was
    /// healthy.
    fn next_backend(&mut self, manager: &BackendManager) -> (r: Option<Backend>)
        ensures
            none_healthy(manager.table()) ==> final(self).position() == old(self).position(),
            !none_healthy(manager.table()) ==> {
                &&& final(self).position() == old(self).position().wrapping_add(1)
                &&& exists|l: Seq<Backend>|
                    #[trigger] is_listing(manager.table(), l, true) && l.len() > 0 && r == Some(
                        round_robin_choice(l, old(self).position() as int),
                    )
                &&& r == Some(round_robin_choice(ordered_listing(manager.table(), true), old(self).position() as int))
            },
            round_robin_step(old(self).position(), final(self).position(), manager.table(), r),
    {
        let healthy = manager.get_healthy_backends();
        proof {
            lemma_listing_empty(manager.table(), healthy@);
        }
        let r = self.next_from(&healthy);
        proof {
            if healthy@.len() > 0 {
                assert(r == Some(round_robin_choice(healthy@, old(self).position() as int)));
            }
        }
        r
    }

    fn name(&self) -> (r: &'static str) {
        "round_robin"
    }
}

/// The slot of the list of `n` that position `start + u` lands on.
pub open spec fn slot(start: int, u: int, n: int) -> int {
    (start + u) % n
}

/// Over `n` consecutive positions starting anywhere, round robin on a list
/// of `n` backends picks each of them exactly once: the `j`th is picked at
/// offset `(j + n - start mod n) mod n`, and at no other of the `n` offsets.
pub proof fn lemma_round_robin_cycles(l: Seq<Backend>, start: int, j: int)
    requires
        l.len() > 0,
        start >= 0,
        0 <= j < l.len(),
    ensures
        ({
            let n = l.len() as int;
            let t = (j + n - start % n) % n;
            &&& 0 <= t < n
            &&& slot(start, t, n) == j
            &&& round_robin_choice(l, start + t) == l[j]
            &&& forall|u: int| 0 <= u < n && #[trigger] slot(start, u, n) == j ==> u == t
        }),
{
    let n = l.len() as int;
    let s = start % n;
    vstd::arithmetic::div_mod::lemma_mod_pos_bound(start, n);
    let t = (j + n - s) % n;
    vstd::arithmetic::div_mod::lemma_mod_pos_bound(j + n - s, n);
    vstd::arithmetic::div_mod::lemma_small_mod(t as nat, n as nat);
    vstd::arithmetic::div_mod::lemma_add_mod_noop(start, t, n);
    vstd::arithmetic::div_mod::lemma_add_mod_noop_right(s, j + n - s, n);
    assert(s + (j + n - s) == n * 1 + j);
    vstd::arithmetic::div_mod::lemma_mod_multiples_vanish(1, j, n);
    vstd::arithmetic::div_mod::lemma_small_mod(j as nat, n as nat);
    assert((start + t) % n == j);
    assert forall|u: int| 0 <= u < n && #[trigger] slot(start, u, n) == j implies u == t by {
        vstd::arithmetic::div_mod::lemma_fundamental_div_mod(start + u, n);
        vstd::arithmetic::div_mod::lemma_fundamental_div_mod(start + t, n);
        let qa = (start + u) / n;
        let qb = (start + t) / n;
        vstd::arithmetic::mul::lemma_mul_is_distributive_sub(n, qa, qb);
        vstd::arithmetic::mul::lemma_mul_is_distributive_sub(n, qb, qa);
        if u >= t {
            assert(u - t == n * (qa - qb) + 0);
            vstd::arithmetic::div_mod::lemma_mod_multiples_vanish(qa - qb, 0, n);
            vstd::arithmetic::div_mod::lemma_small_mod((u - t) as nat, n as nat);
            vstd::arithmetic::div_mod::lemma_small_mod(0, n as nat);
        } else {
            assert(t - u == n * (qb - qa) + 0);
            vstd::arithmetic::div_mod::lemma_mod_multiples_vanish(qb - qa, 0, n);
            vstd::arithmetic::div_mod::lemma_small_mod((t - u) as nat, n as nat);
            vstd::arithmetic::div_mod::lemma_small_mod(0, n as nat);
        }
    }
}

/// The position after `k` picks from a non-empty list, starting at `p`.
pub open spec fn position_after(p: usize, k: nat) -> usize
    decreases k,
{
    if k == 0 {
        p
    } else {
        position_after(p, (k - 1) as nat).wrapping_add(1)
    }
}

proof fn lemma_position_after(p: usize, k: nat)
    requires
        p + k <= usize::MAX,
    ensures
        position_after(p, k) == p + k,
    decreases k,
{
    if k > 0 {
        lemma_position_after(p, (k - 1) as nat);
    }
}

/// Law of round robin over successive calls: `n` successive picks from the
/// same list of `n` backends, starting at position `p` (below the top of
/// `usize` by at least `n`), pick `l[(p + k) mod n]` at the `k`th call, and
/// so each backend of the list exactly once.
#[verifier::rlimit(100)]
pub proof fn lemma_round_robin_calls(l: Seq<Backend>, p: usize)
    requires
        l.len() > 0,
        p + l.len() <= usize::MAX,
    ensures
        forall|k: nat|
            k < l.len() ==> #[trigger] round_robin_choice(l, position_after(p, k) as int) == l[(p + k) % (
            l.len() as int)],
        forall|j: int|
            #![trigger l[j]]
            0 <= j < l.len() ==> exists|k: nat|
                k < l.len() && #[trigger] round_robin_choice(l, position_after(p, k) as int) == l[j]
                    && slot(p as int, k as int, l.len() as int) == j,
        forall|k: nat|
            k < l.len() ==> k == (#[trigger] slot(p as int, k as int, l.len() as int) + l.len() - (p as int) % (
            l.len() as int)) % (l.len() as int),
{
    let n = l.len() as int;
    assert forall|k: nat| k < l.len() implies #[trigger] round_robin_choice(l, position_after(p, k) as int)
        == l[(p + k) % n] by {
        lemma_position_after(p, k);
    }
    assert forall|j: int| #![trigger l[j]] 0 <= j < l.len() implies exists|k: nat|
        k < l.len() && #[trigger] round_robin_choice(l, position_after(p, k) as int) == l[j] && slot(
            p as int,
            k as int,
            n,
        ) == j by {
        lemma_round_robin_cycles(l, p as int, j);
        let t = (j + n - (p as int) % n) % n;
        let k = t as nat;
        lemma_position_after(p, k);
        assert(round_robin_choice(l, position_after(p, k) as int) == l[j]);
        assert(slot(p as int, k as int, n) == j);
    }
    assert forall|k: nat| k < l.len() implies k == (#[trigger] slot(p as int, k as int, n) + n - (p as int) % n)
        % n by {
        let j = slot(p as int, k as int, n);
        vstd::arithmetic::div_mod::lemma_mod_pos_bound(p + k, n);
        lemma_round_robin_cycles(l, p as int, j);
    }
}

} // verus!
