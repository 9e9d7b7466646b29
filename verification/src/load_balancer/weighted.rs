use vstd::prelude::*;

use crate::backend::{is_listing, ordered_listing, Backend, BackendManager};
use crate::external::random_below;
use crate::load_balancer::{is_healthy_member, lemma_listing_empty, none_healthy, LoadBalancer};

verus! {

/// The sum of the weights of a list of backends.
pub open spec fn weight_sum(l: Seq<Backend>) -> nat
    decreases l.len(),
{
    if l.len() == 0 {
        0
    } else {
        l[0].weight as nat + weight_sum(l.drop_first())
    }
}

/// `o` moved on by `k` positions.
pub open spec fn shifted(o: Option<int>, k: int) -> Option<int> {
    match o {
        Some(i) => Some(i + k),
        None => None,
    }
}

/// The index that draw `r` lands on when the draw is walked down the list,
/// each backend taking its weight's worth of draws; `None` when the draw
/// runs past the end.
pub open spec fn draw_index(l: Seq<Backend>, r: int) -> Option<int>
    decreases l.len(),
{
    if l.len() == 0 {
        None
    } else if r < l[0].weight {
        Some(0)
    } else {
        shifted(draw_index(l.drop_first(), r - l[0].weight), 1)
    }
}

/// The backend that draw `r` selects: the one it lands on, or the last one
/// when it runs past the end; `None` for an empty list.
pub open spec fn weighted_choice(l: Seq<Backend>, r: int) -> Option<Backend> {
    if l.len() == 0 {
        None
    } else {
        match draw_index(l, r) {
            Some(i) => Some(l[i]),
            None => Some(l.last()),
        }
    }
}

/// Every listing of the healthy backends has a total weight that fits in a
/// `u32`.
pub open spec fn healthy_weight_fits(m: &BackendManager) -> bool {
    forall|l: Seq<Backend>| #[trigger] is_listing(m.table(), l, true) ==> weight_sum(l) <= u32::MAX
}

proof fn lemma_weight_sum_remove(s: Seq<Backend>, j: int)
    requires
        0 <= j < s.len(),
    ensures
        weight_sum(s) == weight_sum(s.remove(j)) + s[j].weight,
    decreases j,
{
    if j == 0 {
        assert(s.remove(0) =~= s.drop_first());
    } else {
        assert(s.remove(j).drop_first() =~= s.drop_first().remove(j - 1));
        assert(s.remove(j)[0] == s[0]);
        lemma_weight_sum_remove(s.drop_first(), j - 1);
    }
}

/// Two listings of the same healthy backends weigh the same.
pub proof fn lemma_listing_weight(t: Map<Seq<char>, Backend>, l1: Seq<Backend>, l2: Seq<Backend>)
    requires
        is_listing(t, l1, true),
        is_listing(t, l2, true),
    ensures
        weight_sum(l1) == weight_sum(l2),
    decreases l1.len(),
{
    if l1.len() == 0 {
        lemma_listing_empty(t, l1);
        lemma_listing_empty(t, l2);
    } else {
        let x = l1[0];
        let k = x.name@;
        assert(t.contains_key(k));
        let j = choose|j: int| 0 <= j < l2.len() && #[trigger] l2[j].name@ == k;
        let t2 = t.remove(k);
        let a = l1.drop_first();
        let b = l2.remove(j);
        assert forall|i: int| 0 <= i < a.len() implies {
            &&& t2.contains_key(#[trigger] a[i].name@)
            &&& t2[a[i].name@] == a[i]
            &&& a[i].healthy
        } by {
            assert(a[i] == l1[i + 1]);
            assert(l1[0].name@ != l1[i + 1].name@);
        }
        assert forall|p: int, q: int| 0 <= p < q < a.len() implies #[trigger] a[p].name@ != #[trigger] a[q].name@ by {
            assert(a[p] == l1[p + 1]);
            assert(a[q] == l1[q + 1]);
        }
        assert forall|kk: Seq<char>| #[trigger] t2.contains_key(kk) && t2[kk].healthy implies exists|i: int|
            0 <= i < a.len() && #[trigger] a[i].name@ == kk by {
            assert(t.contains_key(kk));
            let i = choose|i: int| 0 <= i < l1.len() && #[trigger] l1[i].name@ == kk;
            assert(i != 0);
            assert(a[i - 1] == l1[i]);
        }
        assert(is_listing(t2, a, true));
        assert forall|i: int| 0 <= i < b.len() implies {
            &&& t2.contains_key(#[trigger] b[i].name@)
            &&& t2[b[i].name@] == b[i]
            &&& b[i].healthy
        } by {
            if i < j {
                assert(b[i] == l2[i]);
                assert(l2[i].name@ != l2[j].name@);
            } else {
                assert(b[i] == l2[i + 1]);
                assert(l2[j].name@ != l2[i + 1].name@);
            }
        }
        assert forall|p: int, q: int| 0 <= p < q < b.len() implies #[trigger] b[p].name@ != #[trigger] b[q].name@ by {
            let pp = if p < j { p } else { p + 1 };
            let qq = if q < j { q } else { q + 1 };
            assert(b[p] == l2[pp]);
            assert(b[q] == l2[qq]);
        }
        assert forall|kk: Seq<char>| #[trigger] t2.contains_key(kk) && t2[kk].healthy implies exists|i: int|
            0 <= i < b.len() && #[trigger] b[i].name@ == kk by {
            assert(t.contains_key(kk));
            let i = choose|i: int| 0 <= i < l2.len() && #[trigger] l2[i].name@ == kk;
            assert(i != j);
            if i < j {
                assert(b[i] == l2[i]);
            } else {
                assert(b[i - 1] == l2[i]);
            }
        }
        assert(is_listing(t2, b, true));
        lemma_listing_weight(t2, a, b);
        lemma_weight_sum_remove(l2, j);
        assert(l2[j] == t[k]);
    }
}

/// Law of the weighted policy: a draw below the total weight lands on the
/// backend whose share of the draws holds it. Backend `i` takes exactly
/// the draws from the sum of the weights before it up to that sum plus its
/// own weight, so over all draws below the total each backend is chosen for
/// as many of them as its weight, and a backend of weight zero never.
pub proof fn lemma_weighted_share(l: Seq<Backend>, r: int)
    requires
        0 <= r < weight_sum(l),
    ensures
        draw_index(l, r) matches Some(i) && 0 <= i < l.len() && weight_sum(l.take(i)) <= r
            < weight_sum(l.take(i)) + l[i].weight && l[i].weight > 0,
        weighted_choice(l, r) == Some(l[draw_index(l, r).unwrap()]),
    decreases l.len(),
{
    if r < l[0].weight {
        assert(l.take(0) =~= Seq::<Backend>::empty());
    } else {
        lemma_weighted_share(l.drop_first(), r - l[0].weight);
        let i = draw_index(l.drop_first(), r - l[0].weight).unwrap();
        assert(l.take(i + 1).drop_first() =~= l.drop_first().take(i));
        assert(l.take(i + 1)[0] == l[0]);
        assert(l[i + 1] == l.drop_first()[i]);
    }
}

/// Law of the weighted policy, the other way round: every draw in backend
/// `i`'s share (from the sum of the weights before it, for its weight's
/// worth of draws) selects backend `i`. With `lemma_weighted_share`, the
/// draws below the total that select backend `i` are exactly its share, so
/// a draw uniform below the total selects it with chance weight over total.
pub proof fn lemma_weighted_share_selects(l: Seq<Backend>, i: int, r: int)
    requires
        0 <= i < l.len(),
        weight_sum(l.take(i)) <= r < weight_sum(l.take(i)) + l[i].weight,
    ensures
        draw_index(l, r) == Some(i),
        weighted_choice(l, r) == Some(l[i]),
    decreases i,
{
    if i == 0 {
        assert(l.take(0) =~= Seq::<Backend>::empty());
    } else {
        assert(l.take(i).drop_first() =~= l.drop_first().take(i - 1));
        assert(l.take(i)[0] == l[0]);
        assert(l.drop_first()[i - 1] == l[i]);
        lemma_weighted_share_selects(l.drop_first(), i - 1, r - l[0].weight);
    }
}

/// Sends each request to a healthy backend drawn at random, each with a
/// chance in proportion to its weight.
#[derive(Debug)]
pub struct WeightedRoundRobin {}

impl WeightedRoundRobin {
    pub fn new() -> (r: Self) {
        WeightedRoundRobin {}
    }

    /// The sum of the weights.
    pub fn total_weight(l: &Vec<Backend>) -> (r: u32)
        requires
            weight_sum(l@) <= u32::MAX,
        ensures
            r == weight_sum(l@),
    {
        let n = l.len();
        let mut sum: u32 = 0;
        let mut i: usize = 0;
        proof {
            assert(l@.subrange(0, n as int) =~= l@);
        }
        while i < n
            invariant
                n == l@.len(),
                i <= n,
                weight_sum(l@) <= u32::MAX,
                sum + weight_sum(l@.subrange(i as int, n as int)) == weight_sum(l@),
            decreases n - i,
        {
            proof {
                assert(l@.subrange(i as int, n as int).drop_first() =~= l@.subrange(i + 1, n as int));
            }
            sum = sum + l[i].weight;
            i = i + 1;
        }
        sum
    }

    /// Whether the healthy weights of the table sum to at most `u32::MAX`.
    pub fn weights_fit(manager: &BackendManager) -> (r: bool)
        requires
            manager.wf(),
        ensures
            r == healthy_weight_fits(manager),
    {
        let l = manager.get_healthy_backends();
        let n = l.len();
        let mut sum: u64 = 0;
        let mut i: usize = 0;
        proof {
            assert(l@.subrange(0, n as int) =~= l@);
        }
        while i < n
            invariant
                n == l@.len(),
                i <= n,
                sum <= u32::MAX,
                manager.wf(),
                is_listing(manager.table(), l@, true),
                sum + weight_sum(l@.subrange(i as int, n as int)) == weight_sum(l@),
            decreases n - i,
        {
            proof {
                assert(l@.subrange(i as int, n as int).drop_first() =~= l@.subrange(i + 1, n as int));
            }
            sum = sum + l[i].weight as u64;
            i = i + 1;
            if sum > 0xffff_ffff {
                proof {
                    assert(!healthy_weight_fits(manager)) by {
                        assert(is_listing(manager.table(), l@, true));
                    }
                }
                return false;
            }
        }
        proof {
            assert(l@.subrange(n as int, n as int) =~= Seq::<Backend>::empty());
            assert forall|l2: Seq<Backend>| #[trigger] is_listing(manager.table(), l2, true) implies weight_sum(l2)
                <= u32::MAX by {
                lemma_listing_weight(manager.table(), l@, l2);
            }
        }
        true
    }

    /// The backend that draw `r` selects.
    pub fn pick(healthy: &Vec<Backend>, r: u32) -> (b: Option<Backend>)
        ensures
            b == weighted_choice(healthy@, r as int),
    {
        let n = healthy.len();
        if n == 0 {
            return None;
        }
        let mut rest: u32 = r;
        let mut i: usize = 0;
        proof {
            assert(healthy@.subrange(0, n as int) =~= healthy@);
        }
        while i < n
            invariant
                n == healthy@.len(),
                n > 0,
                i <= n,
                draw_index(healthy@, r as int) == shifted(
                    draw_index(healthy@.subrange(i as int, n as int), rest as int),
                    i as int,
                ),
            decreases n - i,
        {
            proof {
                assert(healthy@.subrange(i as int, n as int).drop_first() =~= healthy@.subrange(
                    i + 1,
                    n as int,
                ));
                assert(healthy@.subrange(i as int, n as int)[0] == healthy@[i as int]);
            }
            if rest < healthy[i].weight {
                return Some(healthy[i].duplicate());
            }
            rest = rest - healthy[i].weight;
            i = i + 1;
        }
        proof {
            assert(healthy@.subrange(n as int, n as int) =~= Seq::<Backend>::empty());
        }
        Some(healthy[n - 1].duplicate())
    }
}

impl LoadBalancer for WeightedRoundRobin {
    open spec fn can_pick(&self, manager: &BackendManager) -> bool {
        healthy_weight_fits(manager)
    }

    open spec fn policy_name(&self) -> Seq<char> {
        "weighted"@
    }

    /// With a total healthy weight of zero, the first backend of some
    /// listing; otherwise the backend that some draw below the total
    /// selects from some listing.
    fn next_backend(&mut self, manager: &BackendManager) -> (r: Option<Backend>)
        ensures
            r is Some ==> exists|l: Seq<Backend>|
                #[trigger] is_listing(manager.table(), l, true) && l.len() > 0 && (if weight_sum(l) == 0 {
                    r == Some(l[0])
                } else {
                    exists|d: int| 0 <= d < weight_sum(l) && r == #[trigger] weighted_choice(l, d)
                }),
            r is None <==> ordered_listing(manager.table(), true).len() == 0,
            r is Some ==> ({
                let l = ordered_listing(manager.table(), true);
                if weight_sum(l) == 0 {
                    r == Some(l[0])
                } else {
                    exists|d: int| 0 <= d < weight_sum(l) && r == #[trigger] weighted_choice(l, d)
                }
            }),
    {
        let healthy = manager.get_healthy_backends();
        proof {
            lemma_listing_empty(manager.table(), healthy@);
            assert(is_listing(manager.table(), healthy@, true));
        }
        if healthy.len() == 0 {
            return None;
        }
        let total = WeightedRoundRobin::total_weight(&healthy);
        if total == 0 {
            return Some(healthy[0].duplicate());
        }
        let d = random_below(total);
        let r = WeightedRoundRobin::pick(&healthy, d);
        proof {
            lemma_weighted_share(healthy@, d as int);
            assert(r == weighted_choice(healthy@, d as int));
        }
        r
    }

    fn name(&self) -> (r: &'static str) {
        "weighted"
    }
}

} // verus!
