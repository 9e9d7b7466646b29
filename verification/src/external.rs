//! Declarations of the outside types and calls the library relies on.
use vstd::prelude::*;

use crate::backend::Backend;
use crate::middleware::rate_limiter::TokenBucket;
use dashmap::DashMap;

verus! {

/// `dashmap::DashMap`, the concurrent hash map that holds the backend table
/// and the per-client token buckets.
#[verifier::external_type_specification]
#[verifier::external_body]
#[verifier::reject_recursive_types(K)]
#[verifier::reject_recursive_types(V)]
#[verifier::reject_recursive_types(S)]
pub struct ExDashMap<K, V, S>(dashmap::DashMap<K, V, S>);

/// What a backend table holds: each key, by its characters, to its backend.
pub uninterp spec fn backend_table(m: DashMap<String, Backend>) -> Map<Seq<char>, Backend>;

/// `DashMap::new`: the new map holds nothing.
#[verifier::external_body]
pub(crate) fn backend_table_new() -> (table: DashMap<String, Backend>)
    ensures
        backend_table(table).dom() == Set::<Seq<char>>::empty(),
{
    dashmap::DashMap::new()
}

/// `DashMap::insert`: afterwards the key maps to the given value and every
/// other key keeps its value.
#[verifier::external_body]
pub(crate) fn backend_table_insert(m: &mut DashMap<String, Backend>, key: String, value: Backend)
    ensures
        backend_table(*final(m)) == backend_table(*old(m)).insert(key@, value),
{
    m.insert(key, value);
}

/// `DashMap::get`: the value stored under the key, if any, handed out as a
/// copy made by `Backend::duplicate`.
#[verifier::external_body]
pub(crate) fn backend_table_get(m: &DashMap<String, Backend>, key: &str) -> (r: Option<Backend>)
    ensures
        r == (if backend_table(*m).contains_key(key@) {
            Some(backend_table(*m)[key@])
        } else {
            None
        }),
{
    m.get(key).map(|entry| entry.value().duplicate())
}

/// `DashMap::iter`, collected: every entry exactly once, in the order in
/// which the shards are walked, which is left unsaid.
#[verifier::external_body]
pub(crate) fn backend_table_entries(m: &DashMap<String, Backend>) -> (r: Vec<(String, Backend)>)
    ensures
        forall|i: int|
            0 <= i < r.len() ==> backend_table(*m).contains_key(#[trigger] r@[i].0@)
                && backend_table(*m)[r@[i].0@] == r@[i].1,
        forall|i: int, j: int| 0 <= i < j < r.len() ==> #[trigger] r@[i].0@ != #[trigger] r@[j].0@,
        forall|k: Seq<char>|
            #[trigger] backend_table(*m).contains_key(k) ==> exists|i: int|
                0 <= i < r.len() && #[trigger] r@[i].0@ == k,
{
    m.iter().map(|entry| (entry.key().clone(), entry.value().duplicate())).collect()
}

/// `String::push`: the character is appended at the end.
#[verifier::external_body]
pub(crate) fn push_char(s: &mut String, c: char)
    ensures
        final(s)@ == old(s)@.push(c),
{
    s.push(c);
}

/// What a bucket table holds: each client key to its token bucket.
pub uninterp spec fn bucket_table(m: DashMap<(u8, u128), TokenBucket>) -> Map<(u8, u128), TokenBucket>;

/// `DashMap::new`: the new map holds nothing.
#[verifier::external_body]
pub(crate) fn bucket_table_new() -> (table: DashMap<(u8, u128), TokenBucket>)
    ensures
        bucket_table(table).dom() == Set::<(u8, u128)>::empty(),
{
    dashmap::DashMap::new()
}

/// `DashMap::insert`: afterwards the key maps to the given value and every
/// other key keeps its value.
#[verifier::external_body]
pub(crate) fn bucket_table_insert(m: &mut DashMap<(u8, u128), TokenBucket>, key: (u8, u128), value: TokenBucket)
    ensures
        bucket_table(*final(m)) == bucket_table(*old(m)).insert(key, value),
{
    m.insert(key, value);
}

/// `DashMap::remove`: the value stored under the key, if any, taken out of
/// the map; every other key keeps its value.
#[verifier::external_body]
pub(crate) fn bucket_table_take(m: &mut DashMap<(u8, u128), TokenBucket>, key: (u8, u128)) -> (r: Option<TokenBucket>)
    ensures
        r == (if bucket_table(*old(m)).contains_key(key) {
            Some(bucket_table(*old(m))[key])
        } else {
            None
        }),
        bucket_table(*final(m)) == bucket_table(*old(m)).remove(key),
{
    m.remove(&key).map(|entry| entry.1)
}

/// `fastrand::u32(0..bound)`: a random number below `bound`, drawn from
/// the thread's generator. The call panics on an empty range, so `bound`
/// must be positive.
#[verifier::external_body]
pub(crate) fn random_below(bound: u32) -> (r: u32)
    requires
        bound > 0,
    ensures
        r < bound,
{
    fastrand::u32(0..bound)
}

} // verus!
