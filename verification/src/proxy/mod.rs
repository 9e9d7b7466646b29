//! The decisions of the proxy handler: which requests it leaves to the
//! dedicated routes, which backend takes a request, how the request's
//! headers change, and what is counted before and after forwarding.
pub mod forwarder;

use vstd::prelude::*;
use vstd::string::*;

use crate::backend::{after_request, connection_closed, connection_opened, Backend, BackendManager};
use crate::config::ProxyConfig;
use crate::error::ProxyError;
use crate::load_balancer::{is_healthy_member, none_healthy, policy_pick, Balancer, LoadBalancer};
use crate::text::{canonical_header_name, header_name_of, header_value_ok, same_text, valid_header_value};

verus! {

/// Requests that the proxy leaves to its own routes: a `GET` of
/// `/__health`, or anything for `/__stats`.
pub open spec fn is_dedicated(is_get: bool, path: Seq<char>) -> bool {
    (is_get && path == "/__health"@) || path == "/__stats"@
}

pub fn is_dedicated_route(is_get: bool, path: &str) -> (r: bool)
    ensures
        r == is_dedicated(is_get, path@),
{
    (is_get && same_text(path, "/__health")) || same_text(path, "/__stats")
}

/// The address a request is forwarded to: the backend's URL followed by the
/// request's URI.
pub fn backend_url(base: &str, uri: &str) -> (r: String)
    ensures
        r@ == base@ + uri@,
{
    let mut s = base.to_owned();
    s.append(uri);
    s
}

/// The `X-Forwarded-For` value sent on: the client's address, after the
/// incoming value and a comma when there is a non-empty one.
pub open spec fn forwarded_for(existing: Option<Seq<char>>, client_ip: Seq<char>) -> Seq<char> {
    match existing {
        Some(e) => if e.len() == 0 { client_ip } else { e + ", "@ + client_ip },
        None => client_ip,
    }
}

pub fn forwarded_for_value(existing: Option<&str>, client_ip: &str) -> (r: String)
    ensures
        r@ == forwarded_for(
            match existing { Some(e) => Some(e@), None => None },
            client_ip@,
        ),
{
    match existing {
        Some(e) => {
            if e.unicode_len() == 0 {
                client_ip.to_owned()
            } else {
                let mut s = e.to_owned();
                s.append(", ");
                s.append(client_ip);
                s
            }
        },
        None => client_ip.to_owned(),
    }
}

/// One change to the headers of a forwarded request, in lower-case name
/// form.
#[derive(Debug, PartialEq, Eq)]
pub enum HeaderEdit {
    Remove(String),
    Insert(String, String),
}

/// An edit as `(is_insert, name, value)`; a removal has an empty value.
pub open spec fn edit_view(e: HeaderEdit) -> (bool, Seq<char>, Seq<char>) {
    match e {
        HeaderEdit::Remove(n) => (false, n@, Seq::empty()),
        HeaderEdit::Insert(n, v) => (true, n@, v@),
    }
}

/// Removals of the configured headers to strip, skipping names that are
/// not valid header names.
pub open spec fn strip_plan(names: Seq<String>) -> Seq<(bool, Seq<char>, Seq<char>)>
    decreases names.len(),
{
    if names.len() == 0 {
        Seq::empty()
    } else {
        let prev = strip_plan(names.drop_last());
        match header_name_of(names.last()@) {
            Some(n) => prev.push((false, n, Seq::empty())),
            None => prev,
        }
    }
}

/// Law of the removals: every configured name that is a valid header name
/// is removed, in lower case, and nothing else: each edit of the removal
/// part is the removal of one of the configured names, and there are no
/// more of them than names.
pub proof fn lemma_strip_plan(names: Seq<String>)
    ensures
        forall|i: int|
            0 <= i < names.len() && #[trigger] header_name_of(names[i]@) is Some ==> strip_plan(names).contains(
                (false, header_name_of(names[i]@).unwrap(), Seq::<char>::empty()),
            ),
        forall|j: int|
            0 <= j < strip_plan(names).len() ==> !(#[trigger] strip_plan(names)[j]).0 && strip_plan(names)[j].2
                == Seq::<char>::empty() && exists|i: int|
                0 <= i < names.len() && #[trigger] header_name_of(names[i]@) == Some(strip_plan(names)[j].1),
        strip_plan(names).len() <= names.len(),
    decreases names.len(),
{
    if names.len() > 0 {
        let d = names.drop_last();
        lemma_strip_plan(d);
        let prev = strip_plan(d);
        let plan = strip_plan(names);
        assert forall|i: int|
            0 <= i < names.len() && #[trigger] header_name_of(names[i]@) is Some implies plan.contains(
                (false, header_name_of(names[i]@).unwrap(), Seq::<char>::empty()),
            ) by {
            let x = (false, header_name_of(names[i]@).unwrap(), Seq::<char>::empty());
            if i < names.len() - 1 {
                assert(d[i] == names[i]);
                assert(header_name_of(d[i]@) is Some);
                let k = choose|k: int| 0 <= k < prev.len() && prev[k] == x;
                assert(plan[k] == x);
            } else {
                assert(plan[plan.len() - 1] == x);
            }
        }
        assert forall|j: int| 0 <= j < plan.len() implies !(#[trigger] plan[j]).0 && plan[j].2 == Seq::<char>::empty()
            && exists|i: int| 0 <= i < names.len() && #[trigger] header_name_of(names[i]@) == Some(plan[j].1) by {
            if j < prev.len() {
                assert(plan[j] == prev[j]);
                let i = choose|i: int| 0 <= i < d.len() && #[trigger] header_name_of(d[i]@) == Some(prev[j].1);
                assert(d[i] == names[i]);
                assert(header_name_of(names[i]@) == Some(plan[j].1));
            } else {
                let i = names.len() - 1;
                assert(header_name_of(names[i]@) == Some(plan[j].1));
            }
        }
    }
}

/// Insertions of the configured extra headers, skipping pairs whose name or
/// value is not valid.
pub open spec fn add_plan(pairs: Seq<(String, String)>) -> Seq<(bool, Seq<char>, Seq<char>)>
    decreases pairs.len(),
{
    if pairs.len() == 0 {
        Seq::empty()
    } else {
        let prev = add_plan(pairs.drop_last());
        match header_name_of(pairs.last().0@) {
            Some(n) => if header_value_ok(pairs.last().1@) {
                prev.push((true, n, pairs.last().1@))
            } else {
                prev
            },
            None => prev,
        }
    }
}

/// Law of the configured insertions: every configured pair whose name and
/// value are valid is inserted, under its lower-case name, and nothing else:
/// each edit of this part inserts one of the configured pairs.
pub proof fn lemma_add_plan(pairs: Seq<(String, String)>)
    ensures
        forall|i: int|
            0 <= i < pairs.len() && #[trigger] header_name_of(pairs[i].0@) is Some && header_value_ok(pairs[i].1@)
                ==> add_plan(pairs).contains((true, header_name_of(pairs[i].0@).unwrap(), pairs[i].1@)),
        forall|j: int|
            0 <= j < add_plan(pairs).len() ==> (#[trigger] add_plan(pairs)[j]).0 && exists|i: int|
                0 <= i < pairs.len() && #[trigger] header_name_of(pairs[i].0@) == Some(add_plan(pairs)[j].1)
                    && pairs[i].1@ == add_plan(pairs)[j].2,
        add_plan(pairs).len() <= pairs.len(),
    decreases pairs.len(),
{
    if pairs.len() > 0 {
        let d = pairs.drop_last();
        lemma_add_plan(d);
        let prev = add_plan(d);
        let plan = add_plan(pairs);
        assert forall|i: int|
            0 <= i < pairs.len() && #[trigger] header_name_of(pairs[i].0@) is Some && header_value_ok(pairs[i].1@)
                implies plan.contains((true, header_name_of(pairs[i].0@).unwrap(), pairs[i].1@)) by {
            let x = (true, header_name_of(pairs[i].0@).unwrap(), pairs[i].1@);
            if i < pairs.len() - 1 {
                assert(d[i] == pairs[i]);
                assert(header_name_of(d[i].0@) is Some);
                let k = choose|k: int| 0 <= k < prev.len() && prev[k] == x;
                assert(plan[k] == x);
            } else {
                assert(plan[plan.len() - 1] == x);
            }
        }
        assert forall|j: int| 0 <= j < plan.len() implies (#[trigger] plan[j]).0 && exists|i: int|
            0 <= i < pairs.len() && #[trigger] header_name_of(pairs[i].0@) == Some(plan[j].1) && pairs[i].1@
                == plan[j].2 by {
            if j < prev.len() {
                assert(plan[j] == prev[j]);
                let i = choose|i: int|
                    0 <= i < d.len() && #[trigger] header_name_of(d[i].0@) == Some(prev[j].1) && d[i].1@ == prev[j].2;
                assert(d[i] == pairs[i]);
                assert(header_name_of(pairs[i].0@) == Some(plan[j].1));
            } else {
                let i = pairs.len() - 1;
                assert(header_name_of(pairs[i].0@) == Some(plan[j].1));
            }
        }
    }
}

/// Insertion of `name: value` when asked for and when the value is valid.
pub open spec fn optional_insert(wanted: bool, name: Seq<char>, value: Seq<char>) -> Seq<(bool, Seq<char>, Seq<char>)> {
    if wanted && header_value_ok(value) {
        seq![(true, name, value)]
    } else {
        Seq::empty()
    }
}

/// The proxy's own headers: `x-forwarded-for`, `x-real-ip` and `via`, each
/// when the configuration asks for it and its value is valid.
pub open spec fn proxy_plan(config: ProxyConfig, existing: Option<Seq<char>>, client_ip: Seq<char>) -> Seq<(bool, Seq<char>, Seq<char>)> {
    optional_insert(config.add_x_forwarded_for, "x-forwarded-for"@, forwarded_for(existing, client_ip))
        + optional_insert(config.add_x_real_ip, "x-real-ip"@, client_ip)
        + optional_insert(config.add_via_header, "via"@, config.via_value@)
}

/// All header edits of a forwarded request, in the order they apply: the
/// configured removals, the configured insertions, then the proxy's own
/// headers, which replace any of the same name.
pub open spec fn request_header_plan(config: ProxyConfig, existing: Option<Seq<char>>, client_ip: Seq<char>) -> Seq<(bool, Seq<char>, Seq<char>)> {
    strip_plan(config.strip_request_headers@) + add_plan(config.add_request_headers@) + proxy_plan(
        config,
        existing,
        client_ip,
    )
}

fn push_optional_insert(edits: &mut Vec<HeaderEdit>, wanted: bool, name: &str, value: String)
    ensures
        final(edits)@.map_values(|e: HeaderEdit| edit_view(e)) == old(edits)@.map_values(
            |e: HeaderEdit| edit_view(e),
        ) + optional_insert(wanted, name@, value@),
{
    let ghost before = edits@.map_values(|e: HeaderEdit| edit_view(e));
    if wanted && valid_header_value(value.as_str()) {
        edits.push(HeaderEdit::Insert(name.to_owned(), value));
    }
    proof {
        assert(edits@.map_values(|e: HeaderEdit| edit_view(e)) =~= before + optional_insert(
            wanted,
            name@,
            value@,
        ));
    }
}

/// The header edits for a request from `client_ip` that came with
/// `existing` as its `X-Forwarded-For` value.
pub fn plan_request_headers(config: &ProxyConfig, existing: Option<&str>, client_ip: &str) -> (r: Vec<HeaderEdit>)
    ensures
        r@.map_values(|e: HeaderEdit| edit_view(e)) == request_header_plan(
            *config,
            match existing { Some(e) => Some(e@), None => None },
            client_ip@,
        ),
        forall|i: int|
            0 <= i < config.strip_request_headers@.len() ==> (#[trigger] header_name_of(
                config.strip_request_headers@[i]@,
            ) matches Some(n) ==> r@.map_values(|e: HeaderEdit| edit_view(e)).contains(
                (false, n, Seq::<char>::empty()),
            )),
        forall|i: int|
            0 <= i < config.add_request_headers@.len() && header_value_ok(config.add_request_headers@[i].1@) ==> (
            #[trigger] header_name_of(config.add_request_headers@[i].0@) matches Some(n) ==> r@.map_values(
                |e: HeaderEdit| edit_view(e),
            ).contains((true, n, config.add_request_headers@[i].1@))),
        ({
            let ff = forwarded_for(match existing { Some(e) => Some(e@), None => None }, client_ip@);
            config.add_x_forwarded_for && header_value_ok(ff) ==> r@.map_values(|e: HeaderEdit| edit_view(e)).contains(
                (true, "x-forwarded-for"@, ff),
            )
        }),
        config.add_x_real_ip && header_value_ok(client_ip@) ==> r@.map_values(|e: HeaderEdit| edit_view(e)).contains(
            (true, "x-real-ip"@, client_ip@),
        ),
        config.add_via_header && header_value_ok(config.via_value@) ==> r@.map_values(|e: HeaderEdit| edit_view(e)).contains(
            (true, "via"@, config.via_value@),
        ),
{
    let mut edits: Vec<HeaderEdit> = Vec::new();
    let names = &config.strip_request_headers;
    let n = names.len();
    let mut i: usize = 0;
    proof {
        assert(names@.take(0) =~= Seq::<String>::empty());
        assert(edits@.map_values(|e: HeaderEdit| edit_view(e)) =~= strip_plan(names@.take(0)));
    }
    while i < n
        invariant
            n == names@.len(),
            i <= n,
            edits@.map_values(|e: HeaderEdit| edit_view(e)) == strip_plan(names@.take(i as int)),
        decreases n - i,
    {
        let ghost before = edits@.map_values(|e: HeaderEdit| edit_view(e));
        proof {
            assert(names@.take(i + 1).drop_last() =~= names@.take(i as int));
            assert(names@.take(i + 1).last() == names@[i as int]);
        }
        match canonical_header_name(names[i].as_str()) {
            Some(h) => {
                edits.push(HeaderEdit::Remove(h));
                proof {
                    assert(edits@.map_values(|e: HeaderEdit| edit_view(e)) =~= before.push(
                        edit_view(edits@.last()),
                    ));
                }
            },
            None => {},
        }
        i = i + 1;
    }
    proof {
        assert(names@.take(n as int) =~= names@);
    }
    let ghost strip_part = edits@.map_values(|e: HeaderEdit| edit_view(e));
    let pairs = &config.add_request_headers;
    let m = pairs.len();
    let mut j: usize = 0;
    proof {
        assert(pairs@.take(0) =~= Seq::<(String, String)>::empty());
        assert(edits@.map_values(|e: HeaderEdit| edit_view(e)) =~= strip_part + add_plan(pairs@.take(0)));
    }
    while j < m
        invariant
            m == pairs@.len(),
            j <= m,
            edits@.map_values(|e: HeaderEdit| edit_view(e)) == strip_part + add_plan(pairs@.take(j as int)),
        decreases m - j,
    {
        let ghost before = edits@.map_values(|e: HeaderEdit| edit_view(e));
        proof {
            assert(pairs@.take(j + 1).drop_last() =~= pairs@.take(j as int));
            assert(pairs@.take(j + 1).last() == pairs@[j as int]);
        }
        let pair = &pairs[j];
        match canonical_header_name(pair.0.as_str()) {
            Some(h) => {
                if valid_header_value(pair.1.as_str()) {
                    edits.push(HeaderEdit::Insert(h, pair.1.clone()));
                    proof {
                        assert(edits@.map_values(|e: HeaderEdit| edit_view(e)) =~= before.push(
                            edit_view(edits@.last()),
                        ));
                    }
                }
            },
            None => {},
        }
        j = j + 1;
    }
    proof {
        assert(pairs@.take(m as int) =~= pairs@);
    }
    let ghost added_part = edits@.map_values(|e: HeaderEdit| edit_view(e));
    push_optional_insert(
        &mut edits,
        config.add_x_forwarded_for,
        "x-forwarded-for",
        forwarded_for_value(existing, client_ip),
    );
    push_optional_insert(&mut edits, config.add_x_real_ip, "x-real-ip", client_ip.to_owned());
    push_optional_insert(&mut edits, config.add_via_header, "via", config.via_value.clone());
    proof {
        assert(edits@.map_values(|e: HeaderEdit| edit_view(e)) =~= request_header_plan(
            *config,
            match existing { Some(e) => Some(e@), None => None },
            client_ip@,
        ));
        let names = config.strip_request_headers@;
        let all = edits@.map_values(|e: HeaderEdit| edit_view(e));
        lemma_strip_plan(names);
        assert forall|i: int| 0 <= i < names.len() implies (#[trigger] header_name_of(names[i]@) matches Some(n)
            ==> all.contains((false, n, Seq::<char>::empty()))) by {
            if header_name_of(names[i]@) is Some {
                let x = (false, header_name_of(names[i]@).unwrap(), Seq::<char>::empty());
                let k = choose|k: int| 0 <= k < strip_plan(names).len() && strip_plan(names)[k] == x;
                assert(all[k] == x);
            }
        }
        let pairs = config.add_request_headers@;
        let sp = strip_plan(names);
        let ap = add_plan(pairs);
        lemma_add_plan(pairs);
        assert forall|i: int| 0 <= i < pairs.len() && header_value_ok(pairs[i].1@) implies (
        #[trigger] header_name_of(pairs[i].0@) matches Some(n) ==> all.contains((true, n, pairs[i].1@))) by {
            if header_name_of(pairs[i].0@) is Some {
                let x = (true, header_name_of(pairs[i].0@).unwrap(), pairs[i].1@);
                let k = choose|k: int| 0 <= k < ap.len() && ap[k] == x;
                assert(all[sp.len() + k] == x);
            }
        }
        let base: int = sp.len() as int + ap.len() as int;
        let ex = match existing { Some(e) => Some(e@), None => None };
        let ff = forwarded_for(ex, client_ip@);
        let o1 = optional_insert(config.add_x_forwarded_for, "x-forwarded-for"@, ff);
        let o2 = optional_insert(config.add_x_real_ip, "x-real-ip"@, client_ip@);
        if config.add_x_forwarded_for && header_value_ok(ff) {
            assert(all[base] == (true, "x-forwarded-for"@, ff));
        }
        if config.add_x_real_ip && header_value_ok(client_ip@) {
            assert(all[base + o1.len() as int] == (true, "x-real-ip"@, client_ip@));
        }
        if config.add_via_header && header_value_ok(config.via_value@) {
            assert(all[base + o1.len() as int + o2.len() as int] == (true, "via"@, config.via_value@));
        }
    }
    edits
}

/// Starts proxying a request: leaves the dedicated routes alone, asks the
/// balancer for a backend, and counts a connection opened to it. The backend
/// returned is the balancer's pick (`policy_pick`), and the balancer moves
/// on as that pick says.
pub fn start_request(manager: &mut BackendManager, balancer: &mut Balancer, is_get: bool, path: &str) -> (r: Result<Backend, ProxyError>)
    requires
        old(manager).wf(),
        !is_dedicated(is_get, path@) ==> old(manager).connections_have_room(),
        !is_dedicated(is_get, path@) ==> old(balancer).can_pick(&*old(manager)),
    ensures
        final(manager).wf(),
        is_dedicated(is_get, path@) ==> {
            &&& r matches Err(ProxyError::Internal(m)) && m@ == "handled by dedicated routes"@
            &&& final(manager).table() == old(manager).table()
            &&& *final(balancer) == *old(balancer)
        },
        !is_dedicated(is_get, path@) ==> policy_pick(
            *old(balancer),
            *final(balancer),
            old(manager).table(),
            match r {
                Ok(b) => Some(b),
                Err(_) => None,
            },
        ),
        !is_dedicated(is_get, path@) && none_healthy(old(manager).table()) ==> {
            &&& r matches Err(ProxyError::NoBackends)
            &&& final(manager).table() == old(manager).table()
        },
        !is_dedicated(is_get, path@) && !none_healthy(old(manager).table()) ==> {
            &&& r matches Ok(b)
            &&& is_healthy_member(old(manager).table(), b)
            &&& final(manager).table() == old(manager).table().insert(b.name@, connection_opened(b))
        },
{
    if is_dedicated_route(is_get, path) {
        return Err(ProxyError::Internal("handled by dedicated routes".to_owned()));
    }
    match balancer.next_backend(manager) {
        None => Err(ProxyError::NoBackends),
        Some(b) => {
            proof {
                assert(manager.table().contains_key(b.name@));
            }
            manager.increment_connections(b.name.as_str());
            Ok(b)
        },
    }
}

/// Finishes a proxied request: counts the connection closed and records the
/// request, whether it succeeded, and how long it took.
pub fn finish_request(manager: &mut BackendManager, name: &str, success: bool, elapsed_us: u64)
    requires
        old(manager).wf(),
        old(manager).has(name@) ==> old(manager).table()[name@].total_requests < u64::MAX,
    ensures
        final(manager).wf(),
        old(manager).has(name@) ==> final(manager).table() == old(manager).table().insert(
            name@,
            after_request(connection_closed(old(manager).table()[name@]), success, elapsed_us),
        ),
        !old(manager).has(name@) ==> final(manager).table() == old(manager).table(),
{
    manager.decrement_connections(name);
    manager.record_request(name, success, elapsed_us);
    proof {
        if old(manager).has(name@) {
            assert(manager.table() =~= old(manager).table().insert(
                name@,
                after_request(connection_closed(old(manager).table()[name@]), success, elapsed_us),
            ));
        }
    }
}

} // verus!
