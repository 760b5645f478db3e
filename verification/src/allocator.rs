//! Port allocation — walks 20000–32767 for a port that is unclaimed in the
//! registry (on the same protocol) and free on the operating system.
//!
//! Allocation is idempotent: a service already registered in the project
//! keeps its port, whatever protocol is asked for. Whether a port is free
//! on the operating system is asked of a probe handed in by the caller;
//! the contracts state what holds for every answer the probe gives.

use std::collections::HashSet;

use vstd::prelude::*;

use crate::error::SpoutError;
use crate::protocol::Protocol;
use crate::registry::Registry;

verus! {

broadcast use vstd::std_specs::hash::group_hash_axioms;

pub const BASE_PORT: u16 = 20_000;

pub const MAX_PORT: u16 = 32_767;

/// Which ports are claimed on `protocol`, as a table indexed by port.
fn claimed_table(r: &Registry, protocol: Protocol) -> (t: Vec<bool>)
    ensures
        t@.len() == 65536,
        forall|p: u16| #[trigger] t@[p as int] == r.claims(p, protocol),
{
    proof {
        use_type_invariant(&r.projects);
    }
    let mut t: Vec<bool> = vec![false; 65536];
    let ps = r.projects.entries();
    let mut i: usize = 0;
    while i < ps.len()
        invariant
            ps@ == r.projects.items(),
            r.projects.wf(),
            i <= ps@.len(),
            t@.len() == 65536,
            forall|p: u16| #[trigger] t@[p as int] ==> r.claims(p, protocol),
            forall|a: int, s: Seq<char>| 0 <= a < i ==> (#[trigger] ps@[a].1.lookup(s) matches Some(e) ==> (e.protocol == protocol ==> t@[e.port as int])),
        decreases ps@.len() - i,
    {
        let services = &ps[i].1;
        proof {
            use_type_invariant(services);
            r.projects.lemma_lookup_at(i as int);
        }
        let ss = services.entries();
        let mut j: usize = 0;
        while j < ss.len()
            invariant
                ss@ == services.items(),
                services.wf(),
                ps@ == r.projects.items(),
                r.projects.wf(),
                i < ps@.len(),
                *services == ps@[i as int].1,
                r.projects.lookup(ps@[i as int].0@) == Some(*services),
                j <= ss@.len(),
                t@.len() == 65536,
                forall|p: u16| #[trigger] t@[p as int] ==> r.claims(p, protocol),
                forall|a: int, s: Seq<char>| 0 <= a < i ==> (#[trigger] ps@[a].1.lookup(s) matches Some(e) ==> (e.protocol == protocol ==> t@[e.port as int])),
                forall|b: int| 0 <= b < j ==> (#[trigger] ss@[b].1.protocol == protocol ==> t@[ss@[b].1.port as int]),
            decreases ss@.len() - j,
        {
            if ss[j].1.protocol == protocol {
                let port = ss[j].1.port;
                proof {
                    services.lemma_lookup_at(j as int);
                    assert(r.entry_of(ps@[i as int].0@, ss@[j as int].0@) == Some(ss@[j as int].1));
                }
                t.set(port as usize, true);
            }
            j = j + 1;
        }
        proof {
            assert forall|a: int, s: Seq<char>| 0 <= a < i + 1 implies (#[trigger] ps@[a].1.lookup(s) matches Some(e) ==> (e.protocol == protocol ==> t@[e.port as int])) by {
                if a == i && services.has(s) {
                    let b = choose|b: int| 0 <= b < services.items().len() && #[trigger] services.items()[b].0@ == s;
                    services.lemma_lookup_at(b);
                }
            }
        }
        i = i + 1;
    }
    proof {
        assert forall|p: u16| #[trigger] t@[p as int] == r.claims(p, protocol) by {
            if r.claims(p, protocol) {
                let (q, s) = choose|q: Seq<char>, s: Seq<char>| #[trigger] r.entry_of(q, s) matches Some(e) && e.port == p && e.protocol == protocol;
                let a = choose|a: int| 0 <= a < r.projects.items().len() && #[trigger] r.projects.items()[a].0@ == q;
                r.projects.lemma_lookup_at(a);
            }
        }
    }
    t
}

/// `after` and `res` are what allocating `s` in `p` on `protocol` from
/// `before` gives, with `is_free_on_os` as the probe.
pub open spec fn alloc_post<F: Fn(u16, Protocol) -> bool>(
    before: Registry,
    after: Registry,
    p: Seq<char>,
    s: Seq<char>,
    protocol: Protocol,
    is_free_on_os: F,
    res: Result<(u16, bool), SpoutError>,
) -> bool {
    match before.entry_of(p, s) {
        Some(e) => {
            &&& res == Ok::<(u16, bool), SpoutError>((e.port, false))
            &&& after == before
        },
        None => match res {
            Ok((port, fresh)) => {
                &&& fresh
                &&& BASE_PORT <= port <= MAX_PORT
                &&& !before.claims(port, protocol)
                &&& is_free_on_os.ensures((port, protocol), true)
                &&& forall|q: u16| BASE_PORT <= q < port && !before.claims(q, protocol)
                    ==> #[trigger] is_free_on_os.ensures((q, protocol), false)
                &&& after.version == before.version
                &&& after.history@ == before.history@
                &&& after.entry_of(p, s) matches Some(e) && e.port == port
                    && e.protocol == protocol && crate::date::is_clock_date(e.allocated@)
                &&& after.same_except(before, p, s)
                &&& forall|q: Seq<char>| #[trigger] after.projects.has(q) <==> (q == p || before.projects.has(q))
            },
            Err(err) => {
                &&& err matches SpoutError::NoFreePortFound { service: sv, range_start, range_end }
                    && sv@ == s && range_start == BASE_PORT && range_end == MAX_PORT
                &&& forall|q: u16| BASE_PORT <= q <= MAX_PORT && !before.claims(q, protocol)
                    ==> #[trigger] is_free_on_os.ensures((q, protocol), false)
                &&& after == before
            },
        },
    }
}

/// Allocation inside an already-held registry lock.
///
/// Returns the port and whether it is new. A registered service keeps its
/// port and nothing changes. Otherwise the result is the lowest port in
/// `BASE_PORT..=MAX_PORT` unclaimed on `protocol` that `is_free_on_os`
/// reported free; every lower unclaimed port was reported in use. When
/// none is, `NoFreePortFound` and nothing changes.
pub fn alloc_within_lock<F: Fn(u16, Protocol) -> bool>(
    r: &mut Registry,
    project: &str,
    service: &str,
    protocol: Protocol,
    is_free_on_os: &F,
) -> (res: Result<(u16, bool), SpoutError>)
    requires
        forall|p: u16, q: Protocol| is_free_on_os.requires((p, q)),
    ensures
        alloc_post(*old(r), *final(r), project@, service@, protocol, *is_free_on_os, res),
{
    if let Some(port) = r.get(project, service) {
        return Ok((port, false));
    }
    let claimed = claimed_table(r, protocol);
    let mut candidate: u16 = BASE_PORT;
    while candidate <= MAX_PORT
        invariant
            BASE_PORT <= candidate <= MAX_PORT + 1,
            claimed@.len() == 65536,
            forall|p: u16| #[trigger] claimed@[p as int] == r.claims(p, protocol),
            *r == *old(r),
            old(r).entry_of(project@, service@) is None,
            forall|p: u16, q: Protocol| is_free_on_os.requires((p, q)),
            forall|q: u16| BASE_PORT <= q < candidate && !r.claims(q, protocol)
                ==> #[trigger] is_free_on_os.ensures((q, protocol), false),
        decreases MAX_PORT + 1 - candidate,
    {
        if !claimed[candidate as usize] {
            if is_free_on_os(candidate, protocol) {
                r.set(project, service, candidate, protocol);
                return Ok((candidate, true));
            }
        }
        candidate = candidate + 1;
    }
    Err(SpoutError::NoFreePortFound {
        service: service.to_owned(),
        range_start: BASE_PORT,
        range_end: MAX_PORT,
    })
}

/// The registered ports that the probe reports in use on the operating
/// system (each entry probed on its own protocol).
pub fn probe_bound_ports<F: Fn(u16, Protocol) -> bool>(reg: &Registry, is_free_on_os: &F) -> (bound: HashSet<u16>)
    requires
        forall|p: u16, q: Protocol| is_free_on_os.requires((p, q)),
    ensures
        forall|p: u16| #[trigger] bound@.contains(p) ==> exists|q: Seq<char>, s: Seq<char>|
            #[trigger] reg.entry_of(q, s) matches Some(e) && e.port == p && is_free_on_os.ensures((p, e.protocol), false),
        forall|q: Seq<char>, s: Seq<char>| #[trigger] reg.entry_of(q, s) matches Some(e) ==>
            (bound@.contains(e.port) || is_free_on_os.ensures((e.port, e.protocol), true)),
{
    proof {
        use_type_invariant(&reg.projects);
    }
    let mut bound: HashSet<u16> = HashSet::new();
    let ps = reg.projects.entries();
    let mut i: usize = 0;
    while i < ps.len()
        invariant
            ps@ == reg.projects.items(),
            reg.projects.wf(),
            i <= ps@.len(),
            forall|p: u16, q: Protocol| is_free_on_os.requires((p, q)),
            forall|p: u16| #[trigger] bound@.contains(p) ==> exists|q: Seq<char>, s: Seq<char>|
                #[trigger] reg.entry_of(q, s) matches Some(e) && e.port == p && is_free_on_os.ensures((p, e.protocol), false),
            forall|a: int, s: Seq<char>| 0 <= a < i ==> (#[trigger] ps@[a].1.lookup(s) matches Some(e) ==>
                (bound@.contains(e.port) || is_free_on_os.ensures((e.port, e.protocol), true))),
        decreases ps@.len() - i,
    {
        let services = &ps[i].1;
        proof {
            use_type_invariant(services);
            reg.projects.lemma_lookup_at(i as int);
        }
        let ss = services.entries();
        let mut j: usize = 0;
        while j < ss.len()
            invariant
                ss@ == services.items(),
                services.wf(),
                ps@ == reg.projects.items(),
                reg.projects.wf(),
                i < ps@.len(),
                *services == ps@[i as int].1,
                reg.projects.lookup(ps@[i as int].0@) == Some(*services),
                j <= ss@.len(),
                forall|p: u16, q: Protocol| is_free_on_os.requires((p, q)),
                forall|p: u16| #[trigger] bound@.contains(p) ==> exists|q: Seq<char>, s: Seq<char>|
                    #[trigger] reg.entry_of(q, s) matches Some(e) && e.port == p && is_free_on_os.ensures((p, e.protocol), false),
                forall|a: int, s: Seq<char>| 0 <= a < i ==> (#[trigger] ps@[a].1.lookup(s) matches Some(e) ==>
                    (bound@.contains(e.port) || is_free_on_os.ensures((e.port, e.protocol), true))),
                forall|b: int| 0 <= b < j ==> (bound@.contains((#[trigger] ss@[b]).1.port) || is_free_on_os.ensures((ss@[b].1.port, ss@[b].1.protocol), true)),
            decreases ss@.len() - j,
        {
            let port = ss[j].1.port;
            let free = is_free_on_os(port, ss[j].1.protocol);
            proof {
                services.lemma_lookup_at(j as int);
                assert(reg.entry_of(ps@[i as int].0@, ss@[j as int].0@) == Some(ss@[j as int].1));
            }
            if !free {
                bound.insert(port);
            }
            j = j + 1;
        }
        proof {
            assert forall|a: int, s: Seq<char>| 0 <= a < i + 1 implies (#[trigger] ps@[a].1.lookup(s) matches Some(e) ==>
                (bound@.contains(e.port) || is_free_on_os.ensures((e.port, e.protocol), true))) by {
                if a == i && services.has(s) {
                    let b = choose|b: int| 0 <= b < services.items().len() && #[trigger] services.items()[b].0@ == s;
                    services.lemma_lookup_at(b);
                    assert(bound@.contains(ss@[b].1.port) || is_free_on_os.ensures((ss@[b].1.port, ss@[b].1.protocol), true));
                }
            }
        }
        i = i + 1;
    }
    proof {
        assert forall|q: Seq<char>, s: Seq<char>| #[trigger] reg.entry_of(q, s) matches Some(e) ==>
            (bound@.contains(e.port) || is_free_on_os.ensures((e.port, e.protocol), true)) by {
            if reg.projects.has(q) {
                let a = choose|a: int| 0 <= a < reg.projects.items().len() && #[trigger] reg.projects.items()[a].0@ == q;
                reg.projects.lemma_lookup_at(a);
                assert(ps@[a].1.lookup(s) == reg.entry_of(q, s));
            }
        }
    }
    bound
}


/// Allocates a port for `service` in `project`: the port it already holds,
/// or a fresh one exactly as `alloc_within_lock` chooses it.
pub fn alloc_port<F: Fn(u16, Protocol) -> bool>(
    r: &mut Registry,
    project: &str,
    service: &str,
    protocol: Protocol,
    is_free_on_os: &F,
) -> (res: Result<u16, SpoutError>)
    requires
        forall|p: u16, q: Protocol| is_free_on_os.requires((p, q)),
    ensures
        match old(r).entry_of(project@, service@) {
            Some(e) => res == Ok::<u16, SpoutError>(e.port) && *final(r) == *old(r),
            None => match res {
                Ok(port) => {
                    &&& BASE_PORT <= port <= MAX_PORT
                    &&& !old(r).claims(port, protocol)
                    &&& is_free_on_os.ensures((port, protocol), true)
                    &&& forall|q: u16| BASE_PORT <= q < port && !old(r).claims(q, protocol)
                        ==> #[trigger] is_free_on_os.ensures((q, protocol), false)
                    &&& final(r).history@ == old(r).history@
                    &&& final(r).version == old(r).version
                    &&& forall|q: Seq<char>| #[trigger] final(r).projects.has(q) <==> (q == project@ || old(r).projects.has(q))
                    &&& final(r).entry_of(project@, service@) matches Some(e) && e.port == port && e.protocol == protocol
                    &&& final(r).same_except(*old(r), project@, service@)
                },
                Err(err) => {
                    &&& err matches SpoutError::NoFreePortFound { service: sv, range_start, range_end }
                        && sv@ == service@ && range_start == BASE_PORT && range_end == MAX_PORT
                    &&& forall|q: u16| BASE_PORT <= q <= MAX_PORT && !old(r).claims(q, protocol)
                        ==> #[trigger] is_free_on_os.ensures((q, protocol), false)
                    &&& *final(r) == *old(r)
                },
            },
        },
{
    match alloc_within_lock(r, project, service, protocol, is_free_on_os) {
        Ok((port, _)) => Ok(port),
        Err(e) => Err(e),
    }
}

} // verus!
