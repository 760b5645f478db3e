//! Properties that span several operations of the registry.

use vstd::prelude::*;

use crate::allocator::alloc_post;
use crate::error::SpoutError;
use crate::protocol::Protocol;
use crate::registry::Registry;

verus! {

/// The port an allocation answered.
pub open spec fn allocated_port(r: Result<(u16, bool), SpoutError>) -> u16 {
    match r {
        Ok((port, _)) => port,
        Err(_) => 0,
    }
}

/// A service read back after `set` has the port it was set to; every other
/// registration reads as before.
pub proof fn law_get_after_set(a: Registry, b: Registry, p: Seq<char>, s: Seq<char>, port: u16, protocol: Protocol)
    requires
        Registry::set_post(a, b, p, s, port, protocol),
    ensures
        b.port_of(p, s) == Some(port),
        forall|q: Seq<char>, t: Seq<char>| !(q == p && t == s) ==> #[trigger] b.port_of(q, t) == a.port_of(q, t),
{
    assert forall|q: Seq<char>, t: Seq<char>| !(q == p && t == s) implies #[trigger] b.port_of(q, t) == a.port_of(q, t) by {
        assert(b.entry_of(q, t) == a.entry_of(q, t));
    }
}

/// `set` then `remove` of the same service: the removal answers the port
/// that was set, the service is gone, everything else is as before the
/// `set`, and the history gains exactly the release of that port.
pub proof fn law_set_then_remove(
    a: Registry,
    b: Registry,
    c: Registry,
    p: Seq<char>,
    s: Seq<char>,
    port: u16,
    protocol: Protocol,
    reason: Seq<char>,
    r: Option<u16>,
)
    requires
        Registry::set_post(a, b, p, s, port, protocol),
        Registry::remove_post(b, c, p, s, reason, r),
    ensures
        r == Some(port),
        c.entry_of(p, s) is None,
        forall|q: Seq<char>, t: Seq<char>| !(q == p && t == s) ==> #[trigger] c.entry_of(q, t) == a.entry_of(q, t),
        c.history@.drop_last() == a.history@,
        c.history@.last().port == port,
        c.history@.last().protocol == protocol,
        c.history@.last().project@ == p,
        c.history@.last().service@ == s,
        c.history@.last().reason@ == reason,
        c.history@.last().allocated@ == b.entry_of(p, s)->0.allocated@,
{
    assert forall|q: Seq<char>, t: Seq<char>| !(q == p && t == s) implies #[trigger] c.entry_of(q, t) == a.entry_of(q, t) by {
        assert(c.entry_of(q, t) == b.entry_of(q, t));
        assert(b.entry_of(q, t) == a.entry_of(q, t));
    }
}

/// Removing what is not registered changes nothing and answers `None`.
pub proof fn law_remove_absent_is_noop(a: Registry, b: Registry, p: Seq<char>, s: Seq<char>, reason: Seq<char>, r: Option<u16>)
    requires
        a.entry_of(p, s) is None,
        Registry::remove_post(a, b, p, s, reason, r),
    ensures
        r is None,
        b.history@ == a.history@,
        forall|q: Seq<char>, t: Seq<char>| #[trigger] b.entry_of(q, t) == a.entry_of(q, t),
{
}

/// Allocation is idempotent: allocating a service again, on any protocol,
/// answers the port it got and changes nothing.
pub proof fn law_alloc_idempotent<F: Fn(u16, Protocol) -> bool>(
    a: Registry,
    b: Registry,
    c: Registry,
    p: Seq<char>,
    s: Seq<char>,
    first: Protocol,
    second: Protocol,
    is_free_on_os: F,
    r1: Result<(u16, bool), SpoutError>,
    r2: Result<(u16, bool), SpoutError>,
)
    requires
        alloc_post(a, b, p, s, first, is_free_on_os, r1),
        r1 is Ok,
        alloc_post(b, c, p, s, second, is_free_on_os, r2),
    ensures
        r2 == Ok::<(u16, bool), SpoutError>((allocated_port(r1), false)),
        c == b,
        b.port_of(p, s) == Some(allocated_port(r1)),
{
}

/// A freshly allocated port is held by no other registration on its
/// protocol.
pub proof fn law_fresh_port_unshared<F: Fn(u16, Protocol) -> bool>(
    a: Registry,
    b: Registry,
    p: Seq<char>,
    s: Seq<char>,
    protocol: Protocol,
    is_free_on_os: F,
    port: u16,
)
    requires
        alloc_post(a, b, p, s, protocol, is_free_on_os, Ok((port, true))),
    ensures
        forall|q: Seq<char>, t: Seq<char>| !(q == p && t == s) && #[trigger] b.entry_of(q, t) is Some
            && b.entry_of(q, t)->0.protocol == protocol ==> b.entry_of(q, t)->0.port != port,
{
    assert forall|q: Seq<char>, t: Seq<char>| !(q == p && t == s) && #[trigger] b.entry_of(q, t) is Some
        && b.entry_of(q, t)->0.protocol == protocol implies b.entry_of(q, t)->0.port != port by {
        assert(b.entry_of(q, t) == a.entry_of(q, t));
        if b.entry_of(q, t)->0.port == port {
            assert(a.claims(port, protocol));
        }
    }
}

/// TCP and UDP are independent: registering a port on one protocol
/// changes no claim on the other (when the service was not registered on
/// the other).
pub proof fn law_protocols_independent(a: Registry, b: Registry, p: Seq<char>, s: Seq<char>, port: u16, protocol: Protocol, other: Protocol)
    requires
        Registry::set_post(a, b, p, s, port, protocol),
        other != protocol,
        a.entry_of(p, s) is None || a.entry_of(p, s)->0.protocol == protocol,
    ensures
        forall|x: u16| #[trigger] b.claims(x, other) == a.claims(x, other),
{
    assert forall|x: u16| #[trigger] b.claims(x, other) == a.claims(x, other) by {
        if b.claims(x, other) {
            let (q, t) = choose|q: Seq<char>, t: Seq<char>| #[trigger] b.entry_of(q, t) matches Some(e) && e.port == x && e.protocol == other;
            assert(!(q == p && t == s));
            assert(a.entry_of(q, t) == b.entry_of(q, t));
        }
        if a.claims(x, other) {
            let (q, t) = choose|q: Seq<char>, t: Seq<char>| #[trigger] a.entry_of(q, t) matches Some(e) && e.port == x && e.protocol == other;
            assert(!(q == p && t == s));
            assert(a.entry_of(q, t) == b.entry_of(q, t));
        }
    }
}

/// A service reads back, after `alloc`, the port `alloc` answered.
pub proof fn law_get_after_alloc<F: Fn(u16, Protocol) -> bool>(
    a: Registry,
    b: Registry,
    p: Seq<char>,
    s: Seq<char>,
    protocol: Protocol,
    is_free_on_os: F,
    r: Result<(u16, bool), SpoutError>,
)
    requires
        alloc_post(a, b, p, s, protocol, is_free_on_os, r),
        r is Ok,
    ensures
        b.port_of(p, s) == Some(allocated_port(r)),
{
}


/// Moving a project to a new identity and back restores every
/// registration.
pub proof fn law_reproject_round_trip(
    a: Registry,
    b: Registry,
    c: Registry,
    from: Seq<char>,
    to: Seq<char>,
    n: usize,
    r: Result<usize, Vec<String>>,
)
    requires
        a.projects.lookup(to) is None,
        Registry::reproject_post(a, b, from, to, Ok(n)),
        n > 0,
        Registry::reproject_post(b, c, to, from, r),
    ensures
        r is Ok,
        forall|q: Seq<char>, t: Seq<char>| #[trigger] c.entry_of(q, t) == a.entry_of(q, t),
{
    let m = a.projects.lookup(from)->0;
    assert(a.projects.lookup(from) is Some);
    assert(from != to);
    assert(b.projects.has(to));
    assert(!b.projects.has(from));
    let m2 = b.projects.lookup(to)->0;
    assert forall|t: Seq<char>| #[trigger] b.entry_of(to, t) == a.entry_of(from, t) by {
        if !m.has(t) {
            assert(a.entry_of(to, t) is None);
        }
    }
    let k0 = m.items()[0].0@;
    assert(m.has(k0));
    assert(a.entry_of(from, k0) is Some);
    assert(b.entry_of(to, k0) is Some);
    assert(m2.has(k0));
    assert(m2.items().len() > 0);
    assert(b.projects.lookup(from) is None);
    assert(r is Ok);
    assert forall|q: Seq<char>, t: Seq<char>| #[trigger] c.entry_of(q, t) == a.entry_of(q, t) by {
        if q == from {
            if m2.has(t) {
                assert(c.entry_of(from, t) == m2.lookup(t));
                assert(m2.lookup(t) == b.entry_of(to, t));
            } else {
                assert(b.entry_of(to, t) is None);
            }
        } else if q == to {
            assert(c.entry_of(to, t) is None);
            assert(a.entry_of(to, t) is None);
        } else {
            assert(c.entry_of(q, t) == b.entry_of(q, t));
        }
    }
}

} // verus!
