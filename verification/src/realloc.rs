//! `spout realloc` — `rm` and `alloc` of one service in one step, keeping
//! the service's protocol.

use vstd::prelude::*;

use crate::allocator::{alloc_within_lock, BASE_PORT, MAX_PORT};
use crate::error::SpoutError;
use crate::protocol::Protocol;
use crate::registry::{is_record, Registry};

verus! {

/// Some live entry other than `p`/`s` holds `port` on `protocol`.
pub open spec fn claimed_by_other(reg: Registry, p: Seq<char>, s: Seq<char>, port: u16, protocol: Protocol) -> bool {
    exists|q: Seq<char>, t: Seq<char>| !(q == p && t == s)
        && (#[trigger] reg.entry_of(q, t) matches Some(e) && e.port == port && e.protocol == protocol)
}

/// Releases the port of `service` in `project` (recorded as `reallocated`)
/// and allocates it a fresh one on the same protocol.
///
/// An unregistered service is refused and nothing changes. When no port is
/// free the removal stays applied here: the caller, holding the lock,
/// discards this registry instead of writing it.
pub fn run<F: Fn(u16, Protocol) -> bool>(
    reg: &mut Registry,
    project: &str,
    service: &str,
    is_free_on_os: &F,
) -> (r: Result<u16, SpoutError>)
    requires
        forall|p: u16, q: Protocol| is_free_on_os.requires((p, q)),
    ensures
        match old(reg).entry_of(project@, service@) {
            None => {
                &&& r == Err::<u16, SpoutError>(SpoutError::ServiceNotRegistered)
                &&& final(reg).history@ == old(reg).history@
                &&& forall|q: Seq<char>, t: Seq<char>| #[trigger] final(reg).entry_of(q, t) == old(reg).entry_of(q, t)
            },
            Some(old_entry) => {
                &&& final(reg).history@.len() == old(reg).history@.len() + 1
                &&& final(reg).history@.drop_last() == old(reg).history@
                &&& is_record(final(reg).history@.last(), project@, service@, old_entry,
                    final(reg).history@.last().released@, "reallocated"@)
                &&& final(reg).same_except(*old(reg), project@, service@)
                &&& match r {
                    Ok(port) => {
                        &&& BASE_PORT <= port <= MAX_PORT
                        &&& !claimed_by_other(*old(reg), project@, service@, port, old_entry.protocol)
                        &&& is_free_on_os.ensures((port, old_entry.protocol), true)
                        &&& forall|q: u16| BASE_PORT <= q < port && !claimed_by_other(*old(reg), project@, service@, q, old_entry.protocol)
                            ==> #[trigger] is_free_on_os.ensures((q, old_entry.protocol), false)
                        &&& final(reg).entry_of(project@, service@) matches Some(e) && e.port == port
                            && e.protocol == old_entry.protocol
                    },
                    Err(e) => {
                        &&& e matches SpoutError::NoFreePortFound { service: sv, range_start, range_end } && sv@ == service@
                            && range_start == BASE_PORT && range_end == MAX_PORT
                        &&& forall|q: u16| BASE_PORT <= q <= MAX_PORT && !claimed_by_other(*old(reg), project@, service@, q, old_entry.protocol)
                            ==> #[trigger] is_free_on_os.ensures((q, old_entry.protocol), false)
                        &&& final(reg).entry_of(project@, service@) is None
                    },
                }
            },
        },
{
    let protocol = match reg.projects.get(project) {
        Some(s) => match s.get(service) {
            Some(e) => e.protocol,
            None => return Err(SpoutError::ServiceNotRegistered),
        },
        None => return Err(SpoutError::ServiceNotRegistered),
    };
    if reg.remove(project, service, "reallocated").is_none() {
        return Err(SpoutError::ServiceNotRegistered);
    }
    let ghost removed = *reg;
    proof {
        assert forall|q: u16| #[trigger] removed.claims(q, protocol) == claimed_by_other(*old(reg), project@, service@, q, protocol) by {
            if removed.claims(q, protocol) {
                let (a, b) = choose|a: Seq<char>, b: Seq<char>| #[trigger] removed.entry_of(a, b) matches Some(e) && e.port == q && e.protocol == protocol;
                assert(!(a == project@ && b == service@));
                assert(removed.entry_of(a, b) == old(reg).entry_of(a, b));
            }
            if claimed_by_other(*old(reg), project@, service@, q, protocol) {
                let (a, b) = choose|a: Seq<char>, b: Seq<char>| !(a == project@ && b == service@)
                    && (#[trigger] old(reg).entry_of(a, b) matches Some(e) && e.port == q && e.protocol == protocol);
                assert(removed.entry_of(a, b) == old(reg).entry_of(a, b));
            }
        }
    }
    match alloc_within_lock(reg, project, service, protocol, is_free_on_os) {
        Ok((port, _)) => {
            proof {
                assert forall|q: Seq<char>, t: Seq<char>| !(q == project@ && t == service@) implies #[trigger] reg.entry_of(q, t) == old(reg).entry_of(q, t) by {
                    assert(reg.entry_of(q, t) == removed.entry_of(q, t));
                }
            }
            Ok(port)
        },
        Err(e) => Err(e),
    }
}

} // verus!
