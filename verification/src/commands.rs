//! What each subcommand decides, on a registry already read (or locked)
//! by the caller. The binary does the reading, locking, writing and
//! printing.

use std::collections::HashSet;

use vstd::prelude::*;

use crate::error::{OrphanRecord, RemovedRecord, SpoutError};
use crate::format::{history, history_line};
use crate::protocol::Protocol;
use crate::registry::{derefs, lemma_recent_first, recent_first, released_desc, Entry, HistoryEntry, Registry, ServiceMap, CURRENT_VERSION};
use crate::services::{env_var_name, env_var_spec};
use crate::text::{dec, join, join_strings, push_dec, push_line, str_eq, views};

verus! {

/// The names of `project`'s services, in name order.
pub open spec fn service_names(reg: Registry, project: Seq<char>) -> Seq<Seq<char>> {
    match reg.projects.lookup(project) {
        Some(m) => m.keys(),
        None => Seq::empty(),
    }
}

/// The released entries of `service` in `project`, most recent first.
pub open spec fn removals(reg: Registry, project: Seq<char>, service: Seq<char>) -> Seq<HistoryEntry> {
    recent_first(reg.history@.filter(|h: HistoryEntry| h.project@ == project && h.service@ == service))
}

/// `e` is the not-registered error for `service` in `project`: it lists
/// the project's services, the most recent removal of the service, and the
/// live entries of the service under other identities at `cwd` or above.
pub open spec fn is_not_registered_error(e: SpoutError, reg: Registry, project: Seq<char>, service: Seq<char>, cwd: Seq<char>) -> bool {
    match e {
        SpoutError::ServiceNotRegisteredInProject { project: p, service: s, available, recently_removed, orphans } => {
            let h = removals(reg, project, service);
            let dirs = reg.orphan_dirs(project, service, cwd);
            &&& p@ == project
            &&& s@ == service
            &&& views(available@) == service_names(reg, project)
            &&& (h.len() == 0 ==> recently_removed is None)
            &&& (h.len() > 0 ==> (recently_removed matches Some(rr) && rr.released@ == h[0].released@ && rr.reason@ == h[0].reason@))
            &&& orphans@.len() == dirs.len()
            &&& forall|i: int| 0 <= i < dirs.len() ==> {
                &&& (#[trigger] orphans@[i]).project@ == dirs[i]
                &&& reg.entry_of(dirs[i], service) matches Some(x) && x.port == orphans@[i].port && x.protocol == orphans@[i].protocol
            }
        },
        _ => false,
    }
}

/// The error for `service` missing from `project`.
pub fn not_registered_in_project(reg: &Registry, project: &str, service: &str, cwd: &str) -> (e: SpoutError)
    ensures
        is_not_registered_error(e, *reg, project@, service@, cwd@),
{
    let mut available: Vec<String> = Vec::new();
    match reg.projects.get(project) {
        Some(services) => {
            let es = services.entries();
            let mut i: usize = 0;
            while i < es.len()
                invariant
                    es@ == services.items(),
                    i <= es@.len(),
                    available@.len() == i,
                    views(available@) == services.keys().take(i as int),
                decreases es@.len() - i,
            {
                let ghost before = available@;
                available.push(es[i].0.clone());
                proof {
                    assert(available@ == before.push(es@[i as int].0));
                    assert forall|j: int| 0 <= j < i + 1 implies #[trigger] views(available@)[j] == services.keys().take(i + 1)[j] by {
                        if j < i {
                            assert(views(before)[j] == services.keys().take(i as int)[j]);
                        }
                    }
                }
                i = i + 1;
                assert(views(available@) =~= services.keys().take(i as int));
            }
            assert(services.keys().take(es@.len() as int) =~= services.keys());
        },
        None => {
            assert(views(available@) =~= Seq::<Seq<char>>::empty());
        },
    }
    let hs = reg.history_for_service(project, service);
    let recently_removed = if hs.len() > 0 {
        assert(derefs(hs@)[0] == *hs@[0]);
        Some(RemovedRecord { released: hs[0].released.clone(), reason: hs[0].reason.clone() })
    } else {
        None
    };
    let found = reg.orphans_for_service(project, service, cwd);
    let mut orphans: Vec<OrphanRecord> = Vec::new();
    let mut i: usize = 0;
    while i < found.len()
        invariant
            i <= found@.len(),
            orphans@.len() == i,
            forall|j: int| 0 <= j < i ==> {
                &&& (#[trigger] orphans@[j]).project@ == found@[j].0@
                &&& orphans@[j].port == found@[j].1.port
                &&& orphans@[j].protocol == found@[j].1.protocol
            },
        decreases found@.len() - i,
    {
        let (dir, e) = &found[i];
        orphans.push(OrphanRecord { project: dir.clone(), port: e.port, protocol: e.protocol });
        i = i + 1;
    }
    SpoutError::ServiceNotRegisteredInProject {
        project: project.to_owned(),
        service: service.to_owned(),
        available,
        recently_removed,
        orphans,
    }
}

/// The port of `service` in `project`, or the not-registered error.
pub fn get(reg: &Registry, project: &str, service: &str, cwd: &str) -> (r: Result<u16, SpoutError>)
    ensures
        match reg.port_of(project@, service@) {
            Some(p) => r == Ok::<u16, SpoutError>(p),
            None => r matches Err(e) && is_not_registered_error(e, *reg, project@, service@, cwd@),
        },
{
    match reg.get(project, service) {
        Some(port) => Ok(port),
        None => Err(not_registered_in_project(reg, project, service, cwd)),
    }
}

/// Ports below 1024 are privileged: refused as in use.
pub fn validate_port(port: u16, protocol: Protocol) -> (r: Result<(), SpoutError>)
    ensures
        port < 1024 ==> r == Err::<(), SpoutError>(SpoutError::PortInUse { port, protocol }),
        port >= 1024 ==> r is Ok,
{
    if port < 1024 {
        return Err(SpoutError::PortInUse { port, protocol });
    }
    Ok(())
}

/// Some live entry of a project other than `project` holds `port` on
/// `protocol`.
pub open spec fn claimed_elsewhere(reg: Registry, project: Seq<char>, port: u16, protocol: Protocol) -> bool {
    exists|q: Seq<char>, s: Seq<char>| q != project && (#[trigger] reg.entry_of(q, s) matches Some(e) && e.port == port && e.protocol == protocol)
}

/// Some live entry of `project` holds `port` on `protocol`.
pub open spec fn claimed_here(reg: Registry, project: Seq<char>, port: u16, protocol: Protocol) -> bool {
    exists|s: Seq<char>| #[trigger] reg.entry_of(project, s) matches Some(e) && e.port == port && e.protocol == protocol
}

/// Registers `port`/`protocol` for `service` in `project` by hand.
///
/// Refused, changing nothing: a privileged port (`PortInUse`); a port
/// another project holds on the same protocol (`PortAlreadyClaimed`,
/// naming that project — when several claims exist, the first in name
/// order decides); a port the probe reports in use, unless the service already
/// holds it. Otherwise the entry is written, allocated today.
pub fn set<F: Fn(u16, Protocol) -> bool>(
    reg: &mut Registry,
    project: &str,
    service: &str,
    port: u16,
    protocol: Protocol,
    is_free_on_os: &F,
) -> (r: Result<(), SpoutError>)
    requires
        forall|p: u16, q: Protocol| is_free_on_os.requires((p, q)),
    ensures
        port < 1024 ==> r == Err::<(), SpoutError>(SpoutError::PortInUse { port, protocol }),
        r is Err ==> final(reg).entry_of(project@, service@) == old(reg).entry_of(project@, service@)
            && final(reg).same_except(*old(reg), project@, service@) && final(reg).history@ == old(reg).history@,
        r matches Err(SpoutError::PortAlreadyClaimed { port: p, protocol: q, project: owner }) ==>
            p == port && q == protocol && owner@ != project@ && exists|s: Seq<char>|
                #[trigger] old(reg).entry_of(owner@, s) matches Some(e) && e.port == port && e.protocol == protocol,
        port >= 1024 && claimed_elsewhere(*old(reg), project@, port, protocol) && !claimed_here(*old(reg), project@, port, protocol)
            ==> r matches Err(SpoutError::PortAlreadyClaimed { .. }),
        port >= 1024 && !claimed_elsewhere(*old(reg), project@, port, protocol) ==> (r is Ok || (
            r == Err::<(), SpoutError>(SpoutError::PortInUse { port, protocol })
            && old(reg).port_of(project@, service@) != Some(port)
            && is_free_on_os.ensures((port, protocol), false))),
        r matches Err(SpoutError::PortInUse { .. }) ==> r == Err::<(), SpoutError>(SpoutError::PortInUse { port, protocol }),
        r matches Err(SpoutError::PortAlreadyClaimed { project: owner, .. }) ==> exists|a: int, b: int|
            #[trigger] old(reg).first_claim_at(port, protocol, a, b) && old(reg).projects.items()[a].0@ == owner@,
        port >= 1024 && (exists|a: int, b: int| #[trigger] old(reg).first_claim_at(port, protocol, a, b)
            && old(reg).projects.items()[a].0@ != project@) ==> r matches Err(SpoutError::PortAlreadyClaimed { .. }),
        port >= 1024 && !(exists|a: int, b: int| #[trigger] old(reg).first_claim_at(port, protocol, a, b)
            && old(reg).projects.items()[a].0@ != project@) ==> (r is Ok || (
            r == Err::<(), SpoutError>(SpoutError::PortInUse { port, protocol })
            && old(reg).port_of(project@, service@) != Some(port)
            && is_free_on_os.ensures((port, protocol), false))),
        r is Ok ==> !old(reg).claims(port, protocol) || exists|a: int, b: int|
            #[trigger] old(reg).first_claim_at(port, protocol, a, b) && old(reg).projects.items()[a].0@ == project@,
        r is Ok ==> {
            &&& port >= 1024
            &&& !claimed_elsewhere(*old(reg), project@, port, protocol) || claimed_here(*old(reg), project@, port, protocol)
            &&& (old(reg).port_of(project@, service@) == Some(port) || is_free_on_os.ensures((port, protocol), true))
            &&& final(reg).entry_of(project@, service@) matches Some(e) && e.port == port && e.protocol == protocol
            &&& final(reg).same_except(*old(reg), project@, service@)
            &&& final(reg).history@ == old(reg).history@
            &&& final(reg).version == old(reg).version
        },
{
    validate_port(port, protocol)?;
    match reg.is_port_claimed(port, protocol) {
        Some((owner, svc)) => {
            if !str_eq(owner.as_str(), project) {
                assert(old(reg).entry_of(owner@, svc@) matches Some(e) && e.port == port && e.protocol == protocol);
                assert(owner@ != project@);
                assert(exists|s: Seq<char>| #[trigger] old(reg).entry_of(owner@, s) matches Some(e) && e.port == port && e.protocol == protocol);
                let ghost rr = Err::<(), SpoutError>(SpoutError::PortAlreadyClaimed { port, protocol, project: owner });
                assert(rr matches Err(SpoutError::PortAlreadyClaimed { port: p, protocol: q, project: o }) ==> o@ != project@);
                return Err(SpoutError::PortAlreadyClaimed { port, protocol, project: owner });
            }
            proof {
                let (a0, b0) = choose|a: int, b: int| #[trigger] old(reg).first_claim_at(port, protocol, a, b)
                    && old(reg).projects.items()[a].0@ == owner@ && old(reg).projects.items()[a].1.items()[b].0@ == svc@;
                assert forall|a: int, b: int| #[trigger] old(reg).first_claim_at(port, protocol, a, b)
                    implies old(reg).projects.items()[a].0@ == project@ by {
                    old(reg).lemma_first_claim_unique(port, protocol, a, b, a0, b0);
                }
            }
        },
        None => {
            proof {
                use_type_invariant(&reg.projects);
                assert forall|a: int, b: int| !(#[trigger] old(reg).first_claim_at(port, protocol, a, b)) by {
                    if old(reg).first_claim_at(port, protocol, a, b) {
                        old(reg).lemma_first_claim_claims(port, protocol, a, b);
                    }
                }
            }
        },
    }
    if reg.get(project, service) != Some(port) && !is_free_on_os(port, protocol) {
        return Err(SpoutError::PortInUse { port, protocol });
    }
    reg.set(project, service, port, protocol);
    Ok(())
}

/// `KEY=port` lines of a project, in service-name order.
pub open spec fn env_lines(m: ServiceMap) -> Seq<Seq<char>> {
    Seq::new(m.items().len(), |i: int| env_var_spec(m.items()[i].0@) + "="@ + dec(m.items()[i].1.port as nat))
}

/// The `KEY=port` lines for `project`; `None` when it has no services.
pub fn env(reg: &Registry, project: &str) -> (r: Option<String>)
    ensures
        match reg.projects.lookup(project@) {
            Some(m) => if m.items().len() > 0 {
                r matches Some(s) && s@ == join(env_lines(m), "\n"@)
            } else {
                r is None
            },
            None => r is None,
        },
{
    let services = match reg.projects.get(project) {
        Some(s) => s,
        None => return None,
    };
    if services.is_empty() {
        return None;
    }
    let es = services.entries();
    let mut lines: Vec<String> = Vec::new();
    let mut i: usize = 0;
    while i < es.len()
        invariant
            es@ == services.items(),
            i <= es@.len(),
            views(lines@) == env_lines(*services).take(i as int),
        decreases es@.len() - i,
    {
        let mut l = env_var_name(es[i].0.as_str());
        l.append("=");
        push_dec(&mut l, es[i].1.port as u64);
        push_line(&mut lines, l);
        i = i + 1;
        assert(views(lines@) =~= env_lines(*services).take(i as int));
    }
    assert(env_lines(*services).take(es@.len() as int) =~= env_lines(*services));
    Some(join_strings(&lines, "\n"))
}

/// Refuses a registry file written by an unknown schema version.
pub fn check_version(version: u32) -> (r: Result<(), SpoutError>)
    ensures
        (version == 1 || version == CURRENT_VERSION) ==> r is Ok,
        !(version == 1 || version == CURRENT_VERSION) ==> r == Err::<(), SpoutError>(SpoutError::RegistryVersionUnknown(version)),
{
    if version != 1 && version != CURRENT_VERSION {
        return Err(SpoutError::RegistryVersionUnknown(version));
    }
    Ok(())
}


/// One live registration of a port, as `whois` prints it.
pub open spec fn whois_line(port: u16, protocol: Protocol, project: Seq<char>, service: Seq<char>, allocated: Seq<char>) -> Seq<char> {
    crate::error::port_text(port, protocol) + ": "@ + project + "/"@ + service + "  (active, allocated "@ + allocated + ")"@
}

/// The `whois` lines for the services `items` of `project` holding `port`
/// on `protocol`, in name order.
pub open spec fn service_whois_lines(project: Seq<char>, items: Seq<(String, Entry)>, port: u16, protocol: Protocol) -> Seq<Seq<char>>
    decreases items.len(),
{
    if items.len() == 0 {
        Seq::empty()
    } else {
        let rest = service_whois_lines(project, items.drop_last(), port, protocol);
        let e = items.last().1;
        if e.port == port && e.protocol == protocol {
            rest.push(whois_line(port, protocol, project, items.last().0@, e.allocated@))
        } else {
            rest
        }
    }
}

/// The `whois` lines for `port` on `protocol` over projects `ps`, in
/// project then service order.
pub open spec fn project_whois_lines(ps: Seq<(String, ServiceMap)>, port: u16, protocol: Protocol) -> Seq<Seq<char>>
    decreases ps.len(),
{
    if ps.len() == 0 {
        Seq::empty()
    } else {
        project_whois_lines(ps.drop_last(), port, protocol) + service_whois_lines(ps.last().0@, ps.last().1.items(), port, protocol)
    }
}

/// What `whois` answers: the live registrations of `port`, TCP before UDP;
/// failing those and when asked, its releases, most recent first; else
/// nothing.
pub open spec fn whois_answer(reg: Registry, port: u16, include_history: bool) -> Option<Seq<char>> {
    let ps = reg.projects.items();
    let live = project_whois_lines(ps, port, Protocol::Tcp) + project_whois_lines(ps, port, Protocol::Udp);
    let past = recent_first(reg.history@.filter(|h: HistoryEntry| h.port == port));
    if live.len() > 0 {
        Some(join(live, "\n"@))
    } else if include_history && past.len() > 0 {
        Some(join(Seq::new(past.len(), |i: int| history_line(past[i])), "\n"@))
    } else {
        None
    }
}

/// Appends to `lines` the `whois` lines for `port` on `protocol`.
fn collect_whois(reg: &Registry, port: u16, protocol: Protocol, lines: &mut Vec<String>)
    ensures
        views(final(lines)@) == views(old(lines)@) + project_whois_lines(reg.projects.items(), port, protocol),
{
    let ghost start = views(lines@);
    let ps = reg.projects.entries();
    let mut i: usize = 0;
    while i < ps.len()
        invariant
            ps@ == reg.projects.items(),
            i <= ps@.len(),
            views(lines@) == start + project_whois_lines(ps@.subrange(0, i as int), port, protocol),
        decreases ps@.len() - i,
    {
        assert(ps@.subrange(0, i as int + 1).drop_last() =~= ps@.subrange(0, i as int));
        let ghost mid = views(lines@);
        let (project, services) = &ps[i];
        let es = services.entries();
        let mut j: usize = 0;
        while j < es.len()
            invariant
                es@ == services.items(),
                j <= es@.len(),
                views(lines@) == mid + service_whois_lines(project@, es@.subrange(0, j as int), port, protocol),
            decreases es@.len() - j,
        {
            assert(es@.subrange(0, j as int + 1).drop_last() =~= es@.subrange(0, j as int));
            let (svc, e) = &es[j];
            if e.port == port && e.protocol == protocol {
                let mut l = String::new();
                crate::error::push_port(&mut l, port, protocol);
                l.append(": ");
                l.append(project.as_str());
                l.append("/");
                l.append(svc.as_str());
                l.append("  (active, allocated ");
                l.append(e.allocated.as_str());
                l.append(")");
                assert(l@ =~= whois_line(port, protocol, project@, svc@, e.allocated@));
                push_line(lines, l);
            }
            j = j + 1;
        }
        assert(es@.subrange(0, es@.len() as int) =~= es@);
        i = i + 1;
    }
    assert(ps@.subrange(0, ps@.len() as int) =~= ps@);
}

/// Who holds `port`: every live registration (TCP first), or, when asked
/// and there is none, the releases of the port.
pub fn whois(reg: &Registry, port: u16, include_history: bool) -> (r: Option<String>)
    ensures
        match r {
            Some(s) => whois_answer(*reg, port, include_history) == Some(s@),
            None => whois_answer(*reg, port, include_history) is None,
        },
{
    let mut lines: Vec<String> = Vec::new();
    collect_whois(reg, port, Protocol::Tcp, &mut lines);
    collect_whois(reg, port, Protocol::Udp, &mut lines);
    proof {
        assert(views(lines@) =~= project_whois_lines(reg.projects.items(), port, Protocol::Tcp) + project_whois_lines(reg.projects.items(), port, Protocol::Udp));
    }
    if lines.len() > 0 {
        return Some(join_strings(&lines, "\n"));
    }
    if include_history {
        let entries = reg.history_for_port(port);
        if entries.len() > 0 {
            let ghost past = recent_first(reg.history@.filter(|h: HistoryEntry| h.port == port));
            let r = history(&entries);
            proof {
                assert(Seq::new(entries@.len(), |i: int| history_line(*entries@[i])) =~= Seq::new(past.len(), |i: int| history_line(past[i])));
            }
            return Some(r);
        }
    }
    None
}


/// `--udp` only makes sense for a single service.
pub fn check_alloc_args(service: &Option<String>, udp: bool) -> (r: Result<(), SpoutError>)
    ensures
        (service is None && udp) ==> (r matches Err(SpoutError::Usage(m))
            && m@ == "--udp is per-service; pass a service name or declare UDP in the compose port spec"@),
        !(service is None && udp) ==> r is Ok,
{
    if service.is_none() && udp {
        return Err(SpoutError::Usage(String::from_str(
            "--udp is per-service; pass a service name or declare UDP in the compose port spec",
        )));
    }
    Ok(())
}

/// What `ls` prints without a terminal: the named project's block, or the
/// whole registry.
pub fn ls_text(reg: &Registry, project: Option<&str>, bound: &HashSet<u16>) -> (r: String)
    ensures
        match project {
            Some(p) => r@ == crate::format::plain_block(p@, reg.projects.lookup(p@), bound@),
            None => r@ == crate::format::plain_all(*reg, bound@),
        },
{
    match project {
        Some(p) => crate::format::project_block(p, reg.projects.get(p), bound),
        None => crate::format::all(reg, bound),
    }
}

/// What `whois` says on stderr when nothing holds `port`.
pub fn whois_miss_message(port: u16, history: bool) -> (r: String)
    ensures
        history ==> r@ == dec(port as nat) + " has no live or historical registration"@,
        !history ==> r@ == dec(port as nat) + " is not currently registered. Try 'spout whois "@ + dec(port as nat) + " --history'"@,
{
    let mut r = String::new();
    push_dec(&mut r, port as u64);
    if history {
        r.append(" has no live or historical registration");
    } else {
        r.append(" is not currently registered. Try 'spout whois ");
        push_dec(&mut r, port as u64);
        r.append(" --history'");
    }
    r
}

proof fn lemma_no_service_lines(project: Seq<char>, items: Seq<(String, Entry)>, port: u16, protocol: Protocol)
    requires
        forall|j: int| 0 <= j < items.len() ==> (#[trigger] items[j]).1.port != port,
    ensures
        service_whois_lines(project, items, port, protocol) =~= Seq::<Seq<char>>::empty(),
    decreases items.len(),
{
    if items.len() > 0 {
        assert(items.last() == items[items.len() - 1]);
        lemma_no_service_lines(project, items.drop_last(), port, protocol);
    }
}

proof fn lemma_no_live_lines(ps: Seq<(String, ServiceMap)>, port: u16, protocol: Protocol)
    requires
        forall|i: int, j: int| 0 <= i < ps.len() && 0 <= j < ps[i].1.items().len()
            ==> (#[trigger] ps[i].1.items()[j]).1.port != port,
    ensures
        project_whois_lines(ps, port, protocol) =~= Seq::<Seq<char>>::empty(),
    decreases ps.len(),
{
    if ps.len() > 0 {
        let last = ps.len() - 1;
        assert(ps.last() == ps[last]);
        assert forall|j: int| 0 <= j < ps[last].1.items().len() implies (#[trigger] ps[last].1.items()[j]).1.port != port by {}
        lemma_no_service_lines(ps.last().0@, ps.last().1.items(), port, protocol);
        assert forall|i: int, j: int| 0 <= i < ps.drop_last().len() && 0 <= j < ps.drop_last()[i].1.items().len()
            implies (#[trigger] ps.drop_last()[i].1.items()[j]).1.port != port by {
            assert(ps.drop_last()[i] == ps[i]);
        }
        lemma_no_live_lines(ps.drop_last(), port, protocol);
    }
}

/// With no live registration of `port`, `whois --history` answers one line
/// per release of the port in the history, the most recent release first,
/// and nothing when the port was never released.
pub proof fn law_whois_history_one_line_per_release(reg: Registry, port: u16, r: Option<String>)
    requires
        match r {
            Some(s) => whois_answer(reg, port, true) == Some(s@),
            None => whois_answer(reg, port, true) is None,
        },
        forall|i: int, j: int| 0 <= i < reg.projects.items().len() && 0 <= j < reg.projects.items()[i].1.items().len()
            ==> (#[trigger] reg.projects.items()[i].1.items()[j]).1.port != port,
    ensures
        reg.history@.filter(|h: HistoryEntry| h.port == port).len() == 0 ==> r is None,
        reg.history@.filter(|h: HistoryEntry| h.port == port).len() > 0 ==> (r matches Some(s)
            && exists|order: Seq<HistoryEntry>| {
                &&& #[trigger] order.to_multiset() == reg.history@.filter(|h: HistoryEntry| h.port == port).to_multiset()
                &&& order.len() == reg.history@.filter(|h: HistoryEntry| h.port == port).len()
                &&& released_desc(order)
                &&& s@ == join(Seq::new(order.len(), |k: int| history_line(order[k])), "\n"@)
            }),
{
    let ps = reg.projects.items();
    lemma_no_live_lines(ps, port, Protocol::Tcp);
    lemma_no_live_lines(ps, port, Protocol::Udp);
    let released = reg.history@.filter(|h: HistoryEntry| h.port == port);
    lemma_recent_first(released);
    let order = recent_first(released);
    assert(project_whois_lines(ps, port, Protocol::Tcp) + project_whois_lines(ps, port, Protocol::Udp) =~= Seq::<Seq<char>>::empty());
    if released.len() > 0 {
        assert(order.to_multiset() == released.to_multiset());
    }
}

/// `env` answers one `KEY=port` line per service of the project, whatever
/// its protocol, in service-name order: the line of a service is its
/// variable name, `=`, and its port.
pub proof fn law_env_one_line_per_service(reg: Registry, project: Seq<char>, r: Option<String>)
    requires
        match reg.projects.lookup(project) {
            Some(m) => if m.items().len() > 0 {
                r matches Some(s) && s@ == join(env_lines(m), "\n"@)
            } else {
                r is None
            },
            None => r is None,
        },
    ensures
        match reg.projects.lookup(project) {
            Some(m) => if m.items().len() > 0 {
                r matches Some(s) && exists|lines: Seq<Seq<char>>| {
                    &&& #[trigger] lines.len() == m.items().len()
                    &&& s@ == join(lines, "\n"@)
                    &&& forall|i: int| 0 <= i < lines.len() ==> (#[trigger] lines[i])
                        == env_var_spec(m.items()[i].0@) + "="@ + dec(m.items()[i].1.port as nat)
                }
            } else {
                r is None
            },
            None => r is None,
        },
{
    if reg.projects.lookup(project) matches Some(m) && m.items().len() > 0 {
        let m = reg.projects.lookup(project)->Some_0;
        let lines = env_lines(m);
        assert(lines.len() == m.items().len());
    }
}

} // verus!
