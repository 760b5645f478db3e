//! `SpoutError` — every failure mode maps to exactly one exit code.
//!
//! Exit codes are part of the command line's stable interface.

use vstd::prelude::*;

use crate::protocol::Protocol;
use crate::text::{dec, join, join_strings, push_dec, push_line, views};

verus! {

/// Snapshot of a service's most recent removal record.
#[derive(Debug, Clone, PartialEq, Eq)]
pub struct RemovedRecord {
    pub released: String,
    pub reason: String,
}

/// One live entry found under a sibling project identity.
#[derive(Debug, Clone, PartialEq, Eq)]
pub struct OrphanRecord {
    pub project: String,
    pub port: u16,
    pub protocol: Protocol,
}

#[derive(Debug, Clone, PartialEq, Eq)]
pub enum SpoutError {
    ServiceNotRegistered,
    ServiceNotRegisteredInProject {
        project: String,
        service: String,
        available: Vec<String>,
        recently_removed: Option<RemovedRecord>,
        orphans: Vec<OrphanRecord>,
    },
    NoFreePortFound { service: String, range_start: u16, range_end: u16 },
    RegistryCorrupt(String),
    RegistryVersionUnknown(u32),
    PortAlreadyClaimed { port: u16, protocol: Protocol, project: String },
    PortInUse { port: u16, protocol: Protocol },
    Io(String),
    ComposeInvalid(String),
    ComposeNotFound(String),
    Usage(String),
    ReprojectConflict { from: String, to: String, services: Vec<String> },
    AllocOrphanMatch { project: String, service: String, orphans: Vec<OrphanRecord> },
}

impl SpoutError {
    /// The process exit code for this failure.
    pub open spec fn code(self) -> i32 {
        match self {
            SpoutError::ServiceNotRegistered => 1,
            SpoutError::ServiceNotRegisteredInProject { .. } => 1,
            SpoutError::NoFreePortFound { .. } => 2,
            SpoutError::RegistryCorrupt(_) => 3,
            SpoutError::RegistryVersionUnknown(_) => 4,
            SpoutError::PortAlreadyClaimed { .. } => 5,
            SpoutError::PortInUse { .. } => 6,
            SpoutError::Io(_) => 7,
            SpoutError::ComposeInvalid(_) => 8,
            SpoutError::ComposeNotFound(_) => 8,
            SpoutError::Usage(_) => 9,
            SpoutError::AllocOrphanMatch { .. } => 10,
            SpoutError::ReprojectConflict { .. } => 11,
        }
    }

    pub fn exit_code(&self) -> (r: i32)
        ensures
            r == self.code(),
    {
        match self {
            SpoutError::ServiceNotRegistered => 1,
            SpoutError::ServiceNotRegisteredInProject { .. } => 1,
            SpoutError::NoFreePortFound { .. } => 2,
            SpoutError::RegistryCorrupt(_) => 3,
            SpoutError::RegistryVersionUnknown(_) => 4,
            SpoutError::PortAlreadyClaimed { .. } => 5,
            SpoutError::PortInUse { .. } => 6,
            SpoutError::Io(_) => 7,
            SpoutError::ComposeInvalid(_) => 8,
            SpoutError::ComposeNotFound(_) => 8,
            SpoutError::Usage(_) => 9,
            SpoutError::AllocOrphanMatch { .. } => 10,
            SpoutError::ReprojectConflict { .. } => 11,
        }
    }
}


/// `port/protocol`, as messages print a registration.
pub open spec fn port_text(port: u16, protocol: Protocol) -> Seq<char> {
    dec(port as nat) + "/"@ + protocol.name()
}

/// Appends `port/protocol` to `s`.
pub fn push_port(s: &mut String, port: u16, protocol: Protocol)
    ensures
        final(s)@ == old(s)@ + port_text(port, protocol),
{
    let ghost start = s@;
    push_dec(s, port as u64);
    s.append("/");
    s.append(protocol.as_str());
    assert(s@ =~= start + port_text(port, protocol));
}

/// The line that reports an orphan of `service` in the not-registered help.
pub open spec fn orphan_help_line(service: Seq<char>, o: OrphanRecord) -> Seq<char> {
    "  registered under different identity: "@ + o.project@ + "/"@ + service + " → "@ + port_text(o.port, o.protocol)
}

/// The closing hint of the not-registered help: an orphan points at
/// `reproject`; otherwise an empty project points at `alloc` and a
/// populated one at `env`.
pub open spec fn not_registered_hint(
    project: Seq<char>,
    service: Seq<char>,
    available: Seq<String>,
    removed: Option<RemovedRecord>,
    orphans: Seq<OrphanRecord>,
) -> Seq<char> {
    if orphans.len() > 0 {
        "  (try `spout reproject --from "@ + orphans[0].project@ + " --to "@ + project + "`)"@
    } else if available.len() == 0 && removed is None {
        "  (try `spout alloc "@ + service + "`)"@
    } else if available.len() == 0 {
        "  (try `spout alloc "@ + service + "` to register fresh)"@
    } else {
        "  (try `spout env` for KEY=VALUE)"@
    }
}

/// The lines of the help shown when `service` is not registered in `project`.
pub open spec fn not_registered_lines(
    project: Seq<char>,
    service: Seq<char>,
    available: Seq<String>,
    removed: Option<RemovedRecord>,
    orphans: Seq<OrphanRecord>,
) -> Seq<Seq<char>> {
    let head = seq!["no service '"@ + service + "' in project '"@ + project + "'"@];
    let avail = if available.len() == 0 {
        seq!["  no services currently registered"@]
    } else {
        seq!["  available: "@ + join(views(available), ", "@)]
    };
    let rem = match removed {
        Some(r) => seq!["  recently removed: "@ + service + " ("@ + r.released@ + ", \""@ + r.reason@ + "\")"@],
        None => Seq::<Seq<char>>::empty(),
    };
    let orph = Seq::new(orphans.len(), |i: int| orphan_help_line(service, orphans[i]));
    head + avail + rem + orph + seq![not_registered_hint(project, service, available, removed, orphans)]
}

/// The help for a service missing from a project: what the project holds,
/// when the service was last removed, where it lives under another
/// identity, and what to try next.
pub fn format_not_registered_help(
    project: &str,
    service: &str,
    available: &Vec<String>,
    recently_removed: Option<&RemovedRecord>,
    orphans: &Vec<OrphanRecord>,
) -> (r: String)
    ensures
        r@ == join(
            not_registered_lines(project@, service@, available@, match recently_removed {
                Some(x) => Some(*x),
                None => None,
            }, orphans@),
            "\n"@,
        ),
{
    let ghost removed = match recently_removed {
        Some(x) => Some(*x),
        None => None::<RemovedRecord>,
    };
    let mut lines: Vec<String> = Vec::new();
    let mut head = String::new();
    head.append("no service '");
    head.append(service);
    head.append("' in project '");
    head.append(project);
    head.append("'");
    push_line(&mut lines, head);
    if available.len() == 0 {
        push_line(&mut lines, String::from_str("  no services currently registered"));
    } else {
        let mut l = String::from_str("  available: ");
        let joined = join_strings(available, ", ");
        l.append(joined.as_str());
        push_line(&mut lines, l);
    }
    match recently_removed {
        Some(rr) => {
            let mut l = String::from_str("  recently removed: ");
            l.append(service);
            l.append(" (");
            l.append(rr.released.as_str());
            l.append(", \"");
            l.append(rr.reason.as_str());
            l.append("\")");
            push_line(&mut lines, l);
        },
        None => {},
    }
    let ghost prefix = views(lines@);
    let mut i: usize = 0;
    while i < orphans.len()
        invariant
            i <= orphans@.len(),
            views(lines@) == prefix + Seq::new(i as nat, |j: int| orphan_help_line(service@, orphans@[j])),
        decreases orphans@.len() - i,
    {
        let o = &orphans[i];
        let mut l = String::from_str("  registered under different identity: ");
        l.append(o.project.as_str());
        l.append("/");
        l.append(service);
        l.append(" → ");
        push_port(&mut l, o.port, o.protocol);
        assert(l@ =~= orphan_help_line(service@, orphans@[i as int]));
        push_line(&mut lines, l);
        i = i + 1;
        assert(views(lines@) =~= prefix + Seq::new(i as nat, |j: int| orphan_help_line(service@, orphans@[j])));
    }
    let hint = if orphans.len() > 0 {
        let mut h = String::from_str("  (try `spout reproject --from ");
        h.append(orphans[0].project.as_str());
        h.append(" --to ");
        h.append(project);
        h.append("`)");
        h
    } else if available.len() == 0 && recently_removed.is_none() {
        let mut h = String::from_str("  (try `spout alloc ");
        h.append(service);
        h.append("`)");
        h
    } else if available.len() == 0 {
        let mut h = String::from_str("  (try `spout alloc ");
        h.append(service);
        h.append("` to register fresh)");
        h
    } else {
        String::from_str("  (try `spout env` for KEY=VALUE)")
    };
    assert(hint@ =~= not_registered_hint(project@, service@, available@, removed, orphans@));
    push_line(&mut lines, hint);
    assert(views(lines@) =~= not_registered_lines(project@, service@, available@, removed, orphans@));
    join_strings(&lines, "\n")
}


/// The lines of the message for a refused reproject.
pub open spec fn reproject_conflict_lines(from: Seq<char>, to: Seq<char>, services: Seq<String>) -> Seq<Seq<char>> {
    seq![
        "cannot reproject from '"@ + from + "' to '"@ + to + "'"@,
        "  services exist in both: "@ + join(views(services), ", "@),
        "  resolve by removing one side first, then retry"@,
    ]
}

/// The message for a reproject refused because both identities hold some
/// of the same services.
pub fn format_reproject_conflict(from: &str, to: &str, services: &Vec<String>) -> (r: String)
    ensures
        r@ == join(reproject_conflict_lines(from@, to@, services@), "\n"@),
{
    let mut lines: Vec<String> = Vec::new();
    let mut l = String::from_str("cannot reproject from '");
    l.append(from);
    l.append("' to '");
    l.append(to);
    l.append("'");
    push_line(&mut lines, l);
    let mut l = String::from_str("  services exist in both: ");
    let joined = join_strings(services, ", ");
    l.append(joined.as_str());
    push_line(&mut lines, l);
    push_line(&mut lines, String::from_str("  resolve by removing one side first, then retry"));
    assert(views(lines@) =~= reproject_conflict_lines(from@, to@, services@));
    join_strings(&lines, "\n")
}

/// `project → port/protocol` for one orphan.
pub open spec fn orphan_target(o: OrphanRecord) -> Seq<char> {
    o.project@ + " → "@ + port_text(o.port, o.protocol)
}

/// The lines of the message for an allocation refused because the service
/// lives under sibling identities: one orphan is reported inline, several
/// as a list; the hint names the first.
pub open spec fn alloc_orphan_match_lines(project: Seq<char>, service: Seq<char>, orphans: Seq<OrphanRecord>) -> Seq<Seq<char>> {
    let head = seq!["refusing to allocate '"@ + service + "' in project '"@ + project + "'"@];
    let body = if orphans.len() == 1 {
        seq!["  '"@ + service + "' already exists under sibling identity: "@ + orphan_target(orphans[0])]
    } else {
        seq!["  '"@ + service + "' already exists under sibling identities:"@]
            + Seq::new(orphans.len(), |i: int| "    "@ + orphan_target(orphans[i]))
    };
    let hint = if orphans.len() > 0 {
        seq!["  (try `spout reproject --from "@ + orphans[0].project@ + " --to "@ + project + "`)"@]
    } else {
        Seq::<Seq<char>>::empty()
    };
    head + body + hint
}

/// Appends `project → port/protocol` to `s`.
fn push_orphan_target(s: &mut String, o: &OrphanRecord)
    ensures
        final(s)@ == old(s)@ + orphan_target(*o),
{
    let ghost start = s@;
    s.append(o.project.as_str());
    s.append(" → ");
    push_port(s, o.port, o.protocol);
    assert(s@ =~= start + orphan_target(*o));
}

/// The message for an allocation refused because of orphans.
pub fn format_alloc_orphan_match(project: &str, service: &str, orphans: &Vec<OrphanRecord>) -> (r: String)
    ensures
        r@ == join(alloc_orphan_match_lines(project@, service@, orphans@), "\n"@),
{
    let mut lines: Vec<String> = Vec::new();
    let mut l = String::from_str("refusing to allocate '");
    l.append(service);
    l.append("' in project '");
    l.append(project);
    l.append("'");
    push_line(&mut lines, l);
    if orphans.len() == 1 {
        let mut l = String::from_str("  '");
        l.append(service);
        l.append("' already exists under sibling identity: ");
        push_orphan_target(&mut l, &orphans[0]);
        push_line(&mut lines, l);
    } else {
        let mut l = String::from_str("  '");
        l.append(service);
        l.append("' already exists under sibling identities:");
        push_line(&mut lines, l);
        let ghost prefix = views(lines@);
        let mut i: usize = 0;
        while i < orphans.len()
            invariant
                i <= orphans@.len(),
                views(lines@) == prefix + Seq::new(i as nat, |j: int| "    "@ + orphan_target(orphans@[j])),
            decreases orphans@.len() - i,
        {
            let mut l = String::from_str("    ");
            push_orphan_target(&mut l, &orphans[i]);
            push_line(&mut lines, l);
            i = i + 1;
            assert(views(lines@) =~= prefix + Seq::new(i as nat, |j: int| "    "@ + orphan_target(orphans@[j])));
        }
    }
    if orphans.len() > 0 {
        let mut h = String::from_str("  (try `spout reproject --from ");
        h.append(orphans[0].project.as_str());
        h.append(" --to ");
        h.append(project);
        h.append("`)");
        push_line(&mut lines, h);
    }
    assert(views(lines@) =~= alloc_orphan_match_lines(project@, service@, orphans@));
    join_strings(&lines, "\n")
}

impl SpoutError {
    /// The text shown to the user for this failure.
    pub open spec fn text(self) -> Seq<char> {
        match self {
            SpoutError::ServiceNotRegistered => "service not registered"@,
            SpoutError::ServiceNotRegisteredInProject { project, service, available, recently_removed, orphans } =>
                join(not_registered_lines(project@, service@, available@, recently_removed, orphans@), "\n"@),
            SpoutError::NoFreePortFound { service, range_start, range_end } =>
                "no free port found for "@ + service@ + " in range "@ + dec(range_start as nat) + "-"@ + dec(range_end as nat),
            SpoutError::RegistryCorrupt(m) => "registry unreadable: "@ + m@,
            SpoutError::RegistryVersionUnknown(v) => "registry version "@ + dec(v as nat) + " is not supported"@,
            SpoutError::PortAlreadyClaimed { port, protocol, project } =>
                "port "@ + port_text(port, protocol) + " is already registered to project '"@ + project@ + "'"@,
            SpoutError::PortInUse { port, protocol } =>
                "port "@ + port_text(port, protocol) + " is already in use by the operating system"@,
            SpoutError::Io(m) => "I/O error: "@ + m@,
            SpoutError::ComposeInvalid(m) => "compose file unreadable: "@ + m@,
            SpoutError::ComposeNotFound(m) => m@,
            SpoutError::Usage(m) => m@,
            SpoutError::ReprojectConflict { from, to, services } =>
                join(reproject_conflict_lines(from@, to@, services@), "\n"@),
            SpoutError::AllocOrphanMatch { project, service, orphans } =>
                join(alloc_orphan_match_lines(project@, service@, orphans@), "\n"@),
        }
    }

    /// The text shown to the user for this failure.
    pub fn message(&self) -> (r: String)
        ensures
            r@ == self.text(),
    {
        match self {
            SpoutError::ServiceNotRegistered => String::from_str("service not registered"),
            SpoutError::ServiceNotRegisteredInProject { project, service, available, recently_removed, orphans } =>
                format_not_registered_help(project.as_str(), service.as_str(), available, recently_removed.as_ref(), orphans),
            SpoutError::NoFreePortFound { service, range_start, range_end } => {
                let mut s = String::from_str("no free port found for ");
                s.append(service.as_str());
                s.append(" in range ");
                push_dec(&mut s, *range_start as u64);
                s.append("-");
                push_dec(&mut s, *range_end as u64);
                assert(s@ =~= self.text());
                s
            },
            SpoutError::RegistryCorrupt(m) => {
                let mut s = String::from_str("registry unreadable: ");
                s.append(m.as_str());
                s
            },
            SpoutError::RegistryVersionUnknown(v) => {
                let mut s = String::from_str("registry version ");
                push_dec(&mut s, *v as u64);
                s.append(" is not supported");
                assert(s@ =~= self.text());
                s
            },
            SpoutError::PortAlreadyClaimed { port, protocol, project } => {
                let mut s = String::from_str("port ");
                push_port(&mut s, *port, *protocol);
                s.append(" is already registered to project '");
                s.append(project.as_str());
                s.append("'");
                assert(s@ =~= self.text());
                s
            },
            SpoutError::PortInUse { port, protocol } => {
                let mut s = String::from_str("port ");
                push_port(&mut s, *port, *protocol);
                s.append(" is already in use by the operating system");
                assert(s@ =~= self.text());
                s
            },
            SpoutError::Io(m) => {
                let mut s = String::from_str("I/O error: ");
                s.append(m.as_str());
                s
            },
            SpoutError::ComposeInvalid(m) => {
                let mut s = String::from_str("compose file unreadable: ");
                s.append(m.as_str());
                s
            },
            SpoutError::ComposeNotFound(m) => m.clone(),
            SpoutError::Usage(m) => m.clone(),
            SpoutError::ReprojectConflict { from, to, services } =>
                format_reproject_conflict(from.as_str(), to.as_str(), services),
            SpoutError::AllocOrphanMatch { project, service, orphans } =>
                format_alloc_orphan_match(project.as_str(), service.as_str(), orphans),
        }
    }
}

} // verus!
