//! `spout rm` — one service, or every service of a project after a
//! preview and (unless `--yes`) a confirmation the binary asks for.

use vstd::prelude::*;

use crate::error::SpoutError;
use crate::format::{byte_len, max_name_len};
use crate::registry::{is_record, Entry, Registry};
use crate::text::{chars_of, dec, join, join_strings, pad_right, push_dec, push_line, push_padded, str_eq, trim, trim_chars, views};

verus! {

/// Flags of `spout rm`.
#[derive(Clone, Copy, Debug)]
pub struct RmOptions {
    pub yes: bool,
    pub dry_run: bool,
}

impl Default for RmOptions {
    fn default() -> (r: Self)
        ensures
            !r.yes && !r.dry_run,
    {
        RmOptions { yes: false, dry_run: false }
    }
}

/// What `spout rm` removes.
#[derive(Debug)]
pub enum RmTarget {
    /// One service; a `project` of `None` is the current project.
    Service { name: String, project: Option<String> },
    /// Every service of the named project.
    Project { name: String },
}

/// Removes `service` from `project`, recorded as `user requested`.
pub fn rm_one(reg: &mut Registry, project: &str, service: &str) -> (r: Result<String, SpoutError>)
    ensures
        old(reg).port_of(project@, service@) is None ==> r == Err::<String, SpoutError>(SpoutError::ServiceNotRegistered)
            && final(reg).history@ == old(reg).history@
            && forall|q: Seq<char>, t: Seq<char>| #[trigger] final(reg).entry_of(q, t) == old(reg).entry_of(q, t),
        old(reg).port_of(project@, service@) is Some ==> {
            &&& r matches Ok(s) && s@.len() == 0
            &&& final(reg).entry_of(project@, service@) is None
            &&& final(reg).same_except(*old(reg), project@, service@)
            &&& final(reg).history@.len() == old(reg).history@.len() + 1
            &&& final(reg).history@.drop_last() == old(reg).history@
            &&& is_record(final(reg).history@.last(), project@, service@, old(reg).entry_of(project@, service@)->0,
                final(reg).history@.last().released@, "user requested"@)
        },
{
    match reg.remove(project, service, "user requested") {
        Some(_) => Ok(String::new()),
        None => Err(SpoutError::ServiceNotRegistered),
    }
}

/// `(name, port)` of every service of `project`, in name order; refused
/// when the project has none.
pub fn list_services(reg: &Registry, project: &str) -> (r: Result<Vec<(String, u16)>, SpoutError>)
    ensures
        match reg.projects.lookup(project@) {
            Some(m) => if m.items().len() > 0 {
                r matches Ok(v) && v@.len() == m.items().len() && forall|i: int| 0 <= i < v@.len() ==>
                    (#[trigger] v@[i]).0@ == m.items()[i].0@ && v@[i].1 == m.items()[i].1.port
            } else {
                r == Err::<Vec<(String, u16)>, SpoutError>(SpoutError::ServiceNotRegistered)
            },
            None => r == Err::<Vec<(String, u16)>, SpoutError>(SpoutError::ServiceNotRegistered),
        },
{
    let services = match reg.projects.get(project) {
        Some(s) => s,
        None => return Err(SpoutError::ServiceNotRegistered),
    };
    if services.is_empty() {
        return Err(SpoutError::ServiceNotRegistered);
    }
    let es = services.entries();
    let mut v: Vec<(String, u16)> = Vec::new();
    let mut i: usize = 0;
    while i < es.len()
        invariant
            es@ == services.items(),
            i <= es@.len(),
            v@.len() == i,
            forall|j: int| 0 <= j < i ==> (#[trigger] v@[j]).0@ == es@[j].0@ && v@[j].1 == es@[j].1.port,
        decreases es@.len() - i,
    {
        v.push((es[i].0.clone(), es[i].1.port));
        i = i + 1;
    }
    Ok(v)
}

/// The longest name among `services`, in UTF-8 bytes.
pub open spec fn widest(services: Seq<(String, u16)>) -> int
    decreases services.len(),
{
    if services.len() == 0 {
        0
    } else {
        let rest = widest(services.drop_last());
        let here = byte_len(services.last().0@);
        if here > rest {
            here
        } else {
            rest
        }
    }
}

/// The preview of a whole-project removal.
pub open spec fn block_text(project: Seq<char>, services: Seq<(String, u16)>) -> Seq<char> {
    let w = widest(services) as nat;
    "Remove all "@ + dec(services.len()) + " service(s) for '"@ + project + "'?\n"@ + join(
        Seq::new(services.len(), |i: int| "  "@ + pad_right(services[i].0@, w) + "  "@ + dec(services[i].1 as nat)),
        "\n"@,
    )
}

/// The preview shown before removing every service of `project`.
pub fn format_block(project: &str, services: &Vec<(String, u16)>) -> (r: String)
    ensures
        r@ == block_text(project@, services@),
{
    let mut width: usize = 0;
    let mut i: usize = 0;
    while i < services.len()
        invariant
            i <= services@.len(),
            width == widest(services@.subrange(0, i as int)),
        decreases services@.len() - i,
    {
        assert(services@.subrange(0, i as int + 1).drop_last() =~= services@.subrange(0, i as int));
        let n = services[i].0.as_str().len();
        if n > width {
            width = n;
        }
        i = i + 1;
    }
    assert(services@.subrange(0, services@.len() as int) =~= services@);
    let ghost w = width as nat;
    let mut rows: Vec<String> = Vec::new();
    let mut i: usize = 0;
    while i < services.len()
        invariant
            i <= services@.len(),
            w == width,
            views(rows@) == Seq::new(i as nat, |j: int| "  "@ + pad_right(services@[j].0@, w) + "  "@ + dec(services@[j].1 as nat)),
        decreases services@.len() - i,
    {
        let mut l = String::from_str("  ");
        push_padded(&mut l, services[i].0.as_str(), width);
        l.append("  ");
        push_dec(&mut l, services[i].1 as u64);
        push_line(&mut rows, l);
        i = i + 1;
        assert(views(rows@) =~= Seq::new(i as nat, |j: int| "  "@ + pad_right(services@[j].0@, w) + "  "@ + dec(services@[j].1 as nat)));
    }
    let mut r = String::from_str("Remove all ");
    push_dec(&mut r, services.len() as u64);
    r.append(" service(s) for '");
    r.append(project);
    r.append("'?\n");
    let body = join_strings(&rows, "\n");
    r.append(body.as_str());
    r
}

/// Whether an answer to `[y/N]` confirms: `y` or `Y`, surrounding white
/// space ignored.
pub fn is_confirmation(line: &str) -> (r: bool)
    ensures
        r == (trim(line@) == "y"@ || trim(line@) == "Y"@),
{
    proof {
        reveal_strlit("y");
        reveal_strlit("Y");
    }
    let t = trim_chars(&chars_of(line));
    let r = t.len() == 1 && (t[0] == 'y' || t[0] == 'Y');
    proof {
        assert("y"@ =~= seq!['y']);
        assert("Y"@ =~= seq!['Y']);
        if t.len() == 1 {
            assert(t@ =~= seq![t@[0]]);
        }
        if trim(line@) == "y"@ || trim(line@) == "Y"@ {
            assert(t@.len() == 1);
        }
    }
    r
}

/// The next move of a whole-project removal.
#[derive(Debug, Clone, Copy, PartialEq, Eq, Structural)]
pub enum ProjectRmMove {
    /// Show the preview and stop.
    Preview,
    /// Show the preview and ask `[y/N]`; remove only on a confirmation.
    Ask,
    /// Remove at once.
    Remove,
}

/// `--dry-run` only previews; `--yes` removes without asking; otherwise
/// the user is asked first.
pub fn project_rm_move(opts: RmOptions) -> (r: ProjectRmMove)
    ensures
        r == (if opts.dry_run {
            ProjectRmMove::Preview
        } else if opts.yes {
            ProjectRmMove::Remove
        } else {
            ProjectRmMove::Ask
        }),
{
    if opts.dry_run {
        ProjectRmMove::Preview
    } else if opts.yes {
        ProjectRmMove::Remove
    } else {
        ProjectRmMove::Ask
    }
}

/// The answer when the user declines the removal.
pub fn cancelled_message(project: &str) -> (r: String)
    ensures
        r@ == "Cancelled. No changes to '"@ + project@ + "'."@,
{
    let mut r = String::from_str("Cancelled. No changes to '");
    r.append(project);
    r.append("'.");
    r
}

/// Removes every service of `project`, recorded as
/// `user requested (project rm)`, and reports how many went.
pub fn rm_project_apply(reg: &mut Registry, project: &str) -> (r: String)
    ensures
        ({
            let n = match old(reg).projects.lookup(project@) {
                Some(m) => m.items().len(),
                None => 0,
            };
            r@ == "Removed "@ + dec(n) + " service(s) from '"@ + project@ + "'."@
        }),
        forall|q: Seq<char>| #[trigger] final(reg).projects.has(q) == (q != project@ && old(reg).projects.has(q)),
        forall|q: Seq<char>, t: Seq<char>| q != project@ ==> #[trigger] final(reg).entry_of(q, t) == old(reg).entry_of(q, t),
        match old(reg).projects.lookup(project@) {
            None => final(reg).history@ == old(reg).history@,
            Some(m) => {
                &&& final(reg).history@.len() == old(reg).history@.len() + m.items().len()
                &&& final(reg).history@.subrange(0, old(reg).history@.len() as int) == old(reg).history@
                &&& forall|i: int| 0 <= i < m.items().len() ==> is_record(
                    #[trigger] final(reg).history@[old(reg).history@.len() + i],
                    project@,
                    m.items()[i].0@,
                    m.items()[i].1,
                    final(reg).history@[old(reg).history@.len() as int].released@,
                    "user requested (project rm)"@,
                )
            },
        },
{
    let n = reg.remove_project(project, "user requested (project rm)");
    let mut r = String::from_str("Removed ");
    push_dec(&mut r, n as u64);
    r.append(" service(s) from '");
    r.append(project);
    r.append("'.");
    r
}


/// What `spout rm [SERVICE] [--project [NAME]]` targets: a service (of the
/// named project, else the current one); else every service of the named
/// project, or of the current project (as `current` answers) for a bare
/// `--project`. Neither is a usage error.
pub fn build_rm_target<F: Fn() -> Result<String, SpoutError>>(
    service: Option<String>,
    project: Option<Option<String>>,
    current: &F,
) -> (r: Result<RmTarget, SpoutError>)
    requires
        current.requires(()),
    ensures
        match (service, project) {
            (Some(name), Some(Some(p))) => r matches Ok(RmTarget::Service { name: n, project: Some(q) }) && n == name && q == p,
            (Some(name), _) => r matches Ok(RmTarget::Service { name: n, project: None }) && n == name,
            (None, Some(Some(p))) => r matches Ok(RmTarget::Project { name: n }) && n == p,
            (None, Some(None)) => exists|c: Result<String, SpoutError>| #[trigger] current.ensures((), c) && match c {
                Ok(n) => r matches Ok(RmTarget::Project { name: m }) && m == n,
                Err(e) => r == Err::<RmTarget, SpoutError>(e),
            },
            (None, None) => r matches Err(SpoutError::Usage(m)) && m@ == "spout rm: specify a service or pass --project [NAME]"@,
        },
{
    match (service, project) {
        (Some(name), Some(Some(p))) => Ok(RmTarget::Service { name, project: Some(p) }),
        (Some(name), _) => Ok(RmTarget::Service { name, project: None }),
        (None, Some(Some(p))) => Ok(RmTarget::Project { name: p }),
        (None, Some(None)) => {
            let c = current();
            match c {
                Ok(n) => Ok(RmTarget::Project { name: n }),
                Err(e) => Err(e),
            }
        },
        (None, None) => Err(SpoutError::Usage(String::from_str("spout rm: specify a service or pass --project [NAME]"))),
    }
}

} // verus!
