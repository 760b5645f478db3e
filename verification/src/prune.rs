//! `spout prune` — finds stale registrations and removes the ones the user
//! agrees to.
//!
//! A registration is stale when it was allocated more than the cutoff's
//! days ago, or when its project identity is an absolute path that no
//! longer exists. The binary asks whether paths exist and, in interactive
//! mode, reads the answers; every decision is made here.

use std::collections::HashSet;

use vstd::prelude::*;

use crate::date::{days_between, days_between_spec, is_clock_date, today_iso};
use crate::error::SpoutError;
use crate::format::{glyph, port_status_glyph};
use crate::registry::{is_record, Entry, HistoryEntry, Registry, ServiceMap};
use crate::text::{chars_of, dec, pad_right, push_char, push_dec, push_padded, trim, trim_chars};

verus! {

broadcast use vstd::std_specs::hash::group_hash_axioms;

/// Why a registration is a candidate.
#[derive(Debug, Clone, Copy, PartialEq, Eq, Structural)]
pub enum StaleReason {
    /// Allocated this many days ago, more than the cutoff.
    OlderThan(u64),
    /// Its project identity is an absolute path that no longer exists.
    PathMissing,
}

/// A registration offered for removal.
#[derive(Debug)]
pub struct Candidate {
    pub project: String,
    pub service: String,
    pub entry: Entry,
    pub reason: StaleReason,
}

/// Why `entry` is stale, if it is: its project's path is gone, or it was
/// allocated more than `older_than` days before `today`.
pub open spec fn stale_reason(missing: bool, allocated: Seq<char>, today: Seq<char>, older_than: u64) -> Option<StaleReason> {
    if missing {
        Some(StaleReason::PathMissing)
    } else {
        match days_between_spec(allocated, today) {
            Some(d) => if d > (older_than as i64) {
                Some(StaleReason::OlderThan(d as u64))
            } else {
                None
            },
            None => None,
        }
    }
}

/// `(project, service, entry, reason)` of a candidate.
pub open spec fn candidate_view(c: Candidate) -> (Seq<char>, Seq<char>, Entry, StaleReason) {
    (c.project@, c.service@, c.entry, c.reason)
}

pub open spec fn candidates_view(v: Seq<Candidate>) -> Seq<(Seq<char>, Seq<char>, Entry, StaleReason)> {
    Seq::new(v.len(), |i: int| candidate_view(v[i]))
}

/// The candidates among one project's services, in name order.
pub open spec fn service_candidates(
    project: Seq<char>,
    missing: bool,
    items: Seq<(String, Entry)>,
    today: Seq<char>,
    older_than: u64,
) -> Seq<(Seq<char>, Seq<char>, Entry, StaleReason)>
    decreases items.len(),
{
    if items.len() == 0 {
        Seq::empty()
    } else {
        let rest = service_candidates(project, missing, items.drop_last(), today, older_than);
        match stale_reason(missing, items.last().1.allocated@, today, older_than) {
            Some(r) => rest.push((project, items.last().0@, items.last().1, r)),
            None => rest,
        }
    }
}

/// Whether `project` is an absolute path.
pub open spec fn is_absolute(project: Seq<char>) -> bool {
    project.len() > 0 && project[0] == '/'
}

/// The candidates of the registry, in project then service order, given
/// the absolute project paths found `gone`.
pub open spec fn registry_candidates(
    ps: Seq<(String, ServiceMap)>,
    gone: Set<Seq<char>>,
    today: Seq<char>,
    older_than: u64,
) -> Seq<(Seq<char>, Seq<char>, Entry, StaleReason)>
    decreases ps.len(),
{
    if ps.len() == 0 {
        Seq::empty()
    } else {
        let p = ps.last().0@;
        registry_candidates(ps.drop_last(), gone, today, older_than)
            + service_candidates(p, is_absolute(p) && gone.contains(p), ps.last().1.items(), today, older_than)
    }
}

/// `gone` holds exactly the absolute project identities of `ps` the probe
/// reported missing.
pub open spec fn gone_fits<F: Fn(&str) -> bool>(path_exists: F, ps: Seq<(String, ServiceMap)>, gone: Set<Seq<char>>) -> bool {
    forall|i: int| 0 <= i < ps.len() && is_absolute(#[trigger] ps[i].0@) ==> (
        (gone.contains(ps[i].0@) ==> exists|s: &str| s@ == ps[i].0@ && #[trigger] path_exists.ensures((s,), false))
        && (!gone.contains(ps[i].0@) ==> exists|s: &str| s@ == ps[i].0@ && #[trigger] path_exists.ensures((s,), true)))
}

fn push_candidates(
    out: &mut Vec<Candidate>,
    project: &String,
    missing: bool,
    services: &ServiceMap,
    today: &str,
    older_than: u64,
)
    ensures
        candidates_view(final(out)@) == candidates_view(old(out)@) + service_candidates(project@, missing, services.items(), today@, older_than),
{
    let ghost start = candidates_view(out@);
    let es = services.entries();
    let mut i: usize = 0;
    while i < es.len()
        invariant
            es@ == services.items(),
            i <= es@.len(),
            candidates_view(out@) == start + service_candidates(project@, missing, es@.subrange(0, i as int), today@, older_than),
        decreases es@.len() - i,
    {
        assert(es@.subrange(0, i as int + 1).drop_last() =~= es@.subrange(0, i as int));
        let (service, entry) = &es[i];
        let reason = if missing {
            Some(StaleReason::PathMissing)
        } else {
            match days_between(entry.allocated.as_str(), today) {
                Some(d) => if d > (older_than as i64) {
                    Some(StaleReason::OlderThan(d as u64))
                } else {
                    None
                },
                None => None,
            }
        };
        match reason {
            Some(r) => {
                let ghost before = out@;
                out.push(Candidate { project: project.clone(), service: service.clone(), entry: entry.duplicate(), reason: r });
                assert(candidates_view(out@) =~= candidates_view(before).push(candidate_view(out@.last())));
            },
            None => {},
        }
        i = i + 1;
    }
    assert(es@.subrange(0, es@.len() as int) =~= es@);
}

/// The stale candidates as of `today`, in project then service order.
pub fn scan_at<F: Fn(&str) -> bool>(reg: &Registry, older_than: u64, today: &str, path_exists: &F) -> (r: Vec<Candidate>)
    requires
        forall|s: &str| path_exists.requires((s,)),
    ensures
        exists|gone: Set<Seq<char>>| gone_fits(*path_exists, reg.projects.items(), gone)
            && candidates_view(r@) == #[trigger] registry_candidates(reg.projects.items(), gone, today@, older_than),
{
    proof {
        use_type_invariant(&reg.projects);
    }
    let ps = reg.projects.entries();
    let mut out: Vec<Candidate> = Vec::new();
    let ghost mut gone: Set<Seq<char>> = Set::empty();
    let mut i: usize = 0;
    while i < ps.len()
        invariant
            ps@ == reg.projects.items(),
            reg.projects.wf(),
            i <= ps@.len(),
            forall|s: &str| path_exists.requires((s,)),
            forall|p: Seq<char>| #[trigger] gone.contains(p) ==> exists|j: int| 0 <= j < i && ps@[j].0@ == p,
            gone_fits(*path_exists, ps@.subrange(0, i as int), gone),
            candidates_view(out@) == registry_candidates(ps@.subrange(0, i as int), gone, today@, older_than),
        decreases ps@.len() - i,
    {
        let ghost sub = ps@.subrange(0, i as int + 1);
        assert(sub.drop_last() =~= ps@.subrange(0, i as int));
        let (project, services) = &ps[i];
        let cs = chars_of(project.as_str());
        let absolute = cs.len() > 0 && cs[0] == '/';
        let mut missing = false;
        if absolute {
            let p = project.as_str();
            missing = !path_exists(p);
        }
        let ghost old_gone = gone;
        proof {
            if missing {
                gone = gone.insert(project@);
            }
            let pre = ps@.subrange(0, i as int);
            assert forall|j: int| 0 <= j < pre.len() implies (old_gone.contains(#[trigger] pre[j].0@) == gone.contains(pre[j].0@)) by {
                assert(pre[j] == ps@[j]);
                if pre[j].0@ == project@ {
                    assert(reg.projects.keys()[j] == ps@[j].0@);
                    assert(reg.projects.keys()[i as int] == ps@[i as int].0@);
                    crate::strmap::lemma_sorted_distinct(reg.projects.keys(), j, i as int);
                }
            }
            lemma_candidates_gone(pre, old_gone, gone, today@, older_than);
        }
        push_candidates(&mut out, project, missing, services, today, older_than);
        proof {
            assert(is_absolute(project@) == absolute);
            assert(missing == (is_absolute(project@) && gone.contains(project@))) by {
                if !missing && gone.contains(project@) {
                    let j = choose|j: int| 0 <= j < i && ps@[j].0@ == project@;
                    assert(reg.projects.keys()[j] == ps@[j].0@);
                    assert(reg.projects.keys()[i as int] == ps@[i as int].0@);
                    crate::strmap::lemma_sorted_distinct(reg.projects.keys(), j, i as int);
                }
            }
            assert forall|j: int| 0 <= j < sub.len() && is_absolute(#[trigger] sub[j].0@) implies (
                (gone.contains(sub[j].0@) ==> exists|s: &str| s@ == sub[j].0@ && #[trigger] path_exists.ensures((s,), false))
                && (!gone.contains(sub[j].0@) ==> exists|s: &str| s@ == sub[j].0@ && #[trigger] path_exists.ensures((s,), true))) by {
                if j < i {
                    assert(sub[j] == ps@.subrange(0, i as int)[j]);
                    if sub[j].0@ == project@ {
                        assert(reg.projects.keys()[j] == ps@[j].0@);
                        assert(reg.projects.keys()[i as int] == ps@[i as int].0@);
                        crate::strmap::lemma_sorted_distinct(reg.projects.keys(), j, i as int);
                    }
                } else {
                    assert(sub[j] == ps@[i as int]);
                }
            }
        }
        i = i + 1;
    }
    assert(ps@.subrange(0, ps@.len() as int) =~= ps@);
    out
}

proof fn lemma_missing_every_service(project: Seq<char>, items: Seq<(String, Entry)>, today: Seq<char>, older_than: u64)
    ensures
        service_candidates(project, true, items, today, older_than)
            =~= Seq::new(items.len(), |k: int| (project, items[k].0@, items[k].1, StaleReason::PathMissing)),
    decreases items.len(),
{
    if items.len() > 0 {
        lemma_missing_every_service(project, items.drop_last(), today, older_than);
    }
}

proof fn lemma_gone_project_candidates(ps: Seq<(String, ServiceMap)>, gone: Set<Seq<char>>, today: Seq<char>, older_than: u64)
    ensures
        forall|i: int, j: int| 0 <= i < ps.len() && is_absolute(ps[i].0@) && gone.contains(ps[i].0@)
            && 0 <= j < ps[i].1.items().len() ==> registry_candidates(ps, gone, today, older_than).contains(
                (ps[i].0@, (#[trigger] ps[i].1.items()[j]).0@, ps[i].1.items()[j].1, StaleReason::PathMissing)),
    decreases ps.len(),
{
    if ps.len() > 0 {
        let pre = ps.drop_last();
        lemma_gone_project_candidates(pre, gone, today, older_than);
        let a = registry_candidates(pre, gone, today, older_than);
        let p = ps.last().0@;
        let b = service_candidates(p, is_absolute(p) && gone.contains(p), ps.last().1.items(), today, older_than);
        assert(registry_candidates(ps, gone, today, older_than) == a + b);
        assert forall|i: int, j: int| 0 <= i < ps.len() && is_absolute(ps[i].0@) && gone.contains(ps[i].0@)
            && 0 <= j < ps[i].1.items().len() implies (a + b).contains(
                (ps[i].0@, (#[trigger] ps[i].1.items()[j]).0@, ps[i].1.items()[j].1, StaleReason::PathMissing)) by {
            let c = (ps[i].0@, ps[i].1.items()[j].0@, ps[i].1.items()[j].1, StaleReason::PathMissing);
            if i < ps.len() - 1 {
                assert(pre[i] == ps[i]);
                assert(pre[i].1.items()[j] == ps[i].1.items()[j]);
                let k = choose|k: int| 0 <= k < a.len() && a[k] == c;
                assert((a + b)[k] == c);
            } else {
                assert(ps.last() == ps[i]);
                lemma_missing_every_service(p, ps.last().1.items(), today, older_than);
                assert(b[j] == c);
                assert((a + b)[a.len() + j] == c);
            }
        }
    }
}

/// Every service of a project whose identity is an absolute path found
/// missing is a candidate for that reason, whatever its place in the
/// project and however recently it was allocated.
pub proof fn law_missing_path_every_service(reg: Registry, gone: Set<Seq<char>>, today: Seq<char>, older_than: u64, r: Seq<Candidate>)
    requires
        candidates_view(r) == registry_candidates(reg.projects.items(), gone, today, older_than),
    ensures
        forall|i: int, j: int| 0 <= i < reg.projects.items().len() && is_absolute(reg.projects.items()[i].0@)
            && gone.contains(reg.projects.items()[i].0@) && 0 <= j < reg.projects.items()[i].1.items().len()
            ==> candidates_view(r).contains((reg.projects.items()[i].0@,
                (#[trigger] reg.projects.items()[i].1.items()[j]).0@, reg.projects.items()[i].1.items()[j].1,
                StaleReason::PathMissing)),
{
    lemma_gone_project_candidates(reg.projects.items(), gone, today, older_than);
}

proof fn lemma_candidates_gone(ps: Seq<(String, ServiceMap)>, a: Set<Seq<char>>, b: Set<Seq<char>>, today: Seq<char>, older_than: u64)
    requires
        forall|i: int| 0 <= i < ps.len() ==> (a.contains(#[trigger] ps[i].0@) == b.contains(ps[i].0@)),
    ensures
        registry_candidates(ps, a, today, older_than) == registry_candidates(ps, b, today, older_than),
    decreases ps.len(),
{
    if ps.len() > 0 {
        assert forall|i: int| 0 <= i < ps.drop_last().len() implies (a.contains(#[trigger] ps.drop_last()[i].0@) == b.contains(ps.drop_last()[i].0@)) by {
            assert(ps.drop_last()[i] == ps[i]);
        }
        lemma_candidates_gone(ps.drop_last(), a, b, today, older_than);
        assert(a.contains(ps[ps.len() - 1].0@) == b.contains(ps[ps.len() - 1].0@));
    }
}


/// The stale candidates as of today.
pub fn scan<F: Fn(&str) -> bool>(reg: &Registry, older_than: u64, path_exists: &F) -> (r: Vec<Candidate>)
    requires
        forall|s: &str| path_exists.requires((s,)),
    ensures
        exists|today: Seq<char>, gone: Set<Seq<char>>| is_clock_date(today) && gone_fits(*path_exists, reg.projects.items(), gone)
            && candidates_view(r@) == #[trigger] registry_candidates(reg.projects.items(), gone, today, older_than),
{
    let today = today_iso();
    scan_at(reg, older_than, today.as_str(), path_exists)
}

pub open spec fn nothing_text(older_than: u64) -> Seq<char> {
    "Nothing to prune (all registrations < "@ + dec(older_than as nat) + "d, all project paths present)."@
}

/// The report when there is nothing to prune.
pub fn nothing_to_prune(older_than: u64) -> (r: String)
    ensures
        r@ == nothing_text(older_than),
{
    let mut r = String::from_str("Nothing to prune (all registrations < ");
    push_dec(&mut r, older_than);
    r.append("d, all project paths present).");
    r
}

/// One candidate row of the report.
pub open spec fn report_row(c: (Seq<char>, Seq<char>, Entry, StaleReason), bound: Set<u16>) -> Seq<char> {
    let age = match c.3 {
        StaleReason::OlderThan(d) => "("@ + dec(d as nat) + "d)"@,
        StaleReason::PathMissing => Seq::<char>::empty(),
    };
    "    "@ + glyph(bound.contains(c.2.port)) + " "@ + pad_right(c.1, 16) + " "@ + dec(c.2.port as nat) + "  allocated "@
        + c.2.allocated@ + "  "@ + age + "\n"@
}

/// Whether candidate `i` opens a new project group.
pub open spec fn opens_group(cs: Seq<(Seq<char>, Seq<char>, Entry, StaleReason)>, i: int) -> bool {
    i == 0 || cs[i - 1].0 != cs[i].0
}

/// The group header of the project of candidate `c`.
pub open spec fn group_header(c: (Seq<char>, Seq<char>, Entry, StaleReason)) -> Seq<char> {
    "\n  "@ + c.0 + (if c.3 == StaleReason::PathMissing { "   [path missing]"@ } else { Seq::<char>::empty() }) + "\n"@
}

/// The grouped rows of the report.
pub open spec fn report_body(cs: Seq<(Seq<char>, Seq<char>, Entry, StaleReason)>, bound: Set<u16>) -> Seq<char>
    decreases cs.len(),
{
    if cs.len() == 0 {
        Seq::empty()
    } else {
        report_body(cs.drop_last(), bound) + (if opens_group(cs, cs.len() - 1) {
            group_header(cs.last())
        } else {
            Seq::<char>::empty()
        }) + report_row(cs.last(), bound)
    }
}

/// How many project groups the report has.
pub open spec fn group_count(cs: Seq<(Seq<char>, Seq<char>, Entry, StaleReason)>) -> nat
    decreases cs.len(),
{
    if cs.len() == 0 {
        0
    } else {
        group_count(cs.drop_last()) + if opens_group(cs, cs.len() - 1) { 1nat } else { 0nat }
    }
}

/// The dry-run report.
pub open spec fn report_text(older_than: u64, cs: Seq<(Seq<char>, Seq<char>, Entry, StaleReason)>, bound: Set<u16>) -> Seq<char> {
    if cs.len() == 0 {
        nothing_text(older_than)
    } else {
        let pn = group_count(cs);
        "Stale candidates:\n"@ + report_body(cs, bound) + "\n"@ + dec(cs.len()) + " candidate"@
            + (if cs.len() == 1 { Seq::<char>::empty() } else { "s"@ }) + " across "@ + dec(pn) + " project"@
            + (if pn == 1 { Seq::<char>::empty() } else { "s"@ }) + ".\n"@
            + "Rerun `spout prune` to remove interactively, or `spout prune --yes` to skip prompts."@
    }
}

proof fn lemma_group_count_bound(cs: Seq<(Seq<char>, Seq<char>, Entry, StaleReason)>)
    ensures
        group_count(cs) <= cs.len(),
    decreases cs.len(),
{
    if cs.len() > 0 {
        lemma_group_count_bound(cs.drop_last());
    }
}

fn push_group_header(out: &mut String, c: &Candidate)
    ensures
        final(out)@ == old(out)@ + group_header(candidate_view(*c)),
{
    let ghost start = out@;
    out.append("\n  ");
    out.append(c.project.as_str());
    if c.reason == StaleReason::PathMissing {
        out.append("   [path missing]");
    }
    out.append("\n");
    assert(out@ =~= start + group_header(candidate_view(*c)));
}

fn push_report_row(out: &mut String, c: &Candidate, bound: &HashSet<u16>)
    ensures
        final(out)@ == old(out)@ + report_row(candidate_view(*c), bound@),
{
    let ghost start = out@;
    out.append("    ");
    out.append(port_status_glyph(bound.contains(&c.entry.port)));
    out.append(" ");
    push_padded(out, c.service.as_str(), 16);
    out.append(" ");
    push_dec(out, c.entry.port as u64);
    out.append("  allocated ");
    out.append(c.entry.allocated.as_str());
    out.append("  ");
    match c.reason {
        StaleReason::OlderThan(d) => {
            out.append("(");
            push_dec(out, d);
            out.append("d)");
        },
        StaleReason::PathMissing => {},
    }
    out.append("\n");
    assert(out@ =~= start + report_row(candidate_view(*c), bound@));
}

/// The dry-run report: candidates grouped by project with their status
/// glyph, port, allocation date and age, then the counts.
pub fn format_report(older_than: u64, candidates: &Vec<Candidate>, bound: &HashSet<u16>) -> (r: String)
    ensures
        r@ == report_text(older_than, candidates_view(candidates@), bound@),
{
    if candidates.len() == 0 {
        return nothing_to_prune(older_than);
    }
    let ghost cs = candidates_view(candidates@);
    let mut out = String::from_str("Stale candidates:\n");
    let ghost head = out@;
    let mut groups: usize = 0;
    let mut i: usize = 0;
    while i < candidates.len()
        invariant
            cs == candidates_view(candidates@),
            i <= candidates@.len(),
            groups == group_count(cs.subrange(0, i as int)),
            groups <= i,
            out@ == head + report_body(cs.subrange(0, i as int), bound@),
        decreases candidates@.len() - i,
    {
        let ghost sub = cs.subrange(0, i as int + 1);
        assert(sub.drop_last() =~= cs.subrange(0, i as int));
        let c = &candidates[i];
        let opens = i == 0 || !crate::text::str_eq(candidates[i - 1].project.as_str(), c.project.as_str());
        assert(opens == opens_group(sub, i as int)) by {
            if i > 0 {
                assert(sub[i - 1] == cs[i - 1]);
            }
        }
        let ghost before = out@;
        if opens {
            push_group_header(&mut out, c);
            groups = groups + 1;
        }
        let ghost mid = out@;
        push_report_row(&mut out, c, bound);
        proof {
            assert(sub.last() == candidate_view(candidates@[i as int]));
            if opens {
                assert(mid == before + group_header(sub.last()));
            } else {
                assert(mid =~= before + Seq::<char>::empty());
            }
            assert(out@ =~= head + report_body(sub, bound@));
        }
        i = i + 1;
    }
    assert(cs.subrange(0, cs.len() as int) =~= cs);
    let n = candidates.len();
    out.append("\n");
    push_dec(&mut out, n as u64);
    out.append(" candidate");
    if n != 1 {
        out.append("s");
    }
    out.append(" across ");
    push_dec(&mut out, groups as u64);
    out.append(" project");
    if groups != 1 {
        out.append("s");
    }
    out.append(".\n");
    out.append("Rerun `spout prune` to remove interactively, or `spout prune --yes` to skip prompts.");
    assert(out@ =~= report_text(older_than, cs, bound@));
    out
}

/// The history reason a pruned registration is released with.
pub open spec fn removal_reason_text(reason: StaleReason, older_than: u64) -> Seq<char> {
    match reason {
        StaleReason::OlderThan(_) => "pruned: stale (older than "@ + dec(older_than as nat) + "d)"@,
        StaleReason::PathMissing => "pruned: project path missing"@,
    }
}

pub fn removal_reason(reason: StaleReason, older_than: u64) -> (r: String)
    ensures
        r@ == removal_reason_text(reason, older_than),
{
    match reason {
        StaleReason::OlderThan(_) => {
            let mut r = String::from_str("pruned: stale (older than ");
            push_dec(&mut r, older_than);
            r.append("d)");
            r
        },
        StaleReason::PathMissing => String::from_str("pruned: project path missing"),
    }
}

/// Removes a candidate's registration, recording why.
pub fn apply_remove(reg: &mut Registry, c: &Candidate, older_than: u64)
    ensures
        final(reg).version == old(reg).version,
        forall|q: Seq<char>| q != c.project@ ==> (#[trigger] final(reg).projects.has(q) == old(reg).projects.has(q)),
        final(reg).projects.has(c.project@) ==> old(reg).projects.has(c.project@),
        final(reg).entry_of(c.project@, c.service@) is None,
        final(reg).same_except(*old(reg), c.project@, c.service@),
        old(reg).entry_of(c.project@, c.service@) is None ==> final(reg).history@ == old(reg).history@,
        old(reg).entry_of(c.project@, c.service@) matches Some(e) ==> final(reg).history@.len() == old(reg).history@.len() + 1
            && final(reg).history@.drop_last() == old(reg).history@
            && is_record(final(reg).history@.last(), c.project@, c.service@, e, final(reg).history@.last().released@,
                removal_reason_text(c.reason, older_than)),
{
    let reason = removal_reason(c.reason, older_than);
    let _ = reg.remove(c.project.as_str(), c.service.as_str(), reason.as_str());
}


/// `(q, t)` is the registration of one of `cs`.
pub open spec fn is_candidate(cs: Seq<(Seq<char>, Seq<char>, Entry, StaleReason)>, q: Seq<char>, t: Seq<char>) -> bool {
    exists|i: int| 0 <= i < cs.len() && (#[trigger] cs[i]).0 == q && cs[i].1 == t
}

/// The report of a `--yes` prune.
pub open spec fn bulk_text(older_than: u64, cs: Seq<(Seq<char>, Seq<char>, Entry, StaleReason)>) -> Seq<char> {
    if cs.len() == 0 {
        nothing_text(older_than)
    } else {
        removed_lines(cs) + "\nDone: "@ + dec(cs.len()) + " removed, 0 kept."@
    }
}

pub open spec fn removed_lines(cs: Seq<(Seq<char>, Seq<char>, Entry, StaleReason)>) -> Seq<char>
    decreases cs.len(),
{
    if cs.len() == 0 {
        Seq::empty()
    } else {
        removed_lines(cs.drop_last()) + "  removed "@ + cs.last().0 + "/"@ + cs.last().1 + ".\n"@
    }
}

/// `h` records the pruning of one of `cs` from `before`, with that
/// candidate's reason.
pub open spec fn pruned_record(cs: Seq<(Seq<char>, Seq<char>, Entry, StaleReason)>, before: Registry, h: HistoryEntry, older_than: u64) -> bool {
    exists|j: int| 0 <= j < cs.len() && (#[trigger] before.entry_of(cs[j].0, cs[j].1) matches Some(e)
        && is_record(h, cs[j].0, cs[j].1, e, h.released@, removal_reason_text(cs[j].3, older_than)))
}

/// Some entry of `hs` from index `from` on records the pruning of `q`/`t`,
/// registered as `e`, with the reason of a candidate naming it.
pub open spec fn prune_recorded(
    cs: Seq<(Seq<char>, Seq<char>, Entry, StaleReason)>,
    hs: Seq<HistoryEntry>,
    from: int,
    q: Seq<char>,
    t: Seq<char>,
    e: Entry,
    older_than: u64,
) -> bool {
    exists|k: int, j: int| from <= k < hs.len() && 0 <= j < cs.len() && cs[j].0 == q && cs[j].1 == t
        && #[trigger] is_record(hs[k], q, t, e, hs[k].released@, removal_reason_text(cs[j].3, older_than))
}

/// The history after pruning `cs` from `before`: the old history, then one
/// record per pruned registration, with its candidate's reason.
pub open spec fn prune_history(cs: Seq<(Seq<char>, Seq<char>, Entry, StaleReason)>, before: Registry, after: Registry, older_than: u64) -> bool {
    &&& before.history@.len() <= after.history@.len()
    &&& after.history@.subrange(0, before.history@.len() as int) == before.history@
    &&& forall|q: Seq<char>, t: Seq<char>| is_candidate(cs, q, t) && before.entry_of(q, t) is Some
        ==> #[trigger] prune_recorded(cs, after.history@, before.history@.len() as int, q, t, before.entry_of(q, t)->0, older_than)
    &&& forall|k: int| before.history@.len() <= k < after.history@.len()
        ==> #[trigger] pruned_record(cs, before, after.history@[k], older_than)
}

/// Removes every candidate without asking (`--yes`). Each removed
/// registration lands in the history with its candidate's reason, after
/// the history as it was; nothing else is added.
pub fn bulk(reg: &mut Registry, older_than: u64, candidates: &Vec<Candidate>) -> (r: String)
    ensures
        r@ == bulk_text(older_than, candidates_view(candidates@)),
        forall|q: Seq<char>, t: Seq<char>| is_candidate(candidates_view(candidates@), q, t) ==> #[trigger] final(reg).entry_of(q, t) is None,
        forall|q: Seq<char>, t: Seq<char>| !is_candidate(candidates_view(candidates@), q, t) ==> #[trigger] final(reg).entry_of(q, t) == old(reg).entry_of(q, t),
        prune_history(candidates_view(candidates@), *old(reg), *final(reg), older_than),
        final(reg).version == old(reg).version,
        forall|q: Seq<char>| #[trigger] final(reg).projects.has(q) ==> old(reg).projects.has(q),
        forall|q: Seq<char>| (forall|t: Seq<char>| !is_candidate(candidates_view(candidates@), q, t))
            ==> (#[trigger] final(reg).projects.has(q) == old(reg).projects.has(q)),
{
    let ghost cs = candidates_view(candidates@);
    if candidates.len() == 0 {
        assert(reg.history@.subrange(0, reg.history@.len() as int) =~= reg.history@);
        return nothing_to_prune(older_than);
    }
    let mut out = String::new();
    let mut i: usize = 0;
    while i < candidates.len()
        invariant
            cs == candidates_view(candidates@),
            i <= candidates@.len(),
            out@ == removed_lines(cs.subrange(0, i as int)),
            forall|q: Seq<char>, t: Seq<char>| is_candidate(cs.subrange(0, i as int), q, t) ==> #[trigger] reg.entry_of(q, t) is None,
            forall|q: Seq<char>, t: Seq<char>| !is_candidate(cs.subrange(0, i as int), q, t) ==> #[trigger] reg.entry_of(q, t) == old(reg).entry_of(q, t),
            old(reg).history@.len() <= reg.history@.len(),
            reg.history@.subrange(0, old(reg).history@.len() as int) == old(reg).history@,
            forall|q: Seq<char>, t: Seq<char>| is_candidate(cs.subrange(0, i as int), q, t) && old(reg).entry_of(q, t) is Some
                ==> #[trigger] prune_recorded(cs.subrange(0, i as int), reg.history@, old(reg).history@.len() as int, q, t,
                    old(reg).entry_of(q, t)->0, older_than),
            forall|k: int| old(reg).history@.len() <= k < reg.history@.len()
                ==> #[trigger] pruned_record(cs.subrange(0, i as int), *old(reg), reg.history@[k], older_than),
            reg.version == old(reg).version,
            forall|q: Seq<char>| #[trigger] reg.projects.has(q) ==> old(reg).projects.has(q),
            forall|q: Seq<char>| (forall|t: Seq<char>| !is_candidate(cs.subrange(0, i as int), q, t))
                ==> (#[trigger] reg.projects.has(q) == old(reg).projects.has(q)),
        decreases candidates@.len() - i,
    {
        let ghost sub = cs.subrange(0, i as int + 1);
        let ghost pre = cs.subrange(0, i as int);
        assert(sub.drop_last() =~= pre);
        let c = &candidates[i];
        let ghost prev = *reg;
        apply_remove(reg, c, older_than);
        out.append("  removed ");
        out.append(c.project.as_str());
        out.append("/");
        out.append(c.service.as_str());
        out.append(".\n");
        proof {
            assert(sub.last() == candidate_view(*c));
            assert forall|q: Seq<char>| (forall|t: Seq<char>| !is_candidate(sub, q, t))
                implies (#[trigger] reg.projects.has(q) == old(reg).projects.has(q)) by {
                assert forall|t: Seq<char>| !is_candidate(pre, q, t) by {
                    if is_candidate(pre, q, t) {
                        let k = choose|k: int| 0 <= k < pre.len() && (#[trigger] pre[k]).0 == q && pre[k].1 == t;
                        assert(sub[k] == pre[k]);
                        assert(is_candidate(sub, q, t));
                    }
                }
                if q == c.project@ {
                    assert(sub[i as int].0 == c.project@ && sub[i as int].1 == c.service@);
                    assert(is_candidate(sub, q, c.service@));
                }
            }
            assert forall|q: Seq<char>, t: Seq<char>| is_candidate(sub, q, t) implies #[trigger] reg.entry_of(q, t) is None by {
                let k = choose|k: int| 0 <= k < sub.len() && (#[trigger] sub[k]).0 == q && sub[k].1 == t;
                if k < i {
                    assert(pre[k] == sub[k]);
                    assert(is_candidate(pre, q, t));
                    if !(q == c.project@ && t == c.service@) {
                        assert(reg.entry_of(q, t) == prev.entry_of(q, t));
                    }
                }
            }
            assert forall|q: Seq<char>, t: Seq<char>| !is_candidate(sub, q, t) implies #[trigger] reg.entry_of(q, t) == old(reg).entry_of(q, t) by {
                if is_candidate(pre, q, t) {
                    let k = choose|k: int| 0 <= k < pre.len() && (#[trigger] pre[k]).0 == q && pre[k].1 == t;
                    assert(sub[k] == pre[k]);
                }
                assert(sub[i as int].0 == c.project@ && sub[i as int].1 == c.service@);
            }
            if prev.entry_of(c.project@, c.service@) is Some {
                assert(reg.history@.subrange(0, old(reg).history@.len() as int) =~= prev.history@.subrange(0, old(reg).history@.len() as int));
            }
            let base = old(reg).history@.len() as int;
            let hs = reg.history@;
            let ph = prev.history@;
            assert forall|k: int| base <= k < ph.len() implies hs[k] == ph[k] by {
                if prev.entry_of(c.project@, c.service@) is Some {
                    assert(hs.drop_last()[k] == hs[k]);
                }
            }
            // Records already made stay, now among more candidates.
            assert forall|q: Seq<char>, t: Seq<char>| is_candidate(sub, q, t) && old(reg).entry_of(q, t) is Some
                implies #[trigger] prune_recorded(sub, hs, base, q, t, old(reg).entry_of(q, t)->0, older_than) by {
                let e = old(reg).entry_of(q, t)->0;
                if is_candidate(pre, q, t) {
                    assert(prune_recorded(pre, ph, base, q, t, e, older_than));
                    let (k, j) = choose|k: int, j: int| base <= k < ph.len() && 0 <= j < pre.len() && pre[j].0 == q && pre[j].1 == t
                        && #[trigger] is_record(ph[k], q, t, e, ph[k].released@, removal_reason_text(pre[j].3, older_than));
                    assert(sub[j] == pre[j]);
                    assert(is_record(hs[k], q, t, e, hs[k].released@, removal_reason_text(sub[j].3, older_than)));
                } else {
                    let j = choose|j: int| 0 <= j < sub.len() && (#[trigger] sub[j]).0 == q && sub[j].1 == t;
                    if j < i {
                        assert(pre[j] == sub[j]);
                        assert(is_candidate(pre, q, t));
                    }
                    assert(q == c.project@ && t == c.service@);
                    assert(prev.entry_of(q, t) == old(reg).entry_of(q, t));
                    let k = hs.len() - 1;
                    assert(is_record(hs[k], q, t, e, hs[k].released@, removal_reason_text(sub[i as int].3, older_than)));
                }
            }
            assert forall|k: int| base <= k < hs.len() implies #[trigger] pruned_record(sub, *old(reg), hs[k], older_than) by {
                if k < ph.len() {
                    assert(pruned_record(pre, *old(reg), ph[k], older_than));
                    let j = choose|j: int| 0 <= j < pre.len() && (#[trigger] old(reg).entry_of(pre[j].0, pre[j].1) matches Some(e)
                        && is_record(ph[k], pre[j].0, pre[j].1, e, ph[k].released@, removal_reason_text(pre[j].3, older_than)));
                    assert(sub[j] == pre[j]);
                } else {
                    assert(prev.entry_of(c.project@, c.service@) is Some);
                    if is_candidate(pre, c.project@, c.service@) {
                        assert(prev.entry_of(c.project@, c.service@) is None);
                    }
                    assert(prev.entry_of(c.project@, c.service@) == old(reg).entry_of(c.project@, c.service@));
                    assert(old(reg).entry_of(sub[i as int].0, sub[i as int].1) matches Some(e)
                        && is_record(hs[k], sub[i as int].0, sub[i as int].1, e, hs[k].released@, removal_reason_text(sub[i as int].3, older_than)));
                }
            }
        }
        i = i + 1;
    }
    assert(cs.subrange(0, cs.len() as int) =~= cs);
    out.append("\nDone: ");
    push_dec(&mut out, candidates.len() as u64);
    out.append(" removed, 0 kept.");
    out
}

/// An answer to `[y/N/q/!]`.
#[derive(Debug, Clone, Copy, PartialEq, Eq, Structural)]
pub enum Response {
    Yes,
    No,
    Quit,
    YesToAll,
}

/// Reads an answer: `y`/`Y` yes, `q`/`Q` quit, `!` yes to all, anything
/// else no; surrounding white space ignored. (End of input is a quit.)
pub fn parse_response(line: &str) -> (r: Response)
    ensures
        r == (if trim(line@) == seq!['y'] || trim(line@) == seq!['Y'] {
            Response::Yes
        } else if trim(line@) == seq!['q'] || trim(line@) == seq!['Q'] {
            Response::Quit
        } else if trim(line@) == seq!['!'] {
            Response::YesToAll
        } else {
            Response::No
        }),
{
    let t = trim_chars(&chars_of(line));
    if t.len() != 1 {
        proof {
            assert(t@.len() != seq!['y'].len());
        }
        return Response::No;
    }
    proof {
        assert(t@ =~= seq![t@[0]]);
    }
    let c = t[0];
    if c == 'y' || c == 'Y' {
        Response::Yes
    } else if c == 'q' || c == 'Q' {
        Response::Quit
    } else if c == '!' {
        Response::YesToAll
    } else {
        proof {
            assert(t@ != seq!['y'] && t@ != seq!['Y'] && t@ != seq!['q'] && t@ != seq!['Q'] && t@ != seq!['!']) by {
                assert(seq!['y'][0] == 'y');
                assert(seq!['Y'][0] == 'Y');
                assert(seq!['q'][0] == 'q');
                assert(seq!['Q'][0] == 'Q');
                assert(seq!['!'][0] == '!');
            }
        }
        Response::No
    }
}

/// The question asked about one candidate.
pub open spec fn prompt_text_spec(c: (Seq<char>, Seq<char>, Entry, StaleReason), bound: Set<u16>) -> Seq<char> {
    let suffix = if c.3 == StaleReason::PathMissing { " [path missing]"@ } else { Seq::<char>::empty() };
    let age = match c.3 {
        StaleReason::OlderThan(d) => dec(d as nat) + "d ago"@,
        StaleReason::PathMissing => "path missing"@,
    };
    "Remove "@ + c.0 + "/"@ + c.1 + "?"@ + suffix + "\n  allocated "@ + c.2.allocated@ + " ("@ + age + ", "@
        + glyph(bound.contains(c.2.port)) + ")\n  [y/N/q/!] "@
}

pub fn prompt_text(c: &Candidate, bound: &HashSet<u16>) -> (r: String)
    ensures
        r@ == prompt_text_spec(candidate_view(*c), bound@),
{
    let mut r = String::from_str("Remove ");
    r.append(c.project.as_str());
    r.append("/");
    r.append(c.service.as_str());
    r.append("?");
    if c.reason == StaleReason::PathMissing {
        r.append(" [path missing]");
    }
    r.append("\n  allocated ");
    r.append(c.entry.allocated.as_str());
    r.append(" (");
    match c.reason {
        StaleReason::OlderThan(d) => {
            push_dec(&mut r, d);
            r.append("d ago");
        },
        StaleReason::PathMissing => {
            r.append("path missing");
        },
    }
    r.append(", ");
    r.append(port_status_glyph(bound.contains(&c.entry.port)));
    r.append(")\n  [y/N/q/!] ");
    assert(r@ =~= prompt_text_spec(candidate_view(*c), bound@));
    r
}

/// What to do with the candidate at hand.
#[derive(Debug, Clone, Copy, PartialEq, Eq, Structural)]
pub enum Step {
    /// Remove it (then print `  removed.`).
    Remove,
    /// Keep it and go on.
    Keep,
    /// Stop asking; leave it and the rest.
    Stop,
}

/// The state of an interactive prune: whether the user said yes to all,
/// and how many were removed and kept so far.
#[derive(Debug)]
pub struct PruneSession {
    pub yes_to_all: bool,
    pub removed: usize,
    pub kept: usize,
}

impl PruneSession {
    pub fn new() -> (r: PruneSession)
        ensures
            !r.yes_to_all && r.removed == 0 && r.kept == 0,
    {
        PruneSession { yes_to_all: false, removed: 0, kept: 0 }
    }

    /// Whether the next candidate needs a question (not after `!`).
    pub fn needs_prompt(&self) -> (r: bool)
        ensures
            r == !self.yes_to_all,
    {
        !self.yes_to_all
    }

    /// Takes the answer for the candidate at hand (after `!`, pass `Yes`).
    pub fn step(&mut self, response: Response) -> (s: Step)
        requires
            old(self).removed + old(self).kept < usize::MAX,
        ensures
            s == match response {
                Response::Yes | Response::YesToAll => Step::Remove,
                Response::No => Step::Keep,
                Response::Quit => Step::Stop,
            },
            final(self).yes_to_all == (old(self).yes_to_all || response == Response::YesToAll),
            final(self).removed == old(self).removed + (if s == Step::Remove { 1int } else { 0int }),
            final(self).kept == old(self).kept + (if s == Step::Keep { 1int } else { 0int }),
    {
        match response {
            Response::Yes => {
                self.removed = self.removed + 1;
                Step::Remove
            },
            Response::YesToAll => {
                self.yes_to_all = true;
                self.removed = self.removed + 1;
                Step::Remove
            },
            Response::No => {
                self.kept = self.kept + 1;
                Step::Keep
            },
            Response::Quit => Step::Stop,
        }
    }

    /// The closing line of the session.
    pub fn done_text(&self) -> (r: String)
        ensures
            r@ == "\nDone: "@ + dec(self.removed as nat) + " removed, "@ + dec(self.kept as nat) + " kept."@,
    {
        let mut r = String::from_str("\nDone: ");
        push_dec(&mut r, self.removed as u64);
        r.append(" removed, ");
        push_dec(&mut r, self.kept as u64);
        r.append(" kept.");
        r
    }
}

/// The non-interactive outcomes of `spout prune`: `--dry-run` reports,
/// `--yes` removes everything, and with no candidate there is nothing to
/// ask; `None` when the caller must ask about each candidate (an
/// interactive session).
pub fn run(reg: &mut Registry, older_than: u64, dry_run: bool, yes: bool, candidates: &Vec<Candidate>, bound: &HashSet<u16>) -> (r: Option<String>)
    ensures
        dry_run ==> (r matches Some(s) && s@ == report_text(older_than, candidates_view(candidates@), bound@)) && *final(reg) == *old(reg),
        !dry_run && yes ==> (r matches Some(s) && s@ == bulk_text(older_than, candidates_view(candidates@)))
            && (forall|q: Seq<char>, t: Seq<char>| is_candidate(candidates_view(candidates@), q, t) ==> #[trigger] final(reg).entry_of(q, t) is None)
            && (forall|q: Seq<char>, t: Seq<char>| !is_candidate(candidates_view(candidates@), q, t) ==> #[trigger] final(reg).entry_of(q, t) == old(reg).entry_of(q, t))
            && prune_history(candidates_view(candidates@), *old(reg), *final(reg), older_than)
            && final(reg).version == old(reg).version
            && (forall|q: Seq<char>| #[trigger] final(reg).projects.has(q) ==> old(reg).projects.has(q))
            && (forall|q: Seq<char>| (forall|t: Seq<char>| !is_candidate(candidates_view(candidates@), q, t))
                ==> (#[trigger] final(reg).projects.has(q) == old(reg).projects.has(q))),
        !dry_run && !yes && candidates@.len() == 0 ==> (r matches Some(s) && s@ == nothing_text(older_than)) && *final(reg) == *old(reg),
        !dry_run && !yes && candidates@.len() > 0 ==> r is None && *final(reg) == *old(reg),
{
    if dry_run {
        return Some(format_report(older_than, candidates, bound));
    }
    if yes {
        return Some(bulk(reg, older_than, candidates));
    }
    if candidates.len() == 0 {
        return Some(nothing_to_prune(older_than));
    }
    None
}

} // verus!
