use std::collections::HashSet;

use spout::date::{civil_from_days, days_between, format_iso, today_iso};
use spout::prune::{
    apply_remove, bulk, format_report, nothing_to_prune, parse_response, prompt_text, run, scan, scan_at, Candidate,
    PruneSession, Response, StaleReason, Step,
};
use spout::protocol::Protocol;
use spout::registry::{Entry, Registry};
use spout::strmap::StrMap;

fn iso_days_ago(n: i64) -> String {
    let today_days = days_between("1970-01-01", &today_iso()).unwrap();
    let (y, m, d) = civil_from_days(today_days - n);
    format_iso(y, m, d)
}

fn seed(reg: &mut Registry, project: &str, service: &str, port: u16, allocated: &str) {
    let mut services = match reg.projects.remove(project) {
        Some(m) => m,
        None => StrMap::new(),
    };
    services.insert(
        service.to_owned(),
        Entry {
            port,
            allocated: allocated.to_owned(),
            protocol: Protocol::default(),
        },
    );
    reg.projects.insert(project.to_owned(), services);
}

fn every_path_exists(_p: &str) -> bool {
    true
}

#[test]
fn scan_empty_registry_yields_no_candidates() {
    let reg = Registry::default();
    assert!(scan(&reg, 90, &every_path_exists).is_empty());
}

#[test]
fn scan_age_filters_by_cutoff() {
    let mut reg = Registry::default();
    seed(&mut reg, "p", "fresh", 20_000, &iso_days_ago(5));
    seed(&mut reg, "p", "stale", 20_001, &iso_days_ago(100));
    seed(&mut reg, "p", "older", 20_002, &iso_days_ago(200));
    let got = scan(&reg, 90, &every_path_exists);
    let names: Vec<_> = got.iter().map(|c| c.service.as_str()).collect();
    assert_eq!(names, vec!["older", "stale"]);
}

#[test]
fn scan_respects_older_than_cutoff() {
    let mut reg = Registry::default();
    seed(&mut reg, "p", "mid", 20_001, &iso_days_ago(100));
    seed(&mut reg, "p", "old", 20_002, &iso_days_ago(200));
    let got = scan(&reg, 150, &every_path_exists);
    assert_eq!(got.len(), 1);
    assert_eq!(got[0].service, "old");
}

#[test]
fn scan_flags_path_missing_identities() {
    let mut reg = Registry::default();
    seed(&mut reg, "/tmp/gone", "svc", 20_000, &today_iso());
    seed(&mut reg, "relative/gone", "svc", 20_001, &today_iso());
    let nothing = |_p: &str| false;
    let got = scan(&reg, 90, &nothing);
    assert_eq!(got.len(), 1);
    assert_eq!(got[0].project, "/tmp/gone");
    assert_eq!(got[0].reason, StaleReason::PathMissing);
}

#[test]
fn nothing_to_prune_uses_the_actual_cutoff() {
    assert!(nothing_to_prune(30).contains("< 30d"));
    assert!(nothing_to_prune(180).contains("< 180d"));
}

#[test]
fn format_report_groups_by_project_and_reports_count() {
    let mut reg = Registry::default();
    seed(&mut reg, "proj-a", "alpha", 20_001, &iso_days_ago(100));
    seed(&mut reg, "proj-a", "beta", 20_002, &iso_days_ago(150));
    seed(&mut reg, "proj-b", "gamma", 20_003, &iso_days_ago(200));
    let candidates = scan(&reg, 90, &every_path_exists);
    let out = format_report(90, &candidates, &HashSet::new());
    assert!(out.contains("proj-a"));
    assert!(out.contains("proj-b"));
    assert!(out.contains("3 candidates across 2 projects"), "got {out}");
}

#[test]
fn scan_at_and_report_are_exact() {
    let mut reg = Registry::default();
    seed(&mut reg, "p", "old", 20_001, "2026-01-01");
    seed(&mut reg, "p", "new", 20_002, "2026-04-01");
    let got = scan_at(&reg, 90, "2026-04-20", &every_path_exists);
    assert_eq!(got.len(), 1);
    assert_eq!(got[0].reason, StaleReason::OlderThan(109));
    let bound: HashSet<u16> = [20_001].into_iter().collect();
    assert_eq!(
        format_report(90, &got, &bound),
        "Stale candidates:\n\n  p\n    ● old              20001  allocated 2026-01-01  (109d)\n\n1 candidate across 1 project.\nRerun `spout prune` to remove interactively, or `spout prune --yes` to skip prompts."
    );
    assert_eq!(
        prompt_text(&got[0], &bound),
        "Remove p/old?\n  allocated 2026-01-01 (109d ago, ●)\n  [y/N/q/!] "
    );
}

#[test]
fn bulk_removes_all_and_records_reasons() {
    let mut reg = Registry::default();
    seed(&mut reg, "p", "old-a", 20_001, &iso_days_ago(120));
    seed(&mut reg, "p", "old-b", 20_002, &iso_days_ago(150));
    seed(&mut reg, "p", "old-c", 20_003, &iso_days_ago(200));
    let candidates = scan(&reg, 90, &every_path_exists);
    let out = bulk(&mut reg, 90, &candidates);
    assert!(out.contains("3 removed, 0 kept"), "got {out}");
    assert!(reg.projects.is_empty());
    assert!(reg.history.iter().all(|h| h.reason == "pruned: stale (older than 90d)"));
}

#[test]
fn bulk_with_no_candidates_says_nothing_to_prune() {
    let mut reg = Registry::default();
    seed(&mut reg, "p", "fresh", 20_000, &today_iso());
    let candidates = scan(&reg, 90, &every_path_exists);
    let out = run(&mut reg, 90, false, true, &candidates, &HashSet::new()).unwrap();
    assert!(out.contains("Nothing to prune"), "got {out}");
}

#[test]
fn bulk_path_missing_uses_path_reason_string() {
    let mut reg = Registry::default();
    seed(&mut reg, "/tmp/gone", "svc", 20_000, &today_iso());
    let nothing = |_p: &str| false;
    let candidates = scan(&reg, 90, &nothing);
    bulk(&mut reg, 90, &candidates);
    assert_eq!(reg.history[0].reason, "pruned: project path missing");
}

#[test]
fn dry_run_reports_candidates() {
    let mut reg = Registry::default();
    seed(&mut reg, "p", "old-a", 20_001, &iso_days_ago(120));
    seed(&mut reg, "p", "old-b", 20_002, &iso_days_ago(150));
    seed(&mut reg, "p", "old-c", 20_003, &iso_days_ago(200));
    let candidates = scan(&reg, 90, &every_path_exists);
    let out = run(&mut reg, 90, true, false, &candidates, &HashSet::new()).unwrap();
    assert!(out.contains("3 candidates across 1 project"), "got {out}");
    assert_eq!(reg.projects.get("p").unwrap().len(), 3);
    assert!(run(&mut reg, 90, false, false, &candidates, &HashSet::new()).is_none());
}

#[test]
fn responses_and_session_steps() {
    assert_eq!(parse_response("y\n"), Response::Yes);
    assert_eq!(parse_response("Q"), Response::Quit);
    assert_eq!(parse_response(" ! "), Response::YesToAll);
    assert_eq!(parse_response("\n"), Response::No);
    let mut s = PruneSession::new();
    assert!(s.needs_prompt());
    assert_eq!(s.step(Response::No), Step::Keep);
    assert_eq!(s.step(Response::YesToAll), Step::Remove);
    assert!(!s.needs_prompt());
    assert_eq!(s.step(Response::Yes), Step::Remove);
    assert_eq!(s.step(Response::Quit), Step::Stop);
    assert_eq!(s.done_text(), "\nDone: 2 removed, 1 kept.");
}

fn dry_run(reg: &mut Registry, older_than: u64) -> String {
    dry_run_with(reg, older_than, &every_path_exists)
}

fn dry_run_with<F: Fn(&str) -> bool>(reg: &mut Registry, older_than: u64, path_exists: &F) -> String {
    let candidates = scan(reg, older_than, path_exists);
    run(reg, older_than, true, false, &candidates, &HashSet::new()).unwrap()
}

/// One interactive prune session fed `input` line by line, as the binary
/// runs it; answers what it printed.
fn interactive(reg: &mut Registry, older_than: u64, candidates: &[Candidate], input: &str) -> String {
    let bound = HashSet::new();
    let mut lines = input.split_inclusive('\n');
    let mut out = String::new();
    let mut session = PruneSession::new();
    for c in candidates {
        let response = if session.needs_prompt() {
            out.push_str(&prompt_text(c, &bound));
            match lines.next() {
                Some(line) => parse_response(line),
                None => Response::Quit,
            }
        } else {
            Response::Yes
        };
        match session.step(response) {
            Step::Remove => {
                apply_remove(reg, c, older_than);
                out.push_str("  removed.\n");
            }
            Step::Keep => {}
            Step::Stop => break,
        }
    }
    out.push_str(&session.done_text());
    out.push('\n');
    out
}

fn seed_stale() -> Registry {
    let mut reg = Registry::default();
    seed(&mut reg, "p", "old-a", 20_001, &iso_days_ago(120));
    seed(&mut reg, "p", "old-b", 20_002, &iso_days_ago(150));
    seed(&mut reg, "p", "old-c", 20_003, &iso_days_ago(200));
    reg
}

#[test]
fn dry_run_with_no_stale_entries_says_nothing_to_prune() {
    let mut reg = Registry::default();
    seed(&mut reg, "p", "s", 20_000, &today_iso());
    let out = dry_run(&mut reg, 90);
    assert!(out.contains("Nothing to prune"), "got {out}");
}

#[test]
fn dry_run_surfaces_age_triggered_candidates() {
    let mut reg = Registry::default();
    seed(&mut reg, "p", "fresh", 20_000, &iso_days_ago(5));
    seed(&mut reg, "p", "stale", 20_001, &iso_days_ago(100));
    seed(&mut reg, "p", "older", 20_002, &iso_days_ago(200));
    let out = dry_run(&mut reg, 90);
    assert!(!out.contains("fresh"), "got {out}");
    assert!(out.contains("stale"), "got {out}");
    assert!(out.contains("older"), "got {out}");
}

#[test]
fn dry_run_respects_older_than_cutoff() {
    let mut reg = Registry::default();
    seed(&mut reg, "p", "mid", 20_001, &iso_days_ago(100));
    seed(&mut reg, "p", "old", 20_002, &iso_days_ago(200));
    let out = dry_run(&mut reg, 150);
    assert!(!out.contains("mid"), "got {out}");
    assert!(out.contains("old"), "got {out}");
}

#[test]
fn dry_run_surfaces_path_missing_candidate() {
    let gone = "/tmp/spout-test/gone-for-good";
    let mut reg = Registry::default();
    seed(&mut reg, gone, "svc", 20_000, &today_iso());
    let out = dry_run_with(&mut reg, 90, &|p: &str| p != gone);
    assert!(out.contains("path missing"), "got {out}");
    assert!(out.contains("svc"), "got {out}");
}

#[test]
fn dry_run_groups_by_project_and_reports_count() {
    let mut reg = Registry::default();
    seed(&mut reg, "proj-a", "alpha", 20_001, &iso_days_ago(100));
    seed(&mut reg, "proj-a", "beta", 20_002, &iso_days_ago(150));
    seed(&mut reg, "proj-b", "gamma", 20_003, &iso_days_ago(200));
    let out = dry_run(&mut reg, 90);
    assert!(out.contains("proj-a"));
    assert!(out.contains("proj-b"));
    assert!(out.contains("3 candidates across 2 projects"), "got {out}");
}

fn y_removes_and_writes_rich_reason() {
    let mut reg = Registry::default();
    seed(&mut reg, "p", "old", 20_001, &iso_days_ago(200));
    let candidates = scan(&reg, 90, &every_path_exists);
    let text = interactive(&mut reg, 90, &candidates, "y\n");
    assert!(text.contains("removed."), "got {text}");
    assert!(reg.get("p", "old").is_none());
    assert_eq!(reg.history[0].reason, "pruned: stale (older than 90d)");
}

fn bare_enter_keeps_the_entry() {
    let mut reg = Registry::default();
    seed(&mut reg, "p", "old", 20_001, &iso_days_ago(200));
    let candidates = scan(&reg, 90, &every_path_exists);
    let text = interactive(&mut reg, 90, &candidates, "\n");
    assert_eq!(reg.get("p", "old"), Some(20_001));
    assert!(text.contains("0 removed, 1 kept"), "got {text}");
}

#[test]
fn prune_interactive_y_removes_and_writes_rich_reason() {
    y_removes_and_writes_rich_reason();
}

#[test]
fn prune_interactive_bare_enter_keeps_the_entry() {
    bare_enter_keeps_the_entry();
}

#[test]
fn prune_interactive_q_stops_without_touching_remaining() {
    let mut reg = seed_stale();
    let candidates = scan(&reg, 90, &every_path_exists);
    assert_eq!(candidates.len(), 3);
    let text = interactive(&mut reg, 90, &candidates, "y\nq\n");
    assert_eq!(reg.projects.get("p").unwrap().len(), 2, "only the first should have been removed");
    assert!(text.contains("1 removed"), "got {text}");
}

#[test]
fn prune_interactive_bang_applies_yes_to_all_remaining() {
    let mut reg = seed_stale();
    let candidates = scan(&reg, 90, &every_path_exists);
    let text = interactive(&mut reg, 90, &candidates, "!\n");
    assert!(!reg.projects.contains_key("p"), "all entries removed");
    assert!(text.contains("3 removed, 0 kept"), "got {text}");
}

#[test]
fn mod_interactive_y_removes_and_writes_rich_reason() {
    y_removes_and_writes_rich_reason();
}

#[test]
fn mod_interactive_bare_enter_keeps_the_entry() {
    bare_enter_keeps_the_entry();
}

#[test]
fn mod_interactive_q_stops_without_touching_remaining() {
    let mut reg = seed_stale();
    let candidates = scan(&reg, 90, &every_path_exists);
    interactive(&mut reg, 90, &candidates, "y\nq\n");
    assert_eq!(reg.projects.get("p").unwrap().len(), 2);
}

#[test]
fn mod_interactive_bang_applies_yes_to_all_remaining() {
    let mut reg = seed_stale();
    let candidates = scan(&reg, 90, &every_path_exists);
    let text = interactive(&mut reg, 90, &candidates, "!\n");
    assert!(!reg.projects.contains_key("p"));
    assert!(text.contains("3 removed, 0 kept"), "got {text}");
}

#[test]
fn interactive_with_no_candidates_reports_nothing_to_prune() {
    let mut reg = Registry::default();
    seed(&mut reg, "p", "fresh", 20_000, &today_iso());
    let candidates = scan(&reg, 90, &every_path_exists);
    let out = run(&mut reg, 90, false, false, &candidates, &HashSet::new()).unwrap();
    assert_eq!(out, nothing_to_prune(90));
    assert_eq!(reg.get("p", "fresh"), Some(20_000));
}
