use std::collections::HashSet;

use spout::allocator::{alloc_port, alloc_within_lock, probe_bound_ports, BASE_PORT, MAX_PORT};
use spout::commands;
use spout::commands::{check_version, get, ls_text, whois, whois_miss_message};
use spout::error::SpoutError;
use spout::protocol::Protocol;
use spout::realloc;
use spout::registry::{HistoryEntry, Registry};
use spout::reproject;
use spout::rm::{
    build_rm_target, cancelled_message, format_block, is_confirmation, list_services, project_rm_move, rm_one, rm_project_apply,
    ProjectRmMove, RmOptions, RmTarget,
};
use spout::tui::{body_constraints, collect_service_rows, is_exit_key, sorted_projects, Key};

const PROJECT: &str = "github.com/acme/myapp";
const CWD: &str = "/home/user/work/myapp";

fn all_free(_port: u16, _protocol: Protocol) -> bool {
    true
}

fn alloc_here(reg: &mut Registry, service: &str, protocol: Protocol) -> Result<u16, SpoutError> {
    alloc_port(reg, PROJECT, service, protocol, &all_free)
}

fn rm_current(reg: &mut Registry, service: &str) -> Result<String, SpoutError> {
    rm_one(reg, PROJECT, service)
}

fn get_failure_message(reg: &Registry, service: &str) -> String {
    get(reg, PROJECT, service, CWD).unwrap_err().message()
}

#[test]
fn tests_get_returns_service_not_registered_when_empty() {
    let reg = Registry::default();
    let err = get(&reg, PROJECT, "postgres", CWD).unwrap_err();
    assert_eq!(err.exit_code(), 1);
}

#[test]
fn get_failure_in_empty_project_suggests_alloc() {
    let reg = Registry::default();
    let msg = get_failure_message(&reg, "postgres");
    assert!(msg.contains("no services currently registered"), "got: {msg}");
    assert!(msg.contains("spout alloc postgres"), "got: {msg}");
}

#[test]
fn get_failure_in_populated_project_lists_available_services() {
    let mut reg = Registry::default();
    alloc_here(&mut reg, "postgres", Protocol::default()).unwrap();
    alloc_here(&mut reg, "redis", Protocol::default()).unwrap();
    let msg = get_failure_message(&reg, "acme-postgres");
    assert!(msg.contains("acme-postgres"), "missing wrong name in: {msg}");
    assert!(msg.contains("postgres"), "missing real name in: {msg}");
    assert!(msg.contains("redis"), "missing redis in: {msg}");
    assert!(msg.contains("spout env"), "missing env hint in: {msg}");
}

#[test]
fn get_failure_includes_recently_removed_when_history_exists() {
    let mut reg = Registry::default();
    alloc_here(&mut reg, "postgres", Protocol::default()).unwrap();
    alloc_here(&mut reg, "api", Protocol::default()).unwrap();
    rm_current(&mut reg, "api").unwrap();
    let msg = get_failure_message(&reg, "api");
    assert!(msg.contains("recently removed: api"), "missing removed line in: {msg}");
    assert!(msg.contains("user requested"), "missing reason in: {msg}");
    assert!(msg.contains("available: postgres"), "missing available list in: {msg}");
}

#[test]
fn get_failure_picks_most_recent_when_multiple_removals() {
    let mut reg = Registry::default();
    reg.history.push(HistoryEntry {
        project: PROJECT.into(),
        service: "api".into(),
        port: 20_000,
        allocated: "2025-12-01".into(),
        released: "2026-01-01".into(),
        reason: "old".into(),
        protocol: Protocol::default(),
    });
    reg.history.push(HistoryEntry {
        project: PROJECT.into(),
        service: "api".into(),
        port: 20_001,
        allocated: "2026-04-01".into(),
        released: "2026-04-26".into(),
        reason: "newer".into(),
        protocol: Protocol::default(),
    });
    let msg = get_failure_message(&reg, "api");
    assert!(msg.contains("2026-04-26"), "expected newest date in: {msg}");
    assert!(msg.contains("\"newer\""), "expected newer reason in: {msg}");
    assert!(!msg.contains("2026-01-01"), "older date leaked into: {msg}");
    assert!(!msg.contains("\"old\""), "older reason leaked into: {msg}");
}

#[test]
fn get_failure_ignores_history_from_other_projects() {
    let mut reg = Registry::default();
    reg.history.push(HistoryEntry {
        project: "some-other-project".into(),
        service: "api".into(),
        port: 20_000,
        allocated: "2026-04-01".into(),
        released: "2026-04-26".into(),
        reason: "user requested".into(),
        protocol: Protocol::default(),
    });
    let msg = get_failure_message(&reg, "api");
    assert!(!msg.contains("recently removed"), "cross-project history leaked into: {msg}");
}

#[test]
fn get_failure_in_empty_project_with_history_uses_alloc_fresh_hint() {
    let mut reg = Registry::default();
    alloc_here(&mut reg, "api", Protocol::default()).unwrap();
    rm_current(&mut reg, "api").unwrap();
    let msg = get_failure_message(&reg, "api");
    assert!(msg.contains("no services currently registered"), "missing empty marker in: {msg}");
    assert!(msg.contains("recently removed: api"), "missing removed line in: {msg}");
    assert!(msg.contains("`spout alloc api` to register fresh"), "missing fresh hint in: {msg}");
}

#[test]
fn get_failure_reports_orphans_under_the_working_directory() {
    let mut reg = Registry::default();
    reg.set("/home/user/work", "postgres", 20_007, Protocol::Udp);
    let msg = get_failure_message(&reg, "postgres");
    assert!(msg.contains("registered under different identity: /home/user/work/postgres → 20007/udp"), "got: {msg}");
    assert!(msg.contains("try `spout reproject --from /home/user/work --to github.com/acme/myapp`"), "got: {msg}");
}

#[test]
fn get_with_explicit_project_reads_from_that_project() {
    let mut reg = Registry::default();
    reg.set("p1", "postgres", 20_000, Protocol::default());
    reg.set("p2", "postgres", 20_001, Protocol::default());
    assert_eq!(get(&reg, "p1", "postgres", CWD).unwrap(), 20_000);
    assert_eq!(get(&reg, "p2", "postgres", CWD).unwrap(), 20_001);
}

#[test]
fn tests_alloc_then_get_returns_same_port() {
    let mut reg = Registry::default();
    let allocated = alloc_here(&mut reg, "postgres", Protocol::default()).unwrap();
    let fetched = get(&reg, PROJECT, "postgres", CWD).unwrap();
    assert_eq!(allocated, fetched);
}

#[test]
fn tests_set_registers_port_for_current_project() {
    let mut reg = Registry::default();
    commands::set(&mut reg, PROJECT, "web", 25_000, Protocol::default(), &all_free).unwrap();
    let port = get(&reg, PROJECT, "web", CWD).unwrap();
    assert_eq!(port, 25_000);
}

#[test]
fn tests_set_rejects_privileged_port() {
    let mut reg = Registry::default();
    let err = commands::set(&mut reg, PROJECT, "web", 80, Protocol::default(), &all_free).unwrap_err();
    assert_eq!(err.exit_code(), 6);
}

#[test]
fn set_refuses_a_port_another_project_holds() {
    let mut reg = Registry::default();
    reg.set("other", "db", 25_000, Protocol::Tcp);
    let err = commands::set(&mut reg, PROJECT, "web", 25_000, Protocol::Tcp, &all_free).unwrap_err();
    assert_eq!(err, SpoutError::PortAlreadyClaimed { port: 25_000, protocol: Protocol::Tcp, project: "other".into() });
    assert_eq!(reg.get(PROJECT, "web"), None);
    commands::set(&mut reg, PROJECT, "web", 25_000, Protocol::Udp, &all_free).unwrap();
    assert_eq!(reg.get(PROJECT, "web"), Some(25_000));
}

#[test]
fn set_refuses_a_port_in_use_unless_already_held() {
    let mut reg = Registry::default();
    let busy = |_p: u16, _q: Protocol| false;
    let err = commands::set(&mut reg, PROJECT, "web", 25_000, Protocol::Tcp, &busy).unwrap_err();
    assert_eq!(err, SpoutError::PortInUse { port: 25_000, protocol: Protocol::Tcp });
    reg.set(PROJECT, "web", 25_000, Protocol::Tcp);
    commands::set(&mut reg, PROJECT, "web", 25_000, Protocol::Tcp, &busy).unwrap();
}

fn removes_and_appends_to_history() {
    let mut reg = Registry::default();
    alloc_here(&mut reg, "postgres", Protocol::default()).unwrap();
    rm_current(&mut reg, "postgres").unwrap();
    assert!(matches!(
        get(&reg, PROJECT, "postgres", CWD).unwrap_err(),
        SpoutError::ServiceNotRegisteredInProject { .. }
    ));
    assert_eq!(reg.history.len(), 1);
    assert_eq!(reg.history[0].reason, "user requested");
}

#[test]
fn rm_removes_and_appends_to_history() {
    removes_and_appends_to_history();
}

#[test]
fn tests_rm_removes_and_appends_to_history() {
    removes_and_appends_to_history();
}

#[test]
fn tests_rm_unregistered_service_errors() {
    let mut reg = Registry::default();
    let err = rm_current(&mut reg, "nothing").unwrap_err();
    assert_eq!(err.exit_code(), 1);
}

#[test]
fn tests_ls_empty_registry_is_descriptive() {
    let reg = Registry::default();
    let out = ls_text(&reg, None, &HashSet::new());
    assert!(out.contains("no registrations"));
}

#[test]
fn tests_ls_shows_project_and_services_after_alloc() {
    let mut reg = Registry::default();
    alloc_here(&mut reg, "postgres", Protocol::default()).unwrap();
    alloc_here(&mut reg, "redis", Protocol::default()).unwrap();
    let out = ls_text(&reg, None, &HashSet::new());
    assert!(out.contains("postgres"));
    assert!(out.contains("redis"));
}

#[test]
fn ls_filters_to_named_project() {
    let mut reg = Registry::default();
    reg.set("alpha", "postgres", 20_000, Protocol::default());
    reg.set("beta", "redis", 20_001, Protocol::default());
    let out = ls_text(&reg, Some("alpha"), &HashSet::new());
    assert!(out.contains("alpha"));
    assert!(out.contains("postgres"));
    assert!(!out.contains("redis"));
}

#[test]
fn env_unknown_project_returns_none() {
    let reg = Registry::default();
    assert!(commands::env(&reg, "never-existed").is_none());
}

#[test]
fn env_named_project_emits_sorted_key_value_lines() {
    let mut reg = Registry::default();
    reg.set("myproj", "redis", 20_001, Protocol::default());
    reg.set("myproj", "postgres", 20_000, Protocol::default());
    reg.set("myproj", "mailpit-smtp", 20_002, Protocol::default());
    let out = commands::env(&reg, "myproj").unwrap();
    assert_eq!(out, "MAILPIT_SMTP_PORT=20002\nPOSTGRES_PORT=20000\nREDIS_PORT=20001");
}

#[test]
fn env_current_project_after_alloc_contains_the_service() {
    let mut reg = Registry::default();
    let port = alloc_here(&mut reg, "postgres", Protocol::default()).unwrap();
    let out = commands::env(&reg, PROJECT).unwrap();
    assert!(out.contains(&format!("POSTGRES_PORT={port}")));
}

#[test]
fn env_named_project_with_no_services_returns_none() {
    let mut reg = Registry::default();
    reg.set("proj", "svc", 20_000, Protocol::default());
    reg.remove("proj", "svc", "test").unwrap();
    assert!(commands::env(&reg, "proj").is_none());
}

#[test]
fn tests_whois_returns_active_registration() {
    let mut reg = Registry::default();
    let port = alloc_here(&mut reg, "postgres", Protocol::default()).unwrap();
    let result = whois(&reg, port, false).unwrap();
    assert!(result.contains("postgres"));
    assert!(result.contains("active"));
}

#[test]
fn tests_whois_returns_none_when_unknown() {
    let reg = Registry::default();
    assert!(whois(&reg, 30_000, false).is_none());
}

#[test]
fn whois_lists_both_protocols_tcp_first() {
    let mut reg = Registry::default();
    reg.set("p", "udp-svc", 20_000, Protocol::Udp);
    reg.set("p", "tcp-svc", 20_000, Protocol::Tcp);
    let out = whois(&reg, 20_000, false).unwrap();
    let tcp_pos = out.find("20000/tcp").expect("tcp row missing");
    let udp_pos = out.find("20000/udp").expect("udp row missing");
    assert!(tcp_pos < udp_pos, "expected tcp before udp, got:\n{out}");
}

#[test]
fn tests_whois_history_finds_released_ports() {
    let mut reg = Registry::default();
    let port = alloc_here(&mut reg, "postgres", Protocol::default()).unwrap();
    rm_current(&mut reg, "postgres").unwrap();
    assert!(whois(&reg, port, false).is_none());
    let hit = whois(&reg, port, true).unwrap();
    assert!(hit.contains("postgres"));
    assert!(hit.contains("user requested"));
}

#[test]
fn whois_miss_messages() {
    assert_eq!(whois_miss_message(30_000, true), "30000 has no live or historical registration");
    assert_eq!(
        whois_miss_message(30_000, false),
        "30000 is not currently registered. Try 'spout whois 30000 --history'"
    );
}

#[test]
fn check_version_accepts_known_schemas_only() {
    assert!(check_version(1).is_ok());
    assert!(check_version(2).is_ok());
    assert_eq!(check_version(3), Err(SpoutError::RegistryVersionUnknown(3)));
}

#[test]
fn run_refuses_when_from_equals_to() {
    let mut reg = Registry::default();
    let result = reproject::run(&mut reg, "same", "same");
    match result {
        Err(SpoutError::Usage(msg)) => assert!(msg.contains("--from and --to must be")),
        other => panic!("expected Usage error, got {other:?}"),
    }
}

#[test]
fn reproject_run_reports_what_moved() {
    let mut reg = Registry::default();
    assert_eq!(reproject::run(&mut reg, "a", "b").unwrap(), "no services registered under 'a'");
    reg.set("a", "x", 20_000, Protocol::Tcp);
    assert_eq!(reproject::run(&mut reg, "a", "b").unwrap(), "Moved 1 service from 'a' to 'b'.");
    reg.set("b", "y", 20_001, Protocol::Tcp);
    assert_eq!(reproject::run(&mut reg, "b", "c").unwrap(), "Moved 2 services from 'b' to 'c'.");
    reg.set("d", "x", 20_003, Protocol::Tcp);
    let err = reproject::run(&mut reg, "c", "d").unwrap_err();
    assert_eq!(err.exit_code(), 11);
    assert!(err.message().contains("services exist in both: x"));
}

#[test]
fn alloc_fresh_returns_first_free_port_in_range() {
    let mut reg = Registry::default();
    let port = alloc_port(&mut reg, "p", "s", Protocol::default(), &all_free).unwrap();
    assert_eq!(port, BASE_PORT);
}

#[test]
fn alloc_is_idempotent_per_project_service() {
    let mut reg = Registry::default();
    let first = alloc_port(&mut reg, "p", "s", Protocol::default(), &all_free).unwrap();
    let second = alloc_port(&mut reg, "p", "s", Protocol::Udp, &all_free).unwrap();
    assert_eq!(first, second);
    assert_eq!(alloc_within_lock(&mut reg, "p", "s", Protocol::Tcp, &all_free), Ok((first, false)));
}

#[test]
fn alloc_different_services_get_different_ports() {
    let mut reg = Registry::default();
    let a = alloc_port(&mut reg, "proj-a", "postgres", Protocol::default(), &all_free).unwrap();
    let b = alloc_port(&mut reg, "proj-b", "postgres", Protocol::default(), &all_free).unwrap();
    let c = alloc_port(&mut reg, "proj-a", "redis", Protocol::default(), &all_free).unwrap();
    assert_ne!(a, b);
    assert_ne!(a, c);
    assert_ne!(b, c);
}

#[test]
fn alloc_skips_ports_the_probe_reports_bound() {
    let mut reg = Registry::default();
    let probe = |p: u16, _q: Protocol| p != BASE_PORT;
    let port = alloc_port(&mut reg, "p", "s", Protocol::default(), &probe).unwrap();
    assert_eq!(port, BASE_PORT + 1);
}

#[test]
fn alloc_udp_and_tcp_can_share_a_port_number() {
    let mut reg = Registry::default();
    let tcp = alloc_port(&mut reg, "p", "tcp-svc", Protocol::Tcp, &all_free).unwrap();
    let udp = alloc_port(&mut reg, "p", "udp-svc", Protocol::Udp, &all_free).unwrap();
    assert_eq!(tcp, udp);
    let tcp2 = alloc_port(&mut reg, "p", "tcp-svc-2", Protocol::Tcp, &all_free).unwrap();
    assert_eq!(tcp2, tcp + 1);
}

#[test]
fn alloc_reports_no_free_port() {
    let mut reg = Registry::default();
    let none = |_p: u16, _q: Protocol| false;
    let err = alloc_port(&mut reg, "p", "s", Protocol::Tcp, &none).unwrap_err();
    assert_eq!(
        err,
        SpoutError::NoFreePortFound { service: "s".into(), range_start: BASE_PORT, range_end: MAX_PORT }
    );
    assert_eq!(err.exit_code(), 2);
    assert!(reg.get("p", "s").is_none());
}

#[test]
fn probe_bound_ports_empty_registry_returns_empty_set() {
    let reg = Registry::default();
    assert!(probe_bound_ports(&reg, &all_free).is_empty());
}

#[test]
fn probe_bound_ports_collects_what_the_probe_reports_bound() {
    let mut reg = Registry::default();
    reg.set("proj", "bound", 20_001, Protocol::Tcp);
    reg.set("proj", "free", 20_002, Protocol::Udp);
    let probe = |p: u16, _q: Protocol| p != 20_001;
    let bound = probe_bound_ports(&reg, &probe);
    assert!(bound.contains(&20_001));
    assert!(!bound.contains(&20_002));
}

#[test]
fn realloc_preserves_protocol_and_records_reason() {
    let mut reg = Registry::default();
    reg.set("proj", "dns", 20_053, Protocol::Udp);
    let port = realloc::run(&mut reg, "proj", "dns", &all_free).unwrap();
    assert!((BASE_PORT..=MAX_PORT).contains(&port));
    assert_eq!(reg.projects.get("proj").unwrap().get("dns").unwrap().protocol, Protocol::Udp);
    assert_eq!(reg.history.len(), 1);
    assert_eq!(reg.history[0].reason, "reallocated");
    assert_eq!(reg.history[0].port, 20_053);
}

#[test]
fn realloc_unknown_service_errors_one() {
    let mut reg = Registry::default();
    let err = realloc::run(&mut reg, "proj", "nope", &all_free).unwrap_err();
    assert_eq!(err.exit_code(), 1);
}

#[test]
fn rm_project_preview_and_removal() {
    let mut reg = Registry::default();
    reg.set("myapp", "postgres", 20_000, Protocol::Tcp);
    reg.set("myapp", "redis", 20_001, Protocol::Tcp);
    reg.set("myapp", "api", 20_002, Protocol::Tcp);
    let services = list_services(&reg, "myapp").unwrap();
    assert_eq!(
        format_block("myapp", &services),
        "Remove all 3 service(s) for 'myapp'?\n  api       20002\n  postgres  20000\n  redis     20001"
    );
    let out = rm_project_apply(&mut reg, "myapp");
    assert_eq!(out, "Removed 3 service(s) from 'myapp'.");
    assert!(!reg.projects.contains_key("myapp"));
    assert_eq!(reg.history[0].reason, "user requested (project rm)");
    assert_eq!(list_services(&reg, "myapp").unwrap_err().exit_code(), 1);
}

#[test]
fn rm_confirmation_takes_y_only() {
    assert!(is_confirmation("y\n"));
    assert!(is_confirmation(" Y "));
    assert!(!is_confirmation("yes"));
    assert!(!is_confirmation(""));
}

#[test]
fn rm_target_follows_the_arguments() {
    let current = || Ok::<String, SpoutError>("cur".to_owned());
    match build_rm_target(Some("db".into()), None, &current).unwrap() {
        RmTarget::Service { name, project } => {
            assert_eq!(name, "db");
            assert!(project.is_none());
        },
        other => panic!("got {other:?}"),
    }
    match build_rm_target(None, Some(None), &current).unwrap() {
        RmTarget::Project { name } => assert_eq!(name, "cur"),
        other => panic!("got {other:?}"),
    }
    assert_eq!(build_rm_target(None, None, &current).unwrap_err().exit_code(), 9);
}

fn insert(reg: &mut Registry, project: &str, service: &str, port: u16) {
    reg.set(project, service, port, Protocol::Tcp);
}

#[test]
fn sorted_projects_empty_registry_yields_no_entries() {
    let reg = Registry::default();
    assert!(sorted_projects(&reg, None).is_empty());
}

#[test]
fn sorted_projects_filters_to_named_project() {
    let mut reg = Registry::default();
    insert(&mut reg, "a", "postgres", 20_000);
    insert(&mut reg, "b", "redis", 20_001);
    assert_eq!(sorted_projects(&reg, Some("a")).len(), 1);
    assert_eq!(sorted_projects(&reg, Some("b")).len(), 1);
    assert_eq!(sorted_projects(&reg, Some("nope")).len(), 0);
}

#[test]
fn sorted_projects_returns_alphabetical_order() {
    let mut reg = Registry::default();
    insert(&mut reg, "zebra", "postgres", 20_000);
    insert(&mut reg, "apple", "redis", 20_001);
    let sorted = sorted_projects(&reg, None);
    assert_eq!(sorted[0].0, "apple");
    assert_eq!(sorted[1].0, "zebra");
}

#[test]
fn collect_service_rows_one_row_per_service() {
    let mut reg = Registry::default();
    insert(&mut reg, "solo", "postgres", 20_000);
    insert(&mut reg, "solo", "redis", 20_001);
    let bound = HashSet::new();
    let services = reg.projects.get("solo").unwrap();
    let rows = collect_service_rows(services, &bound, &spout::strmap::StrMap::new());
    assert_eq!(rows.len(), 2);
    assert_eq!(rows[0].label, "postgres");
    assert_eq!(rows[1].env_var, "REDIS_PORT");
    let projects = sorted_projects(&reg, None);
    assert_eq!(body_constraints(&projects), vec![2, 1, 2]);
}

#[test]
fn is_exit_key_recognises_q_esc_ctrl_c() {
    assert!(is_exit_key(Key::Char('q'), false));
    assert!(is_exit_key(Key::Esc, false));
    assert!(is_exit_key(Key::Char('c'), true));
    assert!(!is_exit_key(Key::Char('a'), false));
    assert!(!is_exit_key(Key::Char('c'), false));
}

#[test]
fn is_exit_key_rejects_other_keys() {
    assert!(!is_exit_key(Key::Char('a'), false));
    assert!(!is_exit_key(Key::Char('c'), false));
}

#[test]
fn alloc_different_projects_get_different_ports() {
    let mut reg = Registry::default();
    let a = alloc_port(&mut reg, "proj-a", "postgres", Protocol::default(), &all_free).unwrap();
    let b = alloc_port(&mut reg, "proj-b", "postgres", Protocol::default(), &all_free).unwrap();
    assert_ne!(a, b);
}

#[test]
fn alloc_different_services_same_project_get_different_ports() {
    let mut reg = Registry::default();
    let pg = alloc_port(&mut reg, "p", "postgres", Protocol::default(), &all_free).unwrap();
    let rd = alloc_port(&mut reg, "p", "redis", Protocol::default(), &all_free).unwrap();
    assert_ne!(pg, rd);
}

#[test]
fn alloc_udp_returns_port_in_range() {
    let mut reg = Registry::default();
    let port = alloc_port(&mut reg, "p", "dns", Protocol::Udp, &all_free).unwrap();
    assert!((BASE_PORT..=MAX_PORT).contains(&port));
}

#[test]
fn commands_get_returns_service_not_registered_when_empty() {
    let reg = Registry::default();
    let err = get(&reg, PROJECT, "postgres", CWD).unwrap_err();
    assert_eq!(err.exit_code(), 1);
}

#[test]
fn commands_alloc_then_get_returns_same_port() {
    let mut reg = Registry::default();
    let allocated = alloc_here(&mut reg, "postgres", Protocol::default()).unwrap();
    let fetched = get(&reg, PROJECT, "postgres", CWD).unwrap();
    assert_eq!(allocated, fetched);
}

#[test]
fn commands_set_registers_port_for_current_project() {
    let mut reg = Registry::default();
    commands::set(&mut reg, PROJECT, "web", 25_000, Protocol::Tcp, &all_free).unwrap();
    assert_eq!(get(&reg, PROJECT, "web", CWD).unwrap(), 25_000);
}

#[test]
fn commands_set_rejects_privileged_port() {
    let mut reg = Registry::default();
    let err = commands::set(&mut reg, PROJECT, "web", 80, Protocol::Tcp, &all_free).unwrap_err();
    assert_eq!(err.exit_code(), 6);
}

#[test]
fn commands_rm_removes_and_appends_to_history() {
    let mut reg = Registry::default();
    alloc_here(&mut reg, "postgres", Protocol::default()).unwrap();
    rm_current(&mut reg, "postgres").unwrap();
    assert!(get(&reg, PROJECT, "postgres", CWD).is_err());
    assert_eq!(reg.history.len(), 1);
    assert_eq!(reg.history[0].reason, "user requested");
}

#[test]
fn commands_rm_unregistered_service_errors() {
    let mut reg = Registry::default();
    let err = rm_current(&mut reg, "nothing").unwrap_err();
    assert_eq!(err.exit_code(), 1);
}

#[test]
fn commands_ls_empty_registry_is_descriptive() {
    let reg = Registry::default();
    let out = ls_text(&reg, None, &HashSet::new());
    assert!(out.contains("no registrations"));
}

#[test]
fn commands_ls_shows_project_and_services_after_alloc() {
    let mut reg = Registry::default();
    alloc_here(&mut reg, "postgres", Protocol::default()).unwrap();
    alloc_here(&mut reg, "redis", Protocol::default()).unwrap();
    let out = ls_text(&reg, None, &HashSet::new());
    assert!(out.contains("postgres"));
    assert!(out.contains("redis"));
}

#[test]
fn commands_whois_returns_active_registration() {
    let mut reg = Registry::default();
    let port = alloc_here(&mut reg, "postgres", Protocol::default()).unwrap();
    let result = whois(&reg, port, false).unwrap();
    assert!(result.contains("postgres"));
    assert!(result.contains("active"));
}

#[test]
fn commands_whois_returns_none_when_unknown() {
    let reg = Registry::default();
    assert!(whois(&reg, 30_000, false).is_none());
}

#[test]
fn commands_whois_history_finds_released_ports() {
    let mut reg = Registry::default();
    let port = alloc_here(&mut reg, "postgres", Protocol::default()).unwrap();
    rm_current(&mut reg, "postgres").unwrap();
    assert!(whois(&reg, port, false).is_none());
    let hit = whois(&reg, port, true).unwrap();
    assert!(hit.contains("postgres"));
    assert!(hit.contains("user requested"));
}

#[test]
fn realloc_returns_a_port_in_range_and_keeps_the_entry_live() {
    let mut reg = Registry::default();
    reg.set(PROJECT, "postgres", 20_000, Protocol::default());
    let port = realloc::run(&mut reg, PROJECT, "postgres", &all_free).unwrap();
    assert!((20_000..=32_767).contains(&port));
    assert_eq!(reg.get(PROJECT, "postgres"), Some(port));
}

#[test]
fn realloc_preserves_protocol() {
    let mut reg = Registry::default();
    reg.set("proj", "dns", 20_053, Protocol::Udp);
    realloc::run(&mut reg, "proj", "dns", &all_free).unwrap();
    let entry = reg.projects.get("proj").unwrap().get("dns").unwrap();
    assert_eq!(entry.protocol, Protocol::Udp);
}

#[test]
fn realloc_records_reallocated_reason_in_history() {
    let mut reg = Registry::default();
    reg.set("proj", "postgres", 20_000, Protocol::default());
    realloc::run(&mut reg, "proj", "postgres", &all_free).unwrap();
    assert_eq!(reg.history.len(), 1);
    assert_eq!(reg.history[0].reason, "reallocated");
    assert_eq!(reg.history[0].port, 20_000);
}

#[test]
fn realloc_cross_project_leaves_other_projects_alone() {
    let mut reg = Registry::default();
    reg.set("a", "postgres", 20_000, Protocol::default());
    reg.set("b", "postgres", 20_001, Protocol::default());
    realloc::run(&mut reg, "a", "postgres", &all_free).unwrap();
    assert_eq!(reg.get("b", "postgres"), Some(20_001));
}

fn seed_services(reg: &mut Registry, project: &str, services: &[(&str, u16)]) {
    for (name, port) in services {
        reg.set(project, name, *port, Protocol::default());
    }
}

/// A whole-project removal as the binary runs it: preview, then (unless
/// `--yes`) the answer `input`, then the removal.
fn rm_project(reg: &mut Registry, project: &str, opts: RmOptions, input: &str) -> Result<String, SpoutError> {
    let services = list_services(reg, project)?;
    let preview = format_block(project, &services);
    match project_rm_move(opts) {
        ProjectRmMove::Preview => return Ok(preview),
        ProjectRmMove::Ask => {
            if input.is_empty() || !is_confirmation(input) {
                return Ok(cancelled_message(project));
            }
        }
        ProjectRmMove::Remove => {}
    }
    Ok(rm_project_apply(reg, project))
}

#[test]
fn project_rm_move_follows_the_flags() {
    assert_eq!(project_rm_move(RmOptions { yes: false, dry_run: true }), ProjectRmMove::Preview);
    assert_eq!(project_rm_move(RmOptions { yes: true, dry_run: true }), ProjectRmMove::Preview);
    assert_eq!(project_rm_move(RmOptions { yes: true, dry_run: false }), ProjectRmMove::Remove);
    assert_eq!(project_rm_move(RmOptions::default()), ProjectRmMove::Ask);
}

#[test]
fn rm_one_in_current_project() {
    let mut reg = Registry::default();
    seed_services(&mut reg, PROJECT, &[("postgres", 20_000)]);
    rm_one(&mut reg, PROJECT, "postgres").unwrap();
    assert!(reg.get(PROJECT, "postgres").is_none());
}

#[test]
fn rm_one_in_named_project_other_than_current() {
    let mut reg = Registry::default();
    seed_services(&mut reg, "named-proj", &[("redis", 20_001)]);
    let current = || Ok::<String, SpoutError>(PROJECT.to_owned());
    let target = build_rm_target(Some("redis".into()), Some(Some("named-proj".into())), &current).unwrap();
    match target {
        RmTarget::Service { name, project: Some(p) } => rm_one(&mut reg, &p, &name).unwrap(),
        other => panic!("got {other:?}"),
    };
    assert!(!reg.projects.contains_key("named-proj"));
}

#[test]
fn rm_project_yes_removes_all_in_one_lock() {
    let mut reg = Registry::default();
    seed_services(&mut reg, "myapp", &[("postgres", 20_000), ("redis", 20_001), ("api", 20_002)]);
    let out = rm_project(&mut reg, "myapp", RmOptions { yes: true, dry_run: false }, "").unwrap();
    assert!(out.contains("Removed 3 service(s) from 'myapp'"), "got {out}");
    assert!(!reg.projects.contains_key("myapp"));
}

#[test]
fn rm_project_records_distinct_history_reason() {
    let mut reg = Registry::default();
    seed_services(&mut reg, "myapp", &[("postgres", 20_000)]);
    rm_project(&mut reg, "myapp", RmOptions { yes: true, dry_run: false }, "").unwrap();
    assert_eq!(reg.history.len(), 1);
    assert_eq!(reg.history[0].reason, "user requested (project rm)");
}

#[test]
fn rm_project_dry_run_lists_without_removing() {
    let mut reg = Registry::default();
    seed_services(&mut reg, "myapp", &[("postgres", 20_000)]);
    let out = rm_project(&mut reg, "myapp", RmOptions { yes: false, dry_run: true }, "").unwrap();
    assert!(out.contains("Remove all 1 service"));
    assert!(out.contains("postgres"));
    assert!(reg.get("myapp", "postgres").is_some());
}

#[test]
fn rm_project_n_response_keeps_everything() {
    let mut reg = Registry::default();
    seed_services(&mut reg, "myapp", &[("postgres", 20_000)]);
    let out = rm_project(&mut reg, "myapp", RmOptions::default(), "\n").unwrap();
    assert!(out.contains("Cancelled"), "got {out}");
    assert!(reg.get("myapp", "postgres").is_some());
}

#[test]
fn rm_project_y_response_removes_everything() {
    let mut reg = Registry::default();
    seed_services(&mut reg, "myapp", &[("postgres", 20_000), ("redis", 20_001)]);
    rm_project(&mut reg, "myapp", RmOptions::default(), "y\n").unwrap();
    assert!(!reg.projects.contains_key("myapp"));
}

#[test]
fn rm_project_unknown_project_errors_one() {
    let mut reg = Registry::default();
    let err = rm_project(&mut reg, "no-such-project", RmOptions::default(), "").unwrap_err();
    assert_eq!(err.exit_code(), 1);
}

#[test]
fn set_names_the_first_claimant_when_another_project_claims_first() {
    let mut reg = Registry::default();
    reg.set("aaa", "db", 25_100, Protocol::Tcp);
    reg.set(PROJECT, "web", 25_100, Protocol::Tcp);
    let err = commands::set(&mut reg, PROJECT, "api", 25_100, Protocol::Tcp, &all_free).unwrap_err();
    assert_eq!(err, SpoutError::PortAlreadyClaimed { port: 25_100, protocol: Protocol::Tcp, project: "aaa".into() });
}

#[test]
fn realloc_without_a_free_port_reports_it_after_the_release() {
    let mut reg = Registry::default();
    reg.set("proj", "db", 20_000, Protocol::Tcp);
    let none = |_p: u16, _q: Protocol| false;
    let err = realloc::run(&mut reg, "proj", "db", &none).unwrap_err();
    assert_eq!(err, SpoutError::NoFreePortFound { service: "db".into(), range_start: BASE_PORT, range_end: MAX_PORT });
    assert_eq!(reg.history.len(), 1);
    assert_eq!(reg.history[0].reason, "reallocated");
}

#[test]
fn set_goes_ahead_when_this_project_holds_the_first_claim() {
    let mut reg = Registry::default();
    reg.set(PROJECT, "web", 25_200, Protocol::Tcp);
    reg.set("zzz", "db", 25_200, Protocol::Tcp);
    commands::set(&mut reg, PROJECT, "api", 25_200, Protocol::Tcp, &all_free).unwrap();
    assert_eq!(reg.get(PROJECT, "api"), Some(25_200));
}
