use spout::protocol::Protocol;
use spout::registry::{lock_path, Entry, HistoryEntry, Registry};
use spout::strmap::StrMap;

fn set_get_remove_roundtrip() {
    let mut r = Registry::default();
    r.set("myproj", "postgres", 19456, Protocol::default());
    assert_eq!(r.get("myproj", "postgres"), Some(19456));

    let removed = r.remove("myproj", "postgres", "test");
    assert_eq!(removed, Some(19456));
    assert_eq!(r.get("myproj", "postgres"), None);
    assert_eq!(r.history.len(), 1);
    assert_eq!(r.history[0].port, 19456);
    assert_eq!(r.history[0].reason, "test");
}

fn carries_allocated_date() {
    let mut r = Registry::default();
    r.set("myproj", "postgres", 19456, Protocol::default());
    let live_allocated = r
        .projects
        .get("myproj")
        .unwrap()
        .get("postgres")
        .unwrap()
        .allocated
        .clone();
    r.remove("myproj", "postgres", "test");
    assert_eq!(r.history[0].allocated, live_allocated);
}

fn empties_project_entry() {
    let mut r = Registry::default();
    r.set("myproj", "postgres", 19456, Protocol::default());
    r.remove("myproj", "postgres", "test");
    assert!(!r.projects.contains_key("myproj"));
}

fn claimed_finds_existing() {
    let mut r = Registry::default();
    r.set("myproj", "postgres", 19456, Protocol::default());
    let owner = r.is_port_claimed(19456, Protocol::Tcp).unwrap();
    assert_eq!(owner, ("myproj".to_owned(), "postgres".to_owned()));
}

fn claimed_none_for_free() {
    let r = Registry::default();
    assert!(r.is_port_claimed(19456, Protocol::Tcp).is_none());
}

fn history_sorted() {
    let mut r = Registry::default();
    r.history.push(HistoryEntry {
        project: "a".into(),
        service: "s".into(),
        port: 19456,
        allocated: "2025-09-01".into(),
        released: "2026-01-01".into(),
        reason: "x".into(),
        protocol: Protocol::default(),
    });
    r.history.push(HistoryEntry {
        project: "b".into(),
        service: "s".into(),
        port: 19456,
        allocated: "2026-02-01".into(),
        released: "2026-06-01".into(),
        reason: "y".into(),
        protocol: Protocol::default(),
    });
    let entries = r.history_for_port(19456);
    assert_eq!(entries.len(), 2);
    assert_eq!(entries[0].released, "2026-06-01");
    assert_eq!(entries[1].released, "2026-01-01");
}

#[test]
fn registry_registry_set_get_remove_roundtrip() {
    set_get_remove_roundtrip();
}

#[test]
fn tests_registry_set_get_remove_roundtrip() {
    set_get_remove_roundtrip();
}

#[test]
fn registry_remove_carries_allocated_date_into_history() {
    carries_allocated_date();
}

#[test]
fn tests_remove_carries_allocated_date_into_history() {
    carries_allocated_date();
}

#[test]
fn registry_remove_empties_project_entry() {
    empties_project_entry();
}

#[test]
fn tests_remove_empties_project_entry() {
    empties_project_entry();
}

#[test]
fn registry_is_port_claimed_finds_existing() {
    claimed_finds_existing();
}

#[test]
fn tests_is_port_claimed_finds_existing() {
    claimed_finds_existing();
}

#[test]
fn registry_is_port_claimed_returns_none_for_free() {
    claimed_none_for_free();
}

#[test]
fn tests_is_port_claimed_returns_none_for_free() {
    claimed_none_for_free();
}

#[test]
fn registry_history_for_port_sorted_most_recent_first() {
    history_sorted();
}

#[test]
fn tests_history_for_port_sorted_most_recent_first() {
    history_sorted();
}

fn check_lock_path() {
    assert_eq!(lock_path("/tmp/foo.json"), "/tmp/foo.lock");
    assert_eq!(lock_path("/home/user/.spout.json"), "/home/user/.spout.lock");
}

#[test]
fn registry_lock_path_replaces_extension() {
    check_lock_path();
}

#[test]
fn io_lock_path_replaces_extension() {
    check_lock_path();
}

fn history_entry(project: &str, service: &str, port: u16, released: &str, reason: &str) -> HistoryEntry {
    HistoryEntry {
        project: project.into(),
        service: service.into(),
        port,
        allocated: "2026-01-01".into(),
        released: released.into(),
        reason: reason.into(),
        protocol: Protocol::default(),
    }
}

#[test]
fn history_for_service_returns_empty_when_never_removed() {
    let r = Registry::default();
    assert!(r.history_for_service("p", "postgres").is_empty());
}

#[test]
fn history_for_service_filters_by_project_and_service() {
    let mut r = Registry::default();
    r.history.push(history_entry("p", "postgres", 20_000, "2026-04-26", "user requested"));
    r.history.push(history_entry("p", "redis", 20_001, "2026-04-26", "user requested"));
    r.history.push(history_entry("other", "postgres", 20_002, "2026-04-26", "user requested"));
    let entries = r.history_for_service("p", "postgres");
    assert_eq!(entries.len(), 1);
    assert_eq!(entries[0].project, "p");
    assert_eq!(entries[0].service, "postgres");
    assert_eq!(entries[0].port, 20_000);
}

#[test]
fn history_for_service_sorts_most_recent_first() {
    let mut r = Registry::default();
    r.history.push(history_entry("p", "api", 20_000, "2026-01-01", "first"));
    r.history.push(history_entry("p", "api", 20_001, "2026-04-26", "third"));
    r.history.push(history_entry("p", "api", 20_002, "2026-03-01", "second"));
    let entries = r.history_for_service("p", "api");
    assert_eq!(entries.len(), 3);
    assert_eq!(entries[0].released, "2026-04-26");
    assert_eq!(entries[1].released, "2026-03-01");
    assert_eq!(entries[2].released, "2026-01-01");
}

#[test]
fn orphans_for_service_returns_empty_when_no_path_projects() {
    let mut r = Registry::default();
    r.set("github.com/acme/myapp", "postgres", 20_000, Protocol::default());
    assert!(r
        .orphans_for_service("github.com/acme/myapp", "postgres", "/home/user/work/myapp")
        .is_empty());
}

#[test]
fn orphans_for_service_finds_entry_under_cwd_exact_path() {
    let mut r = Registry::default();
    r.set("/home/user/work/myapp", "postgres", 20_000, Protocol::default());
    let orphans = r.orphans_for_service("github.com/acme/myapp", "postgres", "/home/user/work/myapp");
    assert_eq!(orphans.len(), 1);
    assert_eq!(orphans[0].0, "/home/user/work/myapp");
    assert_eq!(orphans[0].1.port, 20_000);
}

#[test]
fn orphans_for_service_finds_entry_under_ancestor_path() {
    let mut r = Registry::default();
    r.set("/home/user/work", "postgres", 20_000, Protocol::default());
    let orphans = r.orphans_for_service("github.com/acme/myapp", "postgres", "/home/user/work/myapp/subdir");
    assert_eq!(orphans.len(), 1);
    assert_eq!(orphans[0].0, "/home/user/work");
}

#[test]
fn orphans_for_service_ignores_unrelated_paths() {
    let mut r = Registry::default();
    r.set("/elsewhere/project", "postgres", 20_000, Protocol::default());
    assert!(r
        .orphans_for_service("github.com/acme/myapp", "postgres", "/home/user/work/myapp")
        .is_empty());
}

#[test]
fn orphans_for_service_ignores_other_services() {
    let mut r = Registry::default();
    r.set("/home/user/work/myapp", "redis", 20_000, Protocol::default());
    assert!(r
        .orphans_for_service("github.com/acme/myapp", "postgres", "/home/user/work/myapp")
        .is_empty());
}

#[test]
fn orphans_for_service_returns_multiple_ancestor_matches() {
    let mut r = Registry::default();
    r.set("/home/user/work", "postgres", 20_000, Protocol::default());
    r.set("/home/user/work/myapp", "postgres", 20_001, Protocol::default());
    let orphans = r.orphans_for_service("github.com/acme/myapp", "postgres", "/home/user/work/myapp");
    assert_eq!(orphans.len(), 2);
}

#[test]
fn orphans_for_service_excludes_current_project_even_if_path_based() {
    let mut r = Registry::default();
    r.set("/home/user/work/myapp", "postgres", 20_000, Protocol::default());
    let orphans = r.orphans_for_service("/home/user/work/myapp", "postgres", "/home/user/work/myapp");
    assert!(orphans.is_empty());
}

#[test]
fn default_is_tcp() {
    assert_eq!(Protocol::default(), Protocol::Tcp);
}

#[test]
fn is_port_claimed_filters_by_protocol() {
    let mut r = Registry::default();
    r.set("p", "tcp-svc", 5432, Protocol::Tcp);
    assert!(r.is_port_claimed(5432, Protocol::Tcp).is_some());
    assert!(r.is_port_claimed(5432, Protocol::Udp).is_none());
}

#[test]
fn is_port_claimed_finds_udp_registration() {
    let mut r = Registry::default();
    let mut services = StrMap::new();
    services.insert(
        "dns".to_owned(),
        Entry {
            port: 5353,
            allocated: "2026-04-22".into(),
            protocol: Protocol::Udp,
        },
    );
    r.projects.insert("p".to_owned(), services);
    let owner = r.is_port_claimed(5353, Protocol::Udp).unwrap();
    assert_eq!(owner, ("p".to_owned(), "dns".to_owned()));
}

#[test]
fn lock_path_without_extension_gains_one() {
    assert_eq!(lock_path("/tmp/registry"), "/tmp/registry.lock");
    assert_eq!(lock_path("/tmp/a.b.json"), "/tmp/a.b.lock");
    assert_eq!(lock_path("/tmp/.hidden"), "/tmp/.hidden.lock");
}

#[test]
fn remove_absent_service_changes_nothing() {
    let mut r = Registry::default();
    r.set("p", "a", 20_000, Protocol::Tcp);
    assert_eq!(r.remove("p", "b", "x"), None);
    assert_eq!(r.get("p", "a"), Some(20_000));
    assert!(r.history.is_empty());
}

#[test]
fn remove_project_records_every_service() {
    let mut r = Registry::default();
    r.set("p", "b", 20_001, Protocol::Tcp);
    r.set("p", "a", 20_000, Protocol::Udp);
    r.set("q", "c", 20_002, Protocol::Tcp);
    assert_eq!(r.remove_project("p", "gone"), 2);
    assert!(!r.projects.contains_key("p"));
    assert_eq!(r.get("q", "c"), Some(20_002));
    assert_eq!(r.history.len(), 2);
    assert_eq!(r.history[0].service, "a");
    assert_eq!(r.history[0].protocol, Protocol::Udp);
    assert_eq!(r.history[1].service, "b");
    assert_eq!(r.remove_project("p", "gone"), 0);
}

#[test]
fn reproject_moves_and_round_trips() {
    let mut r = Registry::default();
    r.set("/home/u/app", "postgres", 20_000, Protocol::Tcp);
    r.set("/home/u/app", "dns", 20_053, Protocol::Udp);
    assert_eq!(r.reproject("/home/u/app", "github.com/u/app"), Ok(2));
    assert_eq!(r.get("github.com/u/app", "postgres"), Some(20_000));
    assert_eq!(r.get("/home/u/app", "postgres"), None);
    assert_eq!(r.history[0].reason, "reprojected to github.com/u/app");
    assert_eq!(r.reproject("github.com/u/app", "/home/u/app"), Ok(2));
    assert_eq!(r.get("/home/u/app", "postgres"), Some(20_000));
    assert_eq!(r.get("/home/u/app", "dns"), Some(20_053));
}

#[test]
fn reproject_conflict_lists_shared_services_and_changes_nothing() {
    let mut r = Registry::default();
    r.set("a", "postgres", 20_000, Protocol::Tcp);
    r.set("a", "redis", 20_001, Protocol::Tcp);
    r.set("b", "redis", 20_002, Protocol::Tcp);
    assert_eq!(r.reproject("a", "b"), Err(vec!["redis".to_owned()]));
    assert_eq!(r.get("a", "postgres"), Some(20_000));
    assert_eq!(r.get("b", "redis"), Some(20_002));
    assert!(r.history.is_empty());
}

#[test]
fn is_port_claimed_names_the_first_claim_in_name_order() {
    let mut reg = Registry::default();
    reg.set("zeta", "db", 20_500, Protocol::Tcp);
    reg.set("alpha", "web", 20_500, Protocol::Tcp);
    reg.set("alpha", "api", 20_500, Protocol::Tcp);
    assert_eq!(reg.is_port_claimed(20_500, Protocol::Tcp), Some(("alpha".to_string(), "api".to_string())));
    assert_eq!(reg.is_port_claimed(20_500, Protocol::Udp), None);
}

#[test]
fn lock_path_reads_the_path_as_path_does() {
    assert_eq!(lock_path("/tmp/foo/"), "/tmp/foo.lock");
    assert_eq!(lock_path("/a/b/."), "/a/b.lock");
    assert_eq!(lock_path("/a//b.json//"), "/a//b.lock");
    assert_eq!(lock_path("/"), "/");
    assert_eq!(lock_path("."), ".");
    assert_eq!(lock_path("/a/.."), "/a/..");
}

#[test]
fn orphans_follow_path_ancestors_for_a_trailing_slash() {
    let mut reg = Registry::default();
    reg.set("/a/b", "s", 20_100, Protocol::Tcp);
    reg.set("/a", "s", 20_101, Protocol::Tcp);
    let got: Vec<String> = reg.orphans_for_service("x", "s", "/a/b/").into_iter().map(|(p, _)| p).collect();
    assert_eq!(got, vec!["/a".to_string()]);
    let got: Vec<String> = reg.orphans_for_service("x", "s", "/a/b").into_iter().map(|(p, _)| p).collect();
    assert_eq!(got, vec!["/a/b".to_string(), "/a".to_string()]);
}

#[test]
fn reproject_of_an_empty_project_leaves_the_target_alone() {
    let mut reg = Registry::default();
    reg.set("old", "s", 20_200, Protocol::Tcp);
    reg.remove("old", "s", "gone");
    reg.set("new", "t", 20_201, Protocol::Tcp);
    assert_eq!(reg.reproject("old", "new"), Ok(0));
    assert_eq!(reg.get("new", "t"), Some(20_201));
    assert_eq!(reg.projects.get("new").unwrap().len(), 1);
}
