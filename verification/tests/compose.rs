use spout::compose::{
    allocate_service, compose, discover_compose, format_compose_summary, load_chain, merge_services, parse, parse_short,
    Allocation, ComposeDoc, ComposeFiles, ComposePort, ComposeService, PortSpec, ServiceDef,
};
use spout::error::SpoutError;
use spout::protocol::Protocol;
use spout::registry::Registry;

fn names(services: &[ComposeService]) -> Vec<&str> {
    services.iter().map(|s| s.name.as_str()).collect()
}

fn port(container_port: u16, protocol: Protocol) -> ComposePort {
    ComposePort { container_port, protocol }
}

fn svc(name: &str, ports: Vec<ComposePort>) -> ComposeService {
    ComposeService { name: name.to_string(), ports }
}

fn short(s: &str) -> PortSpec {
    PortSpec::Short(s.to_string())
}

fn doc(services: Vec<(&str, Option<Vec<PortSpec>>)>) -> ComposeDoc {
    ComposeDoc {
        services: services
            .into_iter()
            .map(|(name, ports)| (name.to_string(), ServiceDef { ports }))
            .collect(),
    }
}

fn parse_ok(d: ComposeDoc) -> Vec<ComposeService> {
    parse(&d).0
}

#[test]
fn empty_doc_yields_empty_vec() {
    assert!(parse_ok(doc(vec![])).is_empty());
    assert!(parse_ok(ComposeDoc { services: vec![] }).is_empty());
}

#[test]
fn short_form_numeric_is_tcp() {
    let got = parse_ok(doc(vec![("postgres", Some(vec![short("5432")]))]));
    assert_eq!(got.len(), 1);
    assert_eq!(got[0].name, "postgres");
    assert_eq!(got[0].ports, vec![port(5432, Protocol::Tcp)]);
}

#[test]
fn host_container_form_is_tcp() {
    let got = parse_ok(doc(vec![("postgres", Some(vec![short("5432:5432")]))]));
    assert_eq!(got[0].ports, vec![port(5432, Protocol::Tcp)]);
}

#[test]
fn slash_udp_suffix_is_udp() {
    let got = parse_ok(doc(vec![("dns", Some(vec![short("53:53/udp")]))]));
    assert_eq!(got[0].ports, vec![port(53, Protocol::Udp)]);
}

#[test]
fn bind_ip_shorthand_parses_as_tcp() {
    let got = parse_ok(doc(vec![("pg", Some(vec![short("127.0.0.1:5432:5432")]))]));
    assert_eq!(got[0].ports, vec![port(5432, Protocol::Tcp)]);
}

#[test]
fn long_form_with_udp_protocol() {
    let got = parse_ok(doc(vec![(
        "api",
        Some(vec![PortSpec::Long { target: Some(8080), protocol: Some("udp".into()) }]),
    )]));
    assert_eq!(got[0].ports, vec![port(8080, Protocol::Udp)]);
}

#[test]
fn long_form_default_protocol_is_tcp() {
    let got = parse_ok(doc(vec![("api", Some(vec![PortSpec::Long { target: Some(8080), protocol: None }]))]));
    assert_eq!(got[0].ports, vec![port(8080, Protocol::Tcp)]);
}

#[test]
fn long_form_missing_target_is_dropped() {
    let (services, warnings) = parse(&doc(vec![(
        "api",
        Some(vec![PortSpec::Long { target: None, protocol: Some("tcp".into()) }]),
    )]));
    assert!(services.is_empty());
    assert_eq!(warnings.len(), 1);
    assert!(warnings[0].contains("unparseable"));
}

#[test]
fn numeric_port_without_quotes_is_tcp() {
    let got = parse_ok(doc(vec![("api", Some(vec![PortSpec::Numeric(8080)]))]));
    assert_eq!(got[0].ports, vec![port(8080, Protocol::Tcp)]);
}

#[test]
fn port_range_shorthand_is_unparseable() {
    let (services, warnings) = parse(&doc(vec![("api", Some(vec![short("9000-9005:9000-9005")]))]));
    assert!(services.is_empty());
    assert_eq!(warnings.len(), 1);
    assert!(warnings[0].contains("'api'"));
    assert!(warnings[0].contains("#1"));
}

#[test]
fn non_numeric_container_port_is_unparseable() {
    let (services, warnings) = parse(&doc(vec![("api", Some(vec![short("abc")]))]));
    assert!(services.is_empty());
    assert_eq!(warnings.len(), 1);
}

#[test]
fn unknown_protocol_suffix_is_unparseable() {
    let (services, warnings) = parse(&doc(vec![("api", Some(vec![short("80:80/sctp")]))]));
    assert!(services.is_empty());
    assert_eq!(warnings.len(), 1);
}

#[test]
fn services_without_ports_are_skipped() {
    let got = parse_ok(doc(vec![("postgres", Some(vec![short("5432")])), ("web", None)]));
    assert_eq!(names(&got), vec!["postgres"]);
}

#[test]
fn services_with_empty_ports_list_are_skipped() {
    let got = parse_ok(doc(vec![("api", Some(vec![])), ("postgres", Some(vec![short("5432")]))]));
    assert_eq!(names(&got), vec!["postgres"]);
}

#[test]
fn multi_port_service_records_all_ports_in_order() {
    let got = parse_ok(doc(vec![("api", Some(vec![short("8080"), short("9229"), short("9230")]))]));
    assert_eq!(
        got[0].ports,
        vec![port(8080, Protocol::Tcp), port(9229, Protocol::Tcp), port(9230, Protocol::Tcp)]
    );
}

#[test]
fn multi_port_preserves_mixed_protocols() {
    let got = parse_ok(doc(vec![("dns", Some(vec![short("53:53/udp"), short("53:53/tcp")]))]));
    assert_eq!(got[0].ports, vec![port(53, Protocol::Udp), port(53, Protocol::Tcp)]);
}

#[test]
fn unparseable_spec_keeps_valid_siblings() {
    let (services, warnings) =
        parse(&doc(vec![("api", Some(vec![short("8080"), short("9000-9005:9000-9005"), short("9090")]))]));
    assert_eq!(services[0].ports, vec![port(8080, Protocol::Tcp), port(9090, Protocol::Tcp)]);
    assert_eq!(warnings.len(), 1);
    assert!(warnings[0].contains("#2"));
}

#[test]
fn services_field_missing_is_ok_returns_empty() {
    assert!(parse_ok(ComposeDoc { services: Vec::new() }).is_empty());
}

#[test]
fn multiple_services_preserve_names() {
    let got = parse_ok(doc(vec![
        ("coredns", Some(vec![short("53:53/udp")])),
        ("postgres", Some(vec![short("5432")])),
        ("redis", Some(vec![short("6379")])),
    ]));
    let mut got_names = names(&got);
    got_names.sort();
    assert_eq!(got_names, vec!["coredns", "postgres", "redis"]);
}

#[test]
fn merge_overlay_adds_service_not_in_base() {
    let base = vec![svc("postgres", vec![port(5432, Protocol::Tcp)])];
    let overlay = vec![svc("api", vec![port(8080, Protocol::Tcp)])];
    let merged = merge_services(base, overlay);
    assert_eq!(names(&merged), vec!["api", "postgres"]);
}

#[test]
fn merge_overlay_wins_when_both_declare_service() {
    let base = vec![svc("api", vec![port(8080, Protocol::Tcp)])];
    let overlay = vec![svc("api", vec![port(8080, Protocol::Udp), port(9000, Protocol::Tcp)])];
    let merged = merge_services(base, overlay);
    assert_eq!(merged.len(), 1);
    assert_eq!(merged[0].ports, vec![port(8080, Protocol::Udp), port(9000, Protocol::Tcp)]);
}

#[test]
fn merge_preserves_base_only_services() {
    let base = vec![
        svc("postgres", vec![port(5432, Protocol::Tcp)]),
        svc("redis", vec![port(6379, Protocol::Tcp)]),
    ];
    let merged = merge_services(base, vec![]);
    assert_eq!(names(&merged), vec!["postgres", "redis"]);
}

#[test]
fn merge_both_empty_is_empty() {
    assert!(merge_services(vec![], vec![]).is_empty());
}

#[test]
fn merge_result_is_alphabetical() {
    let base = vec![svc("redis", vec![port(6379, Protocol::Tcp)]), svc("alpha", vec![port(1, Protocol::Tcp)])];
    let overlay = vec![svc("zulu", vec![port(2, Protocol::Tcp)]), svc("bravo", vec![port(3, Protocol::Tcp)])];
    let merged = merge_services(base, overlay);
    assert_eq!(names(&merged), vec!["alpha", "bravo", "redis", "zulu"]);
}

#[test]
fn merge_protocol_follows_winning_file() {
    let base = vec![svc("coredns", vec![port(53, Protocol::Tcp)])];
    let overlay = vec![svc("coredns", vec![port(53, Protocol::Udp)])];
    let merged = merge_services(base, overlay);
    assert_eq!(merged[0].ports, vec![port(53, Protocol::Udp)]);
}

fn files_base(p: &str) -> ComposeFiles {
    ComposeFiles { base: p.to_string(), overlay: None }
}

fn allocation(name: &str, port: u16, protocol: Protocol, is_new: bool) -> Allocation {
    Allocation { name: name.to_string(), port, protocol, is_new }
}

#[test]
fn format_summary_one_service_uses_singular() {
    let out = format_compose_summary(
        &files_base("docker-compose.yml"),
        &vec![allocation("api", 20_000, Protocol::Tcp, true)],
    );
    assert!(out.contains("1 service allocated"));
    assert!(out.contains("api"));
    assert!(out.contains("20000"));
    assert!(out.contains("tcp"));
}

#[test]
fn format_summary_mixed_new_and_existing() {
    let out = format_compose_summary(
        &files_base("docker-compose.yml"),
        &vec![allocation("a", 20_000, Protocol::Tcp, true), allocation("b", 20_001, Protocol::Udp, false)],
    );
    assert!(out.contains("2 services (1 new, 1 existing)"));
    assert!(out.contains("udp"));
}

#[test]
fn format_summary_cites_both_files_when_override_present() {
    let files = ComposeFiles {
        base: "docker-compose.yml".to_string(),
        overlay: Some("docker-compose.override.yml".to_string()),
    };
    let out = format_compose_summary(&files, &vec![allocation("api", 20_000, Protocol::Tcp, true)]);
    assert!(out.contains("docker-compose.yml"));
    assert!(out.contains("docker-compose.override.yml"));
    assert!(out.contains(" + "));
}

#[test]
fn format_summary_is_exact() {
    let out = format_compose_summary(
        &files_base("compose.yml"),
        &vec![allocation("api", 20_000, Protocol::Tcp, true), allocation("dns-53", 20_001, Protocol::Udp, true)],
    );
    assert_eq!(out, "compose.yml → 2 services allocated.\n\n  api     20000  tcp\n  dns-53  20001  udp");
}

#[test]
fn parse_short_reads_the_container_port() {
    assert_eq!(parse_short("8080:80"), Some(port(80, Protocol::Tcp)));
    assert_eq!(parse_short("53/UDP"), Some(port(53, Protocol::Udp)));
    assert_eq!(parse_short("+80"), Some(port(80, Protocol::Tcp)));
    assert_eq!(parse_short("70000"), None);
    assert_eq!(parse_short(""), None);
    assert_eq!(parse_short("80:"), None);
}

fn files_in(existing: &'static [&'static str]) -> impl Fn(&str) -> bool {
    move |p: &str| existing.contains(&p)
}

#[test]
fn discover_prefers_docker_compose_yml_over_compose_yaml() {
    let got = discover_compose("/w", None, &files_in(&["/w/docker-compose.yml", "/w/compose.yaml"])).unwrap();
    assert_eq!(got.base, "/w/docker-compose.yml");
    assert!(got.overlay.is_none());
}

#[test]
fn discover_pairs_base_with_override() {
    let got =
        discover_compose("/w", None, &files_in(&["/w/compose.yaml", "/w/compose.override.yaml"])).unwrap();
    assert_eq!(got.base, "/w/compose.yaml");
    assert_eq!(got.overlay.as_deref(), Some("/w/compose.override.yaml"));
}

#[test]
fn discover_errors() {
    let err = discover_compose("/w", None, &files_in(&["/w/docker-compose.override.yml"])).unwrap_err();
    let msg = err.message();
    assert!(msg.contains("override"), "got {msg:?}");
    assert!(msg.contains("no base"), "got {msg:?}");
    assert_eq!(err.exit_code(), 8);
    let err = discover_compose("/w", None, &files_in(&[])).unwrap_err();
    assert!(matches!(err, SpoutError::ComposeNotFound(_)));
    let err = discover_compose("/w", Some("/w/prod.yml"), &files_in(&[])).unwrap_err();
    assert_eq!(err.message(), "compose file not found: /w/prod.yml");
    let got = discover_compose("/w", Some("/w/prod.yml"), &files_in(&["/w/prod.yml", "/w/docker-compose.override.yml"])).unwrap();
    assert_eq!(got.base, "/w/prod.yml");
    assert!(got.overlay.is_none());
}

#[test]
fn load_chain_merges_override_over_base() {
    let base = doc(vec![("api", None), ("coredns", Some(vec![short("53:53")]))]);
    let overlay = doc(vec![("api", Some(vec![short("8080:8080")])), ("coredns", Some(vec![short("53:53/udp")]))]);
    let (services, warnings) = load_chain(&vec![base, overlay]).unwrap();
    assert!(warnings.is_empty());
    assert_eq!(names(&services), vec!["api", "coredns"]);
    assert_eq!(services[1].ports, vec![port(53, Protocol::Udp)]);
    assert!(matches!(load_chain(&vec![]), Err(SpoutError::ComposeNotFound(_))));
}

fn all_free(_port: u16, _protocol: Protocol) -> bool {
    true
}

#[test]
fn allocate_service_allocates_only_the_first_port() {
    let mut reg = Registry::default();
    let service = svc("api", vec![port(8080, Protocol::Tcp), port(9229, Protocol::Tcp), port(9229, Protocol::Udp)]);
    let (allocs, warnings) = allocate_service(&mut reg, "p", &service, &all_free).unwrap();
    let got: Vec<(&str, u16, Protocol, bool)> = allocs.iter().map(|a| (a.name.as_str(), a.port, a.protocol, a.is_new)).collect();
    assert_eq!(got, vec![("api", 20_000, Protocol::Tcp, true)]);
    assert_eq!(
        warnings,
        vec!["'api' declares 3 ports; only the first (8080) is allocated. Split it into separate compose services to register the others.".to_string()]
    );
    assert!(reg.get("p", "api-9229").is_none());
    assert_eq!(reg.projects.get("p").unwrap().len(), 1);
    let (again, _) = allocate_service(&mut reg, "p", &service, &all_free).unwrap();
    assert!(again.iter().all(|a| !a.is_new));
    assert_eq!(again[0].port, 20_000);
}

#[test]
fn compose_run_allocates_and_summarises() {
    let mut reg = Registry::default();
    let files = files_base("docker-compose.yml");
    let docs = vec![doc(vec![("postgres", Some(vec![short("5432")])), ("web", Some(vec![short("x")]))])];
    let out = compose(&mut reg, "p", &files, &docs, &all_free).unwrap();
    assert_eq!(out.summary, "docker-compose.yml → 1 service allocated.\n\n  postgres  20000  tcp");
    assert_eq!(out.warnings, vec!["'web' port spec #1 is unparseable; skipping".to_string()]);
    assert_eq!(reg.get("p", "postgres"), Some(20_000));
    let empty = compose(&mut reg, "p", &files, &vec![doc(vec![("web", None)])], &all_free).unwrap();
    assert_eq!(empty.summary, "docker-compose.yml: no services with port declarations.");
}

#[test]
fn compose_rerun_keeps_every_port() {
    let mut reg = Registry::default();
    let files = ComposeFiles { base: "docker-compose.yml".to_string(), overlay: Some("docker-compose.override.yml".to_string()) };
    let base = doc(vec![("postgres", Some(vec![short("5432")])), ("dns", Some(vec![short("53:53/udp")]))]);
    let overlay = doc(vec![("redis", Some(vec![short("6379")]))]);
    let docs = vec![base, overlay];
    let first = compose(&mut reg, "p", &files, &docs, &all_free).unwrap();
    assert!(first.summary.starts_with("docker-compose.yml + docker-compose.override.yml → 3 services allocated."));
    let ports: Vec<Option<u16>> = ["dns", "postgres", "redis"].iter().map(|s| reg.get("p", s)).collect();
    let history = reg.history.len();
    let second = compose(&mut reg, "p", &files, &docs, &all_free).unwrap();
    assert!(second.summary.starts_with("docker-compose.yml + docker-compose.override.yml → 3 services (0 new, 3 existing)."));
    let again: Vec<Option<u16>> = ["dns", "postgres", "redis"].iter().map(|s| reg.get("p", s)).collect();
    assert_eq!(ports, again);
    assert_eq!(reg.history.len(), history);
}

#[test]
fn discover_finds_docker_compose_yml() {
    let got = discover_compose("/w", None, &files_in(&["/w/docker-compose.yml"])).unwrap();
    assert!(got.base.ends_with("docker-compose.yml"));
    assert!(got.overlay.is_none());
}

#[test]
fn discover_falls_through_to_compose_yaml() {
    let got = discover_compose("/w", None, &files_in(&["/w/compose.yaml"])).unwrap();
    assert!(got.base.ends_with("compose.yaml"));
}

#[test]
fn discover_missing_file_is_compose_not_found() {
    let err = discover_compose("/w", None, &files_in(&[])).unwrap_err();
    assert!(matches!(err, SpoutError::ComposeNotFound(_)));
    assert_eq!(err.exit_code(), 8);
}

#[test]
fn discover_missing_explicit_path_is_compose_not_found() {
    let err = discover_compose("/w", Some("/w/does-not-exist.yml"), &files_in(&[])).unwrap_err();
    assert!(matches!(err, SpoutError::ComposeNotFound(_)));
}

#[test]
fn discover_returns_base_and_override_when_both_exist() {
    let got = discover_compose("/w", None, &files_in(&["/w/docker-compose.yml", "/w/docker-compose.override.yml"])).unwrap();
    assert!(got.base.ends_with("docker-compose.yml"));
    assert!(got.overlay.as_ref().is_some_and(|o| o.ends_with("docker-compose.override.yml")));
}

#[test]
fn discover_pairs_base_with_mismatched_override_extension() {
    let got = discover_compose("/w", None, &files_in(&["/w/docker-compose.yml", "/w/compose.override.yaml"])).unwrap();
    assert!(got.base.ends_with("docker-compose.yml"));
    assert!(got.overlay.as_ref().is_some_and(|o| o.ends_with("compose.override.yaml")));
}

#[test]
fn discover_override_without_base_is_friendly_error() {
    let err = discover_compose("/w", None, &files_in(&["/w/docker-compose.override.yml"])).unwrap_err();
    let msg = err.message();
    assert!(msg.contains("override"), "got {msg:?}");
    assert!(msg.contains("no base"), "got {msg:?}");
    assert_eq!(err.exit_code(), 8);
}

#[test]
fn load_and_merge_overlay_adds_services_missing_from_base() {
    // base: postgres and api with images only; overlay: their ports.
    let base = doc(vec![("postgres", None), ("api", None)]);
    let overlay = doc(vec![("postgres", Some(vec![short("5432:5432")])), ("api", Some(vec![short("8080:8080")]))]);
    let (services, _warnings) = load_chain(&vec![base, overlay]).unwrap();
    let mut got = names(&services);
    got.sort();
    assert_eq!(got, vec!["api", "postgres"]);
}

#[test]
fn load_and_merge_overlay_wins_on_port_conflict() {
    let base = doc(vec![("coredns", Some(vec![short("53:53")]))]);
    let overlay = doc(vec![("coredns", Some(vec![short("53:53/udp")]))]);
    let (services, _warnings) = load_chain(&vec![base, overlay]).unwrap();
    assert_eq!(services.len(), 1);
    assert_eq!(services[0].ports.len(), 1);
    assert_eq!(services[0].ports[0].protocol, Protocol::Udp);
}

#[test]
fn compose_succeeds_without_probing_when_everything_is_registered() {
    let mut reg = Registry::default();
    let files = files_base("docker-compose.yml");
    let docs = vec![doc(vec![("postgres", Some(vec![short("5432")]))])];
    compose(&mut reg, "p", &files, &docs, &all_free).unwrap();
    let none = |_p: u16, _q: Protocol| false;
    let again = compose(&mut reg, "p", &files, &docs, &none).unwrap();
    assert!(again.summary.contains("(0 new, 1 existing)"), "got {}", again.summary);
    let err = compose(&mut reg, "q", &files, &docs, &none).unwrap_err();
    assert_eq!(err, SpoutError::NoFreePortFound { service: "postgres".into(), range_start: 20_000, range_end: 32_767 });
}

#[test]
fn compose_skips_ports_other_projects_hold() {
    let mut reg = Registry::default();
    reg.set("other", "db", 20_000, Protocol::Tcp);
    reg.set("other", "dns", 20_001, Protocol::Udp);
    let files = files_base("docker-compose.yml");
    let docs = vec![doc(vec![("postgres", Some(vec![short("5432")])), ("redis", Some(vec![short("6379")]))])];
    compose(&mut reg, "p", &files, &docs, &all_free).unwrap();
    assert_eq!(reg.get("p", "postgres"), Some(20_001));
    assert_eq!(reg.get("p", "redis"), Some(20_002));
    assert_eq!(reg.get("other", "db"), Some(20_000));
}
