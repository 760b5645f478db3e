use std::collections::HashSet;

use spout::format::{all, history, port_status_glyph, project_block, should_colour, Palette};
use spout::protocol::Protocol;
use spout::registry::{Entry, HistoryEntry, Registry, ServiceMap};
use spout::rich::{all_rich, project_block_rich};
use spout::strmap::StrMap;

fn entry(port: u16, allocated: &str) -> Entry {
    Entry {
        port,
        allocated: allocated.to_owned(),
        protocol: Protocol::default(),
    }
}

fn one(svc: &str, port: u16) -> ServiceMap {
    let mut m = StrMap::new();
    m.insert(svc.to_owned(), entry(port, "2026-04-21"));
    m
}

fn bound_solid() {
    let services = one("postgres", 20_000);
    let bound: HashSet<u16> = [20_000].into_iter().collect();
    let out = project_block("proj", Some(&services), &bound);
    assert!(out.contains("● postgres"));
    assert!(!out.contains("○ postgres"));
}

fn free_open() {
    let services = one("postgres", 20_000);
    let bound: HashSet<u16> = HashSet::new();
    let out = project_block("proj", Some(&services), &bound);
    assert!(out.contains("○ postgres"));
    assert!(!out.contains("● postgres"));
}

fn empty_all() {
    let reg = Registry::default();
    let bound = HashSet::new();
    assert_eq!(all(&reg, &bound), "(no registrations)");
}

fn protocol_suffix() {
    let mut services = StrMap::new();
    services.insert(
        "postgres".to_owned(),
        Entry {
            port: 20_000,
            allocated: "2026-04-21".into(),
            protocol: Protocol::Tcp,
        },
    );
    services.insert(
        "dns".to_owned(),
        Entry {
            port: 20_053,
            allocated: "2026-04-21".into(),
            protocol: Protocol::Udp,
        },
    );
    let out = project_block("proj", Some(&services), &HashSet::new());
    assert!(out.contains("20000/tcp"), "got {out}");
    assert!(out.contains("20053/udp"), "got {out}");
    let tcp_pos = out.find("postgres").unwrap();
    let udp_pos = out.find("dns").unwrap();
    assert!(tcp_pos < udp_pos, "expected tcp before udp, got:\n{out}");
}

#[test]
fn format_project_block_prefixes_bound_port_with_solid_circle() {
    bound_solid();
}

#[test]
fn plain_project_block_prefixes_bound_port_with_solid_circle() {
    bound_solid();
}

#[test]
fn format_project_block_prefixes_free_port_with_open_circle() {
    free_open();
}

#[test]
fn plain_project_block_prefixes_free_port_with_open_circle() {
    free_open();
}

#[test]
fn format_all_empty_registry_is_descriptive() {
    empty_all();
}

#[test]
fn plain_all_empty_registry_is_descriptive() {
    empty_all();
}

#[test]
fn format_project_block_shows_protocol_suffix_on_every_row() {
    protocol_suffix();
}

#[test]
fn plain_project_block_shows_protocol_suffix_on_every_row() {
    protocol_suffix();
}

#[test]
fn plain_layout_emits_no_ansi_escapes() {
    let out = project_block("proj", Some(&one("postgres", 20_000)), &HashSet::new());
    assert!(!out.contains('\x1b'), "plain leaked an escape: {out:?}");
}

#[test]
fn should_colour_truth_table() {
    assert!(should_colour(true, false, false), "tty + colour + no flag → colour");
    assert!(!should_colour(false, false, false), "piped → plain");
    assert!(!should_colour(true, true, false), "NO_COLOR → plain");
    assert!(!should_colour(true, false, true), "--no-tui → plain");
}

#[test]
fn port_status_glyph_distinguishes_bound_from_free() {
    assert_eq!(port_status_glyph(true), "●");
    assert_eq!(port_status_glyph(false), "○");
}

fn reg_with(services: ServiceMap) -> Registry {
    let mut reg = Registry::default();
    reg.projects.insert("github.com/acme/clawse".to_owned(), services);
    reg
}

fn plain() -> Palette {
    Palette::new(false)
}

#[test]
fn rich_header_names_every_column() {
    let out = all_rich(&reg_with(one("postgres", 20_000)), &HashSet::new(), &plain());
    for col in ["SERVICE", "PORT", "PROTO", "ENV VAR", "ALLOCATED"] {
        assert!(out.contains(col), "header missing {col} in:\n{out}");
    }
}

#[test]
fn rich_row_carries_env_var_and_date() {
    let out = all_rich(&reg_with(one("postgres", 20_000)), &HashSet::new(), &plain());
    assert!(out.contains("POSTGRES_PORT"), "no env var in:\n{out}");
    assert!(out.contains("2026-04-21"), "no date in:\n{out}");
}

#[test]
fn rich_active_colours_port_cyan() {
    let out = all_rich(&reg_with(one("postgres", 20_000)), &HashSet::new(), &Palette::new(true));
    assert!(out.contains("\x1b[36m20000\x1b[0m"), "port not cyan in:\n{out:?}");
}

#[test]
fn rich_bound_dot_is_green_free_dot_is_dim() {
    let bound: HashSet<u16> = [20_000].into_iter().collect();
    let p = Palette::new(true);
    let up = all_rich(&reg_with(one("postgres", 20_000)), &bound, &p);
    let down = all_rich(&reg_with(one("postgres", 20_000)), &HashSet::new(), &p);
    assert!(up.contains("\x1b[32m●\x1b[0m"), "bound not green: {up:?}");
    assert!(down.contains("\x1b[2m○\x1b[0m"), "free not dim: {down:?}");
}

#[test]
fn rich_inactive_palette_emits_no_escapes() {
    let out = all_rich(&reg_with(one("postgres", 20_000)), &HashSet::new(), &plain());
    assert!(!out.contains('\x1b'), "inactive rich leaked an escape:\n{out:?}");
}

#[test]
fn rich_columns_align_across_differing_name_lengths() {
    let mut services = StrMap::new();
    services.insert("db".to_owned(), entry(20_000, "2026-04-21"));
    services.insert("postgres".to_owned(), entry(20_001, "2026-04-21"));
    let out = all_rich(&reg_with(services), &HashSet::new(), &plain());
    let offsets: Vec<usize> = out
        .lines()
        .filter(|l| l.contains("/tcp") || l.contains("20000") || l.contains("20001"))
        .filter_map(|l| l.find("2000"))
        .collect();
    assert!(offsets.len() >= 2, "expected two data rows in:\n{out}");
    assert!(offsets.windows(2).all(|w| w[0] == w[1]), "ports misaligned:\n{out}");
}

#[test]
fn rich_single_empty_project_is_descriptive() {
    let out = project_block_rich("proj", None, &HashSet::new(), &plain());
    assert!(out.contains("▾ proj"));
    assert!(out.contains("(no registrations)"));
}

#[test]
fn plain_block_pads_names_and_orders_tcp_first() {
    let mut services = StrMap::new();
    services.insert("zz".to_owned(), entry(20_001, "2026-04-21"));
    services.insert(
        "dns".to_owned(),
        Entry {
            port: 20_053,
            allocated: "2026-04-20".into(),
            protocol: Protocol::Udp,
        },
    );
    services.insert("alpha".to_owned(), entry(20_000, "2026-04-19"));
    let bound: HashSet<u16> = [20_001].into_iter().collect();
    let out = project_block("p", Some(&services), &bound);
    assert_eq!(
        out,
        "p\n  ○ alpha  20000/tcp  (since 2026-04-19)\n  ● zz     20001/tcp  (since 2026-04-21)\n  ○ dns    20053/udp  (since 2026-04-20)"
    );
}

#[test]
fn plain_block_for_absent_project() {
    assert_eq!(project_block("ghost", None, &HashSet::new()), "ghost\n  (no registrations)");
}

#[test]
fn all_separates_projects_with_a_blank_line() {
    let mut reg = Registry::default();
    reg.set("b", "x", 20_001, Protocol::Tcp);
    reg.set("a", "y", 20_000, Protocol::Tcp);
    let out = all(&reg, &HashSet::new());
    let blocks: Vec<&str> = out.split("\n\n").collect();
    assert_eq!(blocks.len(), 2);
    assert!(blocks[0].starts_with("a\n"));
    assert!(blocks[1].starts_with("b\n"));
}

#[test]
fn rich_header_is_exact_for_an_inactive_palette() {
    let out = project_block_rich("proj", None, &HashSet::new(), &plain());
    let first = out.lines().next().unwrap();
    assert_eq!(first, "  SERVICE  PORT  PROTO  ENV VAR  ALLOCATED");
    let rule = out.lines().nth(1).unwrap();
    assert_eq!(rule.chars().count(), 7 + 4 + 7 + 25);
    assert!(rule.chars().all(|c| c == '─'));
}

#[test]
fn rich_icons_show_only_when_active() {
    let icons = spout::services::parse_icons("postgres=P");
    let on = Palette::with_icons(true, icons);
    let out = all_rich(&reg_with(one("postgres", 20_000)), &HashSet::new(), &on);
    assert!(out.contains("P \x1b[1mpostgres\x1b[0m"), "no icon in {out:?}");
    let icons = spout::services::parse_icons("postgres=P");
    let off = Palette::with_icons(false, icons);
    let out = all_rich(&reg_with(one("postgres", 20_000)), &HashSet::new(), &off);
    assert!(!out.contains("P postgres"));
}

#[test]
fn history_lines_name_port_owner_and_reason() {
    let h = HistoryEntry {
        project: "p".into(),
        service: "api".into(),
        port: 20_000,
        allocated: "2026-01-01".into(),
        released: "2026-02-01".into(),
        reason: "user requested".into(),
        protocol: Protocol::Udp,
    };
    let out = history(&vec![&h, &h]);
    assert_eq!(
        out,
        "20000/udp: was p/api  (allocated 2026-01-01, released 2026-02-01 — user requested)\n20000/udp: was p/api  (allocated 2026-01-01, released 2026-02-01 — user requested)"
    );
}
