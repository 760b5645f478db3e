use spout::error::SpoutError;
use spout::markers::{compose_marker_subdir, find_git_root_by_walk};
use spout::paths::parent_of;
use spout::project::{parse_remote_url, resolve_override, resolve_with_override, Detected};

#[test]
fn parse_scp_like_with_user() {
    assert_eq!(parse_remote_url("git@github.com:spout-cli/spout.git").unwrap(), "github.com/spout-cli/spout");
}

#[test]
fn parse_scp_like_without_dotgit() {
    assert_eq!(parse_remote_url("git@github.com:spout-cli/spout").unwrap(), "github.com/spout-cli/spout");
}

#[test]
fn parse_https() {
    assert_eq!(parse_remote_url("https://github.com/spout-cli/spout.git").unwrap(), "github.com/spout-cli/spout");
}

#[test]
fn parse_https_without_dotgit() {
    assert_eq!(parse_remote_url("https://github.com/spout-cli/spout").unwrap(), "github.com/spout-cli/spout");
}

#[test]
fn parse_ssh_with_protocol() {
    assert_eq!(parse_remote_url("ssh://git@github.com/spout-cli/spout.git").unwrap(), "github.com/spout-cli/spout");
}

#[test]
fn parse_gitlab_multi_group() {
    assert_eq!(
        parse_remote_url("git@gitlab.internal.co:team/subteam/project.git").unwrap(),
        "gitlab.internal.co/team/subteam/project"
    );
}

#[test]
fn parse_http_no_user() {
    assert_eq!(parse_remote_url("http://git.example.com/foo/bar.git").unwrap(), "git.example.com/foo/bar");
}

#[test]
fn parse_scp_like_without_user() {
    assert_eq!(parse_remote_url("github.com:org/repo.git").unwrap(), "github.com/org/repo");
}

#[test]
fn parse_empty_returns_none() {
    assert!(parse_remote_url("").is_none());
}

#[test]
fn parse_local_path_passes_through() {
    let parsed = parse_remote_url("/home/user/other/repo.git").unwrap();
    assert_eq!(parsed, "/home/user/other/repo");
}

#[test]
fn parse_only_dotgit_is_none() {
    assert!(parse_remote_url(".git").is_none());
    assert_eq!(parse_remote_url("file:///srv/git/x.git").unwrap(), "/srv/git/x");
}

fn detected() -> Detected {
    Detected {
        remote_url: Some("git@github.com:spout-cli/spout.git\n".to_owned()),
        git_toplevel: Some("/home/user/spout\n".to_owned()),
        marker_subdir: None,
        cwd: Ok("/home/user/spout/src".to_owned()),
    }
}

#[test]
fn current_project_returns_something_non_empty() {
    let id = resolve_with_override(None, &detected()).unwrap();
    assert!(!id.is_empty(), "identity is empty");
}

#[test]
fn resolve_with_override_honours_explicit_name() {
    let id = resolve_with_override(Some("my-monorepo/web".to_owned()), &detected()).unwrap();
    assert_eq!(id, "my-monorepo/web");
}

#[test]
fn resolve_with_override_trims_whitespace() {
    let id = resolve_with_override(Some("  custom  ".to_owned()), &detected()).unwrap();
    assert_eq!(id, "custom");
}

#[test]
fn resolve_with_override_falls_through_on_empty_string() {
    let baseline = resolve_with_override(None, &detected()).unwrap();
    let with_empty = resolve_with_override(Some(String::new()), &detected()).unwrap();
    assert_eq!(with_empty, baseline);
}

#[test]
fn resolve_with_override_falls_through_on_whitespace_only() {
    let baseline = resolve_with_override(None, &detected()).unwrap();
    let with_whitespace = resolve_with_override(Some("   ".to_owned()), &detected()).unwrap();
    assert_eq!(with_whitespace, baseline);
}

#[test]
fn resolve_with_override_falls_through_on_none() {
    let id = resolve_with_override(None, &detected()).unwrap();
    assert!(!id.is_empty());
}

#[test]
fn resolve_layers_remote_root_and_cwd() {
    assert_eq!(resolve_with_override(None, &detected()).unwrap(), "github.com/spout-cli/spout");
    let mut d = detected();
    d.marker_subdir = Some("apps/web".to_owned());
    assert_eq!(resolve_with_override(None, &d).unwrap(), "github.com/spout-cli/spout/apps/web");
    d.remote_url = None;
    assert_eq!(resolve_with_override(None, &d).unwrap(), "/home/user/spout/apps/web");
    d.git_toplevel = None;
    assert_eq!(resolve_with_override(None, &d).unwrap(), "/home/user/spout/src");
    d.cwd = Err("cannot read current directory: gone".to_owned());
    let err = resolve_with_override(None, &d).unwrap_err();
    assert_eq!(err, SpoutError::RegistryCorrupt("cannot read current directory: gone".into()));
}

#[test]
fn resolve_override_prefers_the_named_project() {
    let current = || Ok::<String, SpoutError>("inferred".to_owned());
    assert_eq!(resolve_override(Some("named"), &current).unwrap(), "named");
    assert_eq!(resolve_override(None, &current).unwrap(), "inferred");
}

fn files_in(existing: &'static [&'static str]) -> impl Fn(&str) -> bool {
    move |p: &str| existing.contains(&p)
}

#[test]
fn marker_subdir_walks_up_to_the_nearest_marker() {
    let is_file = files_in(&["/r/apps/web/docker-compose.yml", "/r/docker-compose.yml"]);
    assert_eq!(compose_marker_subdir("/r", "/r/apps/web/cmd/server", &is_file).as_deref(), Some("apps/web"));
    assert_eq!(compose_marker_subdir("/r", "/r", &is_file), None);
    assert_eq!(compose_marker_subdir("/r", "/elsewhere/apps/web", &is_file), None);
    assert_eq!(compose_marker_subdir("/r", "/r/apps", &is_file), None);
    let svc = files_in(&["/r/svc/compose.yaml"]);
    assert_eq!(compose_marker_subdir("/r", "/r/svc", &svc).as_deref(), Some("svc"));
    let root = files_in(&["/svc/compose.yml"]);
    assert_eq!(compose_marker_subdir("/", "/svc", &root).as_deref(), Some("svc"));
}

#[test]
fn git_root_is_the_nearest_directory_with_dotgit() {
    let exists = files_in(&["/r/.git", "/r/vendor/lib/.git"]);
    assert_eq!(find_git_root_by_walk("/r/src/deep", &exists).as_deref(), Some("/r"));
    assert_eq!(find_git_root_by_walk("/r/vendor/lib/x", &exists).as_deref(), Some("/r/vendor/lib"));
    assert_eq!(find_git_root_by_walk("/other", &exists), None);
}

#[test]
fn marker_subdir_returns_none_when_cwd_is_root_with_marker() {
    let is_file = files_in(&["/r/docker-compose.yml"]);
    assert!(compose_marker_subdir("/r", "/r", &is_file).is_none());
}

#[test]
fn parent_skips_trailing_and_repeated_separators() {
    let p = |s: &str| parent_of(&s.chars().collect()).map(|v| v.into_iter().collect::<String>());
    assert_eq!(p("/a/b/").as_deref(), Some("/a"));
    assert_eq!(p("/a//b").as_deref(), Some("/a"));
    assert_eq!(p("/a/b/.").as_deref(), Some("/a"));
    assert_eq!(p("/a").as_deref(), Some("/"));
    assert_eq!(p("a").as_deref(), Some(""));
    assert_eq!(p("./a").as_deref(), Some("."));
    assert_eq!(p("/"), None);
    assert_eq!(p(""), None);
}
