//! Project identity: which project a command acts on.
//!
//! First match wins: the `SPOUT_PROJECT` override (trimmed); the git remote
//! as `host/owner/repo` — or, without a remote, the git root path — with
//! the nearest compose-marker subdirectory appended; the working
//! directory. The binary runs git and reads the environment; what those
//! answers mean is decided here.

use vstd::prelude::*;

use crate::error::SpoutError;
use crate::text::{chars_of, find_char, find_first, string_of, sub_chars, trim, trim_chars};

verus! {

/// Whether `s` begins with `p`.
pub open spec fn starts_with(s: Seq<char>, p: Seq<char>) -> bool {
    p.len() <= s.len() && s.subrange(0, p.len() as int) == p
}

/// Whether `s` ends with `p`.
pub open spec fn ends_with(s: Seq<char>, p: Seq<char>) -> bool {
    p.len() <= s.len() && s.subrange(s.len() - p.len(), s.len() as int) == p
}

/// `s` without the first of `ssh://`, `git://`, `https://`, `http://`,
/// `file://` it begins with.
pub open spec fn strip_protocol_spec(s: Seq<char>) -> Seq<char> {
    if starts_with(s, "ssh://"@) {
        s.subrange(6, s.len() as int)
    } else if starts_with(s, "git://"@) {
        s.subrange(6, s.len() as int)
    } else if starts_with(s, "https://"@) {
        s.subrange(8, s.len() as int)
    } else if starts_with(s, "http://"@) {
        s.subrange(7, s.len() as int)
    } else if starts_with(s, "file://"@) {
        s.subrange(7, s.len() as int)
    } else {
        s
    }
}

/// Index of the first `:` or `/` in `s`, or -1.
pub open spec fn first_separator(s: Seq<char>) -> int {
    let c = find_first(s, ':');
    let sl = find_first(s, '/');
    if c < 0 {
        sl
    } else if sl < 0 || c < sl {
        c
    } else {
        sl
    }
}

/// `s` without a leading `user@`: only when the `@` comes before the first
/// `:` or `/`.
pub open spec fn strip_user_spec(s: Seq<char>) -> Seq<char> {
    let at = find_first(s, '@');
    let b = first_separator(s);
    if at >= 0 && b >= 0 && at < b {
        s.subrange(at + 1, s.len() as int)
    } else {
        s
    }
}

/// SCP-like `host:path` as `host/path`: the first `:` becomes `/` when it
/// comes before every `/`.
pub open spec fn normalise_scp_spec(s: Seq<char>) -> Seq<char> {
    let c = find_first(s, ':');
    let sl = find_first(s, '/');
    if c >= 0 && (sl < 0 || c < sl) {
        s.subrange(0, c) + "/"@ + s.subrange(c + 1, s.len() as int)
    } else {
        s
    }
}

/// The identity of a git remote URL: protocol, user and a trailing `.git`
/// dropped, SCP-like `host:path` as `host/path`. Empty gives none.
pub open spec fn remote_identity(url: Seq<char>) -> Option<Seq<char>> {
    if url.len() == 0 {
        None
    } else {
        let n = normalise_scp_spec(strip_user_spec(strip_protocol_spec(url)));
        let clean = if ends_with(n, ".git"@) { n.subrange(0, n.len() - 4) } else { n };
        if clean.len() == 0 {
            None
        } else {
            Some(clean)
        }
    }
}

proof fn lemma_strip_listed_protocol(p: Seq<char>, u: Seq<char>)
    requires
        p == "ssh://"@ || p == "git://"@ || p == "https://"@ || p == "http://"@ || p == "file://"@,
    ensures
        strip_protocol_spec(p + u) == u,
{
    reveal_strlit("ssh://");
    reveal_strlit("git://");
    reveal_strlit("https://");
    reveal_strlit("http://");
    reveal_strlit("file://");
    let s = p + u;
    assert(s.subrange(0, p.len() as int) =~= p);
    assert(s.subrange(p.len() as int, s.len() as int) =~= u);
    if p != "ssh://"@ {
        assert(s.subrange(0, 6)[0] != "ssh://"@[0] || s.subrange(0, 6)[1] != "ssh://"@[1]);
    }
    if p != "git://"@ {
        assert(s.subrange(0, 6)[0] != "git://"@[0] || s.subrange(0, 6)[1] != "git://"@[1]);
    }
    if p != "https://"@ && s.len() >= 8 {
        assert(s.subrange(0, 8)[0] != "https://"@[0] || s.subrange(0, 8)[4] != "https://"@[4]);
    }
    if p != "http://"@ && s.len() >= 7 {
        assert(s.subrange(0, 7)[0] != "http://"@[0] || s.subrange(0, 7)[4] != "http://"@[4]);
    }
}

/// Every listed protocol prefix is dropped before the user and host are
/// read: a remote URL gives the same identity after `ssh://`, `git://`,
/// `https://`, `http://` or `file://`.
pub proof fn law_remote_protocols_agree(u: Seq<char>)
    ensures
        remote_identity("git://"@ + u) == remote_identity("https://"@ + u),
        remote_identity("ssh://"@ + u) == remote_identity("https://"@ + u),
        remote_identity("http://"@ + u) == remote_identity("https://"@ + u),
        remote_identity("file://"@ + u) == remote_identity("https://"@ + u),
{
    reveal_strlit("ssh://");
    reveal_strlit("git://");
    reveal_strlit("https://");
    reveal_strlit("http://");
    reveal_strlit("file://");
    lemma_strip_listed_protocol("ssh://"@, u);
    lemma_strip_listed_protocol("git://"@, u);
    lemma_strip_listed_protocol("https://"@, u);
    lemma_strip_listed_protocol("http://"@, u);
    lemma_strip_listed_protocol("file://"@, u);
    assert(("https://"@ + u).len() > 0);
    assert(("git://"@ + u).len() > 0);
    assert(("ssh://"@ + u).len() > 0);
    assert(("http://"@ + u).len() > 0);
    assert(("file://"@ + u).len() > 0);
}

/// What `parse_remote_url` gives for a `git://` remote is what it gives
/// for the same remote over `https://`.
pub proof fn law_parse_git_protocol_as_https(u: Seq<char>, a: Option<String>, b: Option<String>)
    requires
        match a {
            Some(s) => remote_identity("git://"@ + u) == Some(s@),
            None => remote_identity("git://"@ + u) is None,
        },
        match b {
            Some(s) => remote_identity("https://"@ + u) == Some(s@),
            None => remote_identity("https://"@ + u) is None,
        },
    ensures
        a is Some <==> b is Some,
        a matches Some(x) ==> (b matches Some(y) && x@ == y@),
{
    law_remote_protocols_agree(u);
}

/// Whether `cs` begins with `p`.
fn has_prefix(cs: &Vec<char>, p: &str) -> (r: bool)
    ensures
        r == starts_with(cs@, p@),
{
    let pc = chars_of(p);
    if pc.len() > cs.len() {
        return false;
    }
    let mut i: usize = 0;
    while i < pc.len()
        invariant
            pc@ == p@,
            pc.len() <= cs.len(),
            i <= pc.len(),
            forall|j: int| 0 <= j < i ==> cs@[j] == pc@[j],
        decreases pc.len() - i,
    {
        if cs[i] != pc[i] {
            assert(cs@.subrange(0, pc@.len() as int)[i as int] != p@[i as int]);
            return false;
        }
        i = i + 1;
    }
    assert(cs@.subrange(0, pc@.len() as int) =~= p@);
    true
}

pub fn strip_protocol(s: &Vec<char>) -> (r: Vec<char>)
    ensures
        r@ == strip_protocol_spec(s@),
{
    proof {
        reveal_strlit("ssh://");
        reveal_strlit("git://");
        reveal_strlit("https://");
        reveal_strlit("http://");
        reveal_strlit("file://");
    }
    if has_prefix(s, "ssh://") {
        sub_chars(s, 6, s.len())
    } else if has_prefix(s, "git://") {
        sub_chars(s, 6, s.len())
    } else if has_prefix(s, "https://") {
        sub_chars(s, 8, s.len())
    } else if has_prefix(s, "http://") {
        sub_chars(s, 7, s.len())
    } else if has_prefix(s, "file://") {
        sub_chars(s, 7, s.len())
    } else {
        sub_chars(s, 0, s.len())
    }
}

fn find_separator(s: &Vec<char>) -> (r: Option<usize>)
    ensures
        match r {
            Some(i) => first_separator(s@) == i,
            None => first_separator(s@) == -1,
        },
{
    proof {
        crate::text::lemma_find_first(s@, ':');
        crate::text::lemma_find_first(s@, '/');
    }
    match (find_char(s, ':'), find_char(s, '/')) {
        (Some(c), Some(sl)) => if c < sl { Some(c) } else { Some(sl) },
        (Some(c), None) => Some(c),
        (None, x) => x,
    }
}

pub fn strip_user(s: &Vec<char>) -> (r: Vec<char>)
    ensures
        r@ == strip_user_spec(s@),
{
    proof {
        crate::text::lemma_find_first(s@, '@');
    }
    match (find_char(s, '@'), find_separator(s)) {
        (Some(at), Some(b)) => if at < b {
            sub_chars(s, at + 1, s.len())
        } else {
            sub_chars(s, 0, s.len())
        },
        _ => sub_chars(s, 0, s.len()),
    }
}

pub fn normalise_scp_like(s: &Vec<char>) -> (r: Vec<char>)
    ensures
        r@ == normalise_scp_spec(s@),
{
    proof {
        crate::text::lemma_find_first(s@, ':');
        crate::text::lemma_find_first(s@, '/');
        reveal_strlit("/");
    }
    let c = find_char(s, ':');
    let sl = find_char(s, '/');
    let split = match (c, sl) {
        (Some(c), Some(sl)) => if c < sl { Some(c) } else { None },
        (Some(c), None) => Some(c),
        _ => None,
    };
    match split {
        Some(c) => {
            let mut r = sub_chars(s, 0, c);
            r.push('/');
            let rest = sub_chars(s, c + 1, s.len());
            let mut i: usize = 0;
            let ghost head = r@;
            while i < rest.len()
                invariant
                    i <= rest@.len(),
                    r@ == head + rest@.subrange(0, i as int),
                decreases rest@.len() - i,
            {
                r.push(rest[i]);
                i = i + 1;
                assert(r@ =~= head + rest@.subrange(0, i as int));
            }
            assert(rest@.subrange(0, rest@.len() as int) =~= rest@);
            assert(head =~= s@.subrange(0, c as int) + "/"@);
            r
        },
        None => sub_chars(s, 0, s.len()),
    }
}

/// Parses a git remote URL into its `host/owner/repo` identity.
pub fn parse_remote_url(url: &str) -> (r: Option<String>)
    ensures
        match r {
            Some(s) => remote_identity(url@) == Some(s@),
            None => remote_identity(url@) is None,
        },
{
    proof {
        reveal_strlit(".git");
    }
    let cs = chars_of(url);
    if cs.len() == 0 {
        return None;
    }
    let a = strip_protocol(&cs);
    let b = strip_user(&a);
    let n = normalise_scp_like(&b);
    let k = n.len();
    let clean = if k >= 4 && n[k - 4] == '.' && n[k - 3] == 'g' && n[k - 2] == 'i' && n[k - 1] == 't' {
        assert(n@.subrange(k - 4, k as int) =~= ".git"@);
        sub_chars(&n, 0, k - 4)
    } else {
        proof {
            if ends_with(n@, ".git"@) {
                assert(n@.subrange(k - 4, k as int)[0] == '.');
                assert(n@.subrange(k - 4, k as int)[1] == 'g');
                assert(n@.subrange(k - 4, k as int)[2] == 'i');
                assert(n@.subrange(k - 4, k as int)[3] == 't');
            }
        }
        sub_chars(&n, 0, k)
    };
    if clean.len() == 0 {
        None
    } else {
        Some(string_of(&clean))
    }
}

/// `raw` trimmed, unless nothing is left.
pub open spec fn non_empty_trimmed_spec(raw: Seq<char>) -> Option<Seq<char>> {
    if trim(raw).len() == 0 {
        None
    } else {
        Some(trim(raw))
    }
}

pub fn non_empty_trimmed(raw: &str) -> (r: Option<String>)
    ensures
        match r {
            Some(s) => non_empty_trimmed_spec(raw@) == Some(s@),
            None => non_empty_trimmed_spec(raw@) is None,
        },
{
    let t = trim_chars(&chars_of(raw));
    if t.len() == 0 {
        None
    } else {
        Some(string_of(&t))
    }
}

/// What the binary found out about where it runs: git's answers (their
/// standard output, when git succeeded), the compose-marker subdirectory
/// below the git root, and the working directory (or why it could not be
/// read).
#[derive(Debug)]
pub struct Detected {
    pub remote_url: Option<String>,
    pub git_toplevel: Option<String>,
    pub marker_subdir: Option<String>,
    pub cwd: Result<String, String>,
}

/// The auto-detected base identity: the remote's identity, else the git
/// root path.
pub open spec fn detected_base(d: Detected) -> Option<Seq<char>> {
    let remote = match d.remote_url {
        Some(u) => remote_identity(trim(u@)),
        None => None,
    };
    match remote {
        Some(x) => Some(x),
        None => match d.git_toplevel {
            Some(t) => non_empty_trimmed_spec(t@),
            None => None,
        },
    }
}

/// The project identity: the override when it holds more than white space;
/// else the detected base, with the marker subdirectory appended; else the
/// working directory (or the error reading it).
pub open spec fn identity(override_value: Option<Seq<char>>, d: Detected) -> Result<Seq<char>, SpoutError> {
    let explicit = match override_value {
        Some(o) => non_empty_trimmed_spec(o),
        None => None,
    };
    match explicit {
        Some(e) => Ok(e),
        None => match detected_base(d) {
            Some(b) => match d.marker_subdir {
                Some(sub) => Ok(b + "/"@ + sub@),
                None => Ok(b),
            },
            None => match d.cwd {
                Ok(c) => Ok(c@),
                Err(m) => Err(SpoutError::RegistryCorrupt(m)),
            },
        },
    }
}

/// Resolves the project identity from the override and what was detected.
pub fn resolve_with_override(override_value: Option<String>, detected: &Detected) -> (r: Result<String, SpoutError>)
    ensures
        match r {
            Ok(s) => identity(match override_value {
                Some(o) => Some(o@),
                None => None,
            }, *detected) == Ok::<Seq<char>, SpoutError>(s@),
            Err(e) => identity(match override_value {
                Some(o) => Some(o@),
                None => None,
            }, *detected) matches Err(SpoutError::RegistryCorrupt(m)) && e matches SpoutError::RegistryCorrupt(n) && n@ == m@,
        },
{
    match &override_value {
        Some(o) => match non_empty_trimmed(o.as_str()) {
            Some(e) => return Ok(e),
            None => {},
        },
        None => {},
    }
    let remote = match &detected.remote_url {
        Some(u) => {
            let t = trim_chars(&chars_of(u.as_str()));
            let ts = string_of(&t);
            parse_remote_url(ts.as_str())
        },
        None => None,
    };
    let base = match remote {
        Some(x) => Some(x),
        None => match &detected.git_toplevel {
            Some(t) => non_empty_trimmed(t.as_str()),
            None => None,
        },
    };
    match base {
        Some(b) => match &detected.marker_subdir {
            Some(sub) => {
                let mut id = b;
                id.append("/");
                id.append(sub.as_str());
                Ok(id)
            },
            None => Ok(b),
        },
        None => match &detected.cwd {
            Ok(c) => Ok(c.clone()),
            Err(m) => Err(SpoutError::RegistryCorrupt(m.clone())),
        },
    }
}


/// The project a command with an optional `--project` acts on: the name
/// given, else what `current` (the inferred identity) answers.
pub fn resolve_override<F: Fn() -> Result<String, SpoutError>>(explicit: Option<&str>, current: &F) -> (r: Result<String, SpoutError>)
    requires
        current.requires(()),
    ensures
        match explicit {
            Some(name) => r matches Ok(s) && s@ == name@,
            None => current.ensures((), r),
        },
{
    match explicit {
        Some(name) => Ok(name.to_owned()),
        None => current(),
    }
}

} // verus!
