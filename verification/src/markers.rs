//! Walks from the working directory towards the git root, for the nearest
//! directory below the root holding a compose file — how a monorepo
//! subproject gets its own identity — and for the git root itself.
//!
//! Paths are canonical (the binary canonicalises them); whether a file
//! exists is asked of a probe handed in by the caller.

use vstd::prelude::*;

use crate::compose::{base_names, is_file_says, join_dir, join_path};
use crate::paths::{ancestors, lemma_parent_shorter, parent, parent_of};
use crate::text::{chars_of, str_eq, string_of, sub_chars};

verus! {

/// The probe answered `answer` about `dir` holding a compose file: some
/// compose file name reported a file, or every one reported not one.
pub open spec fn says_marker<F: Fn(&str) -> bool>(is_file: F, dir: Seq<char>, answer: bool) -> bool {
    if answer {
        exists|k: int| 0 <= k < base_names().len() && #[trigger] is_file_says(is_file, join_path(dir, base_names()[k]), true)
    } else {
        forall|k: int| 0 <= k < base_names().len() ==> #[trigger] is_file_says(is_file, join_path(dir, base_names()[k]), false)
    }
}

/// Whether `dir` holds a compose file.
pub fn has_compose_marker<F: Fn(&str) -> bool>(dir: &str, is_file: &F) -> (r: bool)
    requires
        forall|p: &str| is_file.requires((p,)),
    ensures
        says_marker(*is_file, dir@, r),
{
    proof {
        reveal_strlit("docker-compose.yml");
        reveal_strlit("docker-compose.yaml");
        reveal_strlit("compose.yml");
        reveal_strlit("compose.yaml");
    }
    let names: [&str; 4] = ["docker-compose.yml", "docker-compose.yaml", "compose.yml", "compose.yaml"];
    let mut i: usize = 0;
    while i < 4
        invariant
            i <= 4,
            names@ == seq!["docker-compose.yml", "docker-compose.yaml", "compose.yml", "compose.yaml"],
            forall|p: &str| is_file.requires((p,)),
            forall|k: int| 0 <= k < i ==> #[trigger] is_file_says(*is_file, join_path(dir@, base_names()[k]), false),
        decreases 4 - i,
    {
        let c = join_dir(dir, names[i]);
        assert(names@[i as int]@ == base_names()[i as int]);
        let cs = c.as_str();
        if is_file(cs) {
            assert(is_file_says(*is_file, join_path(dir@, base_names()[i as int]), true));
            return true;
        }
        assert(is_file_says(*is_file, join_path(dir@, base_names()[i as int]), false));
        i = i + 1;
    }
    false
}

/// `dir` relative to its ancestor `root`, in POSIX form.
pub open spec fn relative(dir: Seq<char>, root: Seq<char>) -> Seq<char> {
    if root == seq!['/'] {
        dir.subrange(1, dir.len() as int)
    } else {
        dir.subrange(root.len() as int + 1, dir.len() as int)
    }
}

/// `k` is where `root` first occurs among the ancestors of `cwd`.
pub open spec fn root_at(cwd: Seq<char>, root: Seq<char>, k: int) -> bool {
    0 <= k < ancestors(cwd).len() && ancestors(cwd)[k] == root && forall|i: int| 0 <= i < k ==> #[trigger] ancestors(cwd)[i] != root
}

/// What the walk finds: nothing when `root` is not an ancestor of `cwd`;
/// else the nearest directory strictly below `root` reported to hold a
/// compose file (every nearer one reported not to), relative to `root`.
pub open spec fn marker_found<F: Fn(&str) -> bool>(is_file: F, root: Seq<char>, cwd: Seq<char>, r: Option<Seq<char>>) -> bool {
    let anc = ancestors(cwd);
    match r {
        Some(s) => exists|k: int, j: int| #[trigger] root_at(cwd, root, k) && 0 <= j < k && #[trigger] says_marker(is_file, anc[j], true)
            && (forall|i: int| 0 <= i < j ==> #[trigger] says_marker(is_file, anc[i], false))
            && s == relative(anc[j], root),
        None => (forall|k: int| 0 <= k < anc.len() ==> #[trigger] anc[k] != root)
            || exists|k: int| #[trigger] root_at(cwd, root, k) && forall|i: int| 0 <= i < k ==> #[trigger] says_marker(is_file, anc[i], false),
    }
}

/// Each ancestor is strictly shorter than the ones before it.
pub proof fn lemma_ancestors_shrink(s: Seq<char>)
    ensures
        ancestors(s).len() >= 1,
        ancestors(s)[0] == s,
        forall|i: int, j: int| 0 <= i < j < ancestors(s).len() ==> (#[trigger] ancestors(s)[i]).len() > (#[trigger] ancestors(s)[j]).len(),
    decreases s.len(),
{
    lemma_parent_shorter(s);
    match parent(s) {
        Some(p) => {
            if p.len() < s.len() {
                lemma_ancestors_shrink(p);
                let a = ancestors(s);
                let b = ancestors(p);
                assert(a == seq![s] + b);
                assert forall|i: int, j: int| 0 <= i < j < a.len() implies (#[trigger] a[i]).len() > (#[trigger] a[j]).len() by {
                    if i == 0 {
                        assert(a[j] == b[j - 1]);
                        if j - 1 > 0 {
                            assert(b[0].len() > b[j - 1].len());
                        }
                    } else {
                        assert(a[i] == b[i - 1]);
                        assert(a[j] == b[j - 1]);
                    }
                }
            }
        },
        None => {},
    }
}

/// Whether `root` is `cwd` or one of its ancestors.
fn is_ancestor(root: &Vec<char>, cwd: &Vec<char>) -> (r: bool)
    ensures
        r == exists|k: int| 0 <= k < ancestors(cwd@).len() && ancestors(cwd@)[k] == root@,
{
    let mut cur = sub_chars(cwd, 0, cwd.len());
    assert(cwd@.subrange(0, cwd@.len() as int) =~= cwd@);
    let ghost mut done: Seq<Seq<char>> = Seq::empty();
    loop
        invariant
            ancestors(cwd@) == done + ancestors(cur@),
            forall|i: int| 0 <= i < done.len() ==> done[i] != root@,
        decreases cur@.len(),
    {
        let rs = string_of(root);
        let cs = string_of(&cur);
        if str_eq(rs.as_str(), cs.as_str()) {
            proof {
                assert(ancestors(cur@)[0] == cur@) by {
                    lemma_parent_shorter(cur@);
                }
                assert(ancestors(cwd@)[done.len() as int] == root@);
            }
            return true;
        }
        proof {
            lemma_parent_shorter(cur@);
        }
        match parent_of(&cur) {
            Some(p) => {
                proof {
                    assert(ancestors(cur@) == seq![cur@] + ancestors(p@));
                    assert(done + ancestors(cur@) =~= done.push(cur@) + ancestors(p@));
                    done = done.push(cur@);
                }
                cur = p;
            },
            None => {
                proof {
                    assert(ancestors(cur@) == seq![cur@]);
                    let all = done.push(cur@);
                    assert(ancestors(cwd@) =~= all);
                    assert forall|k: int| 0 <= k < ancestors(cwd@).len() implies ancestors(cwd@)[k] != root@ by {
                        if k < done.len() {
                            assert(ancestors(cwd@)[k] == done[k]);
                        }
                    }
                }
                return false;
            },
        }
    }
}

/// The compose-marker subdirectory of `cwd` below `git_root`. Both paths
/// are taken as given; the binary hands in canonical paths (resolved by the
/// file system, so without trailing separators or `.` components).
pub fn compose_marker_subdir<F: Fn(&str) -> bool>(git_root: &str, cwd: &str, is_file: &F) -> (r: Option<String>)
    requires
        forall|p: &str| is_file.requires((p,)),
    ensures
        marker_found(*is_file, git_root@, cwd@, match r {
            Some(s) => Some(s@),
            None => None,
        }),
{
    let root = chars_of(git_root);
    let start = chars_of(cwd);
    if !is_ancestor(&root, &start) {
        return None;
    }
    let ghost anc = ancestors(cwd@);
    let ghost k0 = choose|k: int| 0 <= k < anc.len() && anc[k] == git_root@;
    let mut cur = start;
    let ghost mut done: Seq<Seq<char>> = Seq::empty();
    loop
        invariant
            anc == ancestors(cwd@),
            0 <= k0 < anc.len() && anc[k0] == git_root@,
            root@ == git_root@,
            anc == done + ancestors(cur@),
            forall|i: int| 0 <= i < done.len() ==> done[i] != git_root@,
            forall|i: int| 0 <= i < done.len() ==> #[trigger] says_marker(*is_file, anc[i], false),
            forall|p: &str| is_file.requires((p,)),
        decreases cur@.len(),
    {
        proof {
            lemma_parent_shorter(cur@);
            assert(ancestors(cur@)[0] == cur@);
            assert(anc[done.len() as int] == cur@);
        }
        let cs = string_of(&cur);
        if str_eq(git_root, cs.as_str()) {
            proof {
                assert(root_at(cwd@, git_root@, done.len() as int));
            }
            return None;
        }
        if has_compose_marker(cs.as_str(), is_file) {
            let ghost d = done.len() as int;
            proof {
                lemma_ancestors_shrink(cwd@);
                assert(k0 >= d) by {
                    if k0 < d {
                        assert(anc[k0] == done[k0]);
                    }
                }
                assert(k0 != d);
                assert forall|i: int| 0 <= i < k0 implies #[trigger] ancestors(cwd@)[i] != git_root@ by {
                    assert(anc[i].len() > anc[k0].len());
                }
                assert(root_at(cwd@, git_root@, k0));
                assert(anc[d] == cur@);
                assert(anc[d].len() > anc[k0].len());
                assert(cur@.len() > root@.len());
            }
            assert(root@.len() < cur@.len());
            assert(root.len() < cur.len());
            let from: usize = if root.len() == 1 && root[0] == '/' { 1 } else { root.len() + 1 };
            proof {
                if root@ == seq!['/'] {
                    assert(root@.len() == 1 && root@[0] == '/');
                } else if root@.len() == 1 && root@[0] == '/' {
                    assert(root@ =~= seq!['/']);
                }
            }
            let rel = sub_chars(&cur, from, cur.len());
            let r = string_of(&rel);
            proof {
                assert(says_marker(*is_file, anc[d], true));
                assert(r@ == relative(anc[d], git_root@));
                assert(forall|i: int| 0 <= i < d ==> #[trigger] says_marker(*is_file, anc[i], false));
            }
            return Some(r);
        }
        proof {
            assert(says_marker(*is_file, anc[done.len() as int], false));
        }
        match parent_of(&cur) {
            Some(p) => {
                proof {
                    assert(ancestors(cur@) == seq![cur@] + ancestors(p@));
                    assert(done + ancestors(cur@) =~= done.push(cur@) + ancestors(p@));
                    done = done.push(cur@);
                }
                cur = p;
            },
            None => {
                proof {
                    assert(ancestors(cur@) == seq![cur@]);
                    assert(anc =~= done.push(cur@));
                    assert(anc[k0] == done.push(cur@)[k0]);
                }
                return None;
            },
        }
    }
}


/// What walking up from `start` for a `.git` entry finds: the nearest
/// ancestor the probe reported to hold one (every nearer one reported
/// not to), or nothing when none did.
pub open spec fn git_root_found<F: Fn(&str) -> bool>(path_exists: F, start: Seq<char>, r: Option<Seq<char>>) -> bool {
    let anc = ancestors(start);
    match r {
        Some(s) => exists|j: int| 0 <= j < anc.len() && s == anc[j] && #[trigger] is_file_says(path_exists, join_path(anc[j], ".git"@), true)
            && forall|i: int| 0 <= i < j ==> #[trigger] is_file_says(path_exists, join_path(anc[i], ".git"@), false),
        None => forall|i: int| 0 <= i < anc.len() ==> #[trigger] is_file_says(path_exists, join_path(anc[i], ".git"@), false),
    }
}

/// The nearest directory at or above `start` holding `.git` (a directory
/// or, for worktrees and submodules, a file).
pub fn find_git_root_by_walk<F: Fn(&str) -> bool>(start: &str, path_exists: &F) -> (r: Option<String>)
    requires
        forall|p: &str| path_exists.requires((p,)),
    ensures
        git_root_found(*path_exists, start@, match r {
            Some(s) => Some(s@),
            None => None,
        }),
{
    let ghost anc = ancestors(start@);
    let mut cur = chars_of(start);
    let ghost mut done: Seq<Seq<char>> = Seq::empty();
    loop
        invariant
            anc == ancestors(start@),
            anc == done + ancestors(cur@),
            forall|i: int| 0 <= i < done.len() ==> #[trigger] is_file_says(*path_exists, join_path(anc[i], ".git"@), false),
            forall|p: &str| path_exists.requires((p,)),
        decreases cur@.len(),
    {
        proof {
            lemma_parent_shorter(cur@);
            assert(ancestors(cur@)[0] == cur@);
            assert(anc[done.len() as int] == cur@);
        }
        let dir = string_of(&cur);
        let candidate = join_dir(dir.as_str(), ".git");
        let cs = candidate.as_str();
        if path_exists(cs) {
            assert(is_file_says(*path_exists, join_path(anc[done.len() as int], ".git"@), true));
            return Some(dir);
        }
        assert(is_file_says(*path_exists, join_path(anc[done.len() as int], ".git"@), false));
        match parent_of(&cur) {
            Some(p) => {
                proof {
                    assert(ancestors(cur@) == seq![cur@] + ancestors(p@));
                    assert(done + ancestors(cur@) =~= done.push(cur@) + ancestors(p@));
                    done = done.push(cur@);
                }
                cur = p;
            },
            None => {
                proof {
                    assert(ancestors(cur@) == seq![cur@]);
                    assert(anc =~= done.push(cur@));
                }
                return None;
            },
        }
    }
}

} // verus!
