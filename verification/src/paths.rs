//! Slash-separated paths as plain character sequences.
//!
//! A path's parent is read as `Path::parent` reads it: trailing and
//! repeated separators and `.` components are not components.

use vstd::prelude::*;

verus! {

/// Index of the last `/` in `s`, or -1 when there is none.
pub open spec fn last_slash(s: Seq<char>) -> int
    decreases s.len(),
{
    if s.len() == 0 {
        -1
    } else if s.last() == '/' {
        s.len() - 1
    } else {
        last_slash(s.drop_last())
    }
}

pub proof fn lemma_last_slash(s: Seq<char>)
    ensures
        -1 <= last_slash(s) < s.len(),
        last_slash(s) >= 0 ==> s[last_slash(s)] == '/',
        forall|j: int| last_slash(s) < j < s.len() ==> s[j] != '/',
    decreases s.len(),
{
    if s.len() > 0 && s.last() != '/' {
        lemma_last_slash(s.drop_last());
        assert forall|j: int| last_slash(s) < j < s.len() implies s[j] != '/' by {
            if j < s.len() - 1 {
                assert(s.drop_last()[j] == s[j]);
            }
        }
    }
}

/// `s` without trailing separators and trailing `.` components, as
/// `Path` reads a path's end: a root `/` and a leading `.` stay.
pub open spec fn tail_trim(s: Seq<char>) -> Seq<char>
    decreases s.len(),
{
    if s.len() >= 2 && s.last() == '/' {
        tail_trim(s.drop_last())
    } else if s.len() >= 2 && s.last() == '.' && s[s.len() - 2] == '/' {
        tail_trim(s.drop_last())
    } else {
        s
    }
}

pub proof fn lemma_tail_trim_prefix(s: Seq<char>)
    ensures
        tail_trim(s).len() <= s.len(),
        tail_trim(s) == s.subrange(0, tail_trim(s).len() as int),
        !(tail_trim(s).len() >= 2 && tail_trim(s).last() == '/'),
    decreases s.len(),
{
    if s.len() >= 2 && (s.last() == '/' || (s.last() == '.' && s[s.len() - 2] == '/')) {
        lemma_tail_trim_prefix(s.drop_last());
        let t = tail_trim(s.drop_last());
        assert(s.drop_last().subrange(0, t.len() as int) =~= s.subrange(0, t.len() as int));
    } else {
        assert(s.subrange(0, s.len() as int) =~= s);
    }
}

/// The parent directory, as `Path::parent` gives it: the path up to its
/// last component, without trailing separators or `.` components —
/// `/a/b` and `/a/b/` → `/a`, `/a` → `/`, `a` → the empty path; the root
/// and the empty path have none.
pub open spec fn parent(s: Seq<char>) -> Option<Seq<char>> {
    let t = tail_trim(s);
    if t.len() == 0 || t =~= seq!['/'] {
        None
    } else {
        let i = last_slash(t);
        if i < 0 {
            Some(Seq::empty())
        } else {
            Some(tail_trim(t.subrange(0, i + 1)))
        }
    }
}

/// `s` followed by its parent, its parent's parent, and so on.
pub open spec fn ancestors(s: Seq<char>) -> Seq<Seq<char>>
    decreases s.len(),
{
    match parent(s) {
        Some(p) => if p.len() < s.len() {
            seq![s] + ancestors(p)
        } else {
            seq![s]
        },
        None => seq![s],
    }
}

pub proof fn lemma_parent_shorter(s: Seq<char>)
    ensures
        parent(s) matches Some(p) ==> p.len() < s.len(),
{
    let t = tail_trim(s);
    lemma_tail_trim_prefix(s);
    lemma_last_slash(t);
    let i = last_slash(t);
    if i >= 0 {
        lemma_tail_trim_prefix(t.subrange(0, i + 1));
        if t.len() == 1 {
            assert(t =~= seq!['/']);
        }
    }
}

/// The length `n` with `tail_trim` of the first `k` characters of `s`
/// being the first `n`.
pub(crate) fn trimmed_len(s: &Vec<char>, k: usize) -> (n: usize)
    requires
        k <= s.len(),
    ensures
        n <= k,
        tail_trim(s@.subrange(0, k as int)) == s@.subrange(0, n as int),
{
    let mut n = k;
    loop
        invariant
            n <= k <= s.len(),
            tail_trim(s@.subrange(0, k as int)) == tail_trim(s@.subrange(0, n as int)),
        decreases n,
    {
        let ghost cur = s@.subrange(0, n as int);
        if n >= 2 && (s[n - 1] == '/' || (s[n - 1] == '.' && s[n - 2] == '/')) {
            assert(cur.drop_last() =~= s@.subrange(0, n - 1));
            n = n - 1;
        } else {
            return n;
        }
    }
}

/// The parent directory of `s`.
pub fn parent_of(s: &Vec<char>) -> (r: Option<Vec<char>>)
    ensures
        match r {
            Some(p) => parent(s@) == Some(p@),
            None => parent(s@) is None,
        },
{
    let n = trimmed_len(s, s.len());
    let ghost t = s@.subrange(0, n as int);
    assert(s@.subrange(0, s.len() as int) =~= s@);
    if n == 0 {
        return None;
    }
    if n == 1 && s[0] == '/' {
        assert(t =~= seq!['/']);
        return None;
    }
    assert(!(t =~= seq!['/'])) by {
        if t =~= seq!['/'] {
            assert(t[0] == s@[0]);
        }
    }
    proof {
        lemma_last_slash(t);
    }
    let mut i: usize = n;
    while i > 0 && s[i - 1] != '/'
        invariant
            i <= n <= s.len(),
            t == s@.subrange(0, n as int),
            forall|j: int| i <= j < n ==> s@[j] != '/',
        decreases i,
    {
        i = i - 1;
    }
    proof {
        assert(last_slash(t) == i - 1) by {
            if last_slash(t) != i - 1 {
                if last_slash(t) >= i {
                    assert(t[last_slash(t)] == s@[last_slash(t)]);
                } else {
                    assert(t[i - 1] == s@[i - 1]);
                }
            }
        }
    }
    if i == 0 {
        return Some(Vec::new());
    }
    let m = trimmed_len(s, i);
    proof {
        assert(t.subrange(0, i as int) =~= s@.subrange(0, i as int));
    }
    let mut v = Vec::new();
    let mut k: usize = 0;
    while k < m
        invariant
            k <= m <= i <= s.len(),
            v@ == s@.subrange(0, k as int),
        decreases m - k,
    {
        v.push(s[k]);
        k = k + 1;
        assert(v@ =~= s@.subrange(0, k as int));
    }
    Some(v)
}

} // verus!
