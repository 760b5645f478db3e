//! Registry schema — projects, their services' port entries, and the
//! history of released ports — with every operation that changes it.

use vstd::prelude::*;

use crate::date::{is_clock_date, today_iso};
use crate::error::SpoutError;
use crate::protocol::Protocol;
use crate::paths::{ancestors, lemma_parent_shorter, parent_of};
use crate::strmap::StrMap;
use crate::text::{chars_lt, chars_of, lemma_lex_asymmetric, lemma_lex_transitive, lex_lt, str_eq, string_of};

verus! {

/// The on-disk schema version written by this library.
pub const CURRENT_VERSION: u32 = 2;

/// A live registration.
#[derive(Debug, Clone, PartialEq, Eq)]
pub struct Entry {
    pub port: u16,
    pub allocated: String,
    pub protocol: Protocol,
}

/// A released registration.
#[derive(Debug, Clone, PartialEq, Eq)]
pub struct HistoryEntry {
    pub project: String,
    pub service: String,
    pub port: u16,
    pub allocated: String,
    pub released: String,
    pub reason: String,
    pub protocol: Protocol,
}

/// Membership in `m`, as a predicate.
pub open spec fn held_by(m: ServiceMap) -> spec_fn(Seq<char>) -> bool {
    |k: Seq<char>| m.has(k)
}

/// The services of `src` that `tgt` also holds, in name order.
pub open spec fn shared_keys(src: ServiceMap, tgt: ServiceMap) -> Seq<Seq<char>> {
    src.keys().filter(held_by(tgt))
}

/// Views of a sequence of strings.
pub open spec fn string_views(v: Seq<String>) -> Seq<Seq<char>> {
    v.map_values(|x: String| x@)
}

/// Stable insertion of `h` into a list already ordered most-recent-first:
/// it goes after every entry released on or after its own date.
pub open spec fn insert_recent_first(sorted: Seq<HistoryEntry>, h: HistoryEntry) -> Seq<HistoryEntry>
    decreases sorted.len(),
{
    if sorted.len() == 0 {
        seq![h]
    } else if lex_lt(sorted[0].released@, h.released@) {
        seq![h] + sorted
    } else {
        seq![sorted[0]] + insert_recent_first(sorted.drop_first(), h)
    }
}

/// `s` stably sorted by `released`, most recent first.
pub open spec fn recent_first(s: Seq<HistoryEntry>) -> Seq<HistoryEntry>
    decreases s.len(),
{
    if s.len() == 0 {
        s
    } else {
        insert_recent_first(recent_first(s.drop_last()), s.last())
    }
}

/// The entries a vector of references points at.
pub open spec fn derefs(v: Seq<&HistoryEntry>) -> Seq<HistoryEntry> {
    v.map_values(|h: &HistoryEntry| *h)
}

/// `s` runs from the most recent release to the oldest.
pub open spec fn released_desc(s: Seq<HistoryEntry>) -> bool {
    forall|i: int, j: int| 0 <= i < j < s.len() ==> !lex_lt(#[trigger] s[i].released@, #[trigger] s[j].released@)
}

/// Inserting `h` adds exactly `h`, and keeps a most-recent-first list in
/// that order.
pub proof fn lemma_insert_recent_first(sorted: Seq<HistoryEntry>, h: HistoryEntry)
    ensures
        insert_recent_first(sorted, h).to_multiset() =~= sorted.to_multiset().insert(h),
        insert_recent_first(sorted, h).len() == sorted.len() + 1,
        forall|k: int| 0 <= k < insert_recent_first(sorted, h).len() ==> (#[trigger] insert_recent_first(sorted, h)[k] == h
            || sorted.contains(insert_recent_first(sorted, h)[k])),
        released_desc(sorted) ==> released_desc(insert_recent_first(sorted, h)),
    decreases sorted.len(),
{
    broadcast use vstd::seq_lib::group_to_multiset_ensures;
    let r = insert_recent_first(sorted, h);
    if sorted.len() == 0 {
        assert(r =~= Seq::<HistoryEntry>::empty().push(h));
    } else if lex_lt(sorted[0].released@, h.released@) {
        assert(r =~= sorted.insert(0, h));
        vstd::seq_lib::to_multiset_insert(sorted, 0, h);
        assert forall|k: int| 0 <= k < r.len() implies (#[trigger] r[k] == h || sorted.contains(r[k])) by {
            if k > 0 {
                assert(r[k] == sorted[k - 1]);
            }
        }
        if released_desc(sorted) {
            assert forall|i: int, j: int| 0 <= i < j < r.len() implies !lex_lt(#[trigger] r[i].released@, #[trigger] r[j].released@) by {
                if i == 0 {
                    assert(r[j] == sorted[j - 1]);
                    if lex_lt(h.released@, sorted[j - 1].released@) {
                        lemma_lex_transitive(sorted[0].released@, h.released@, sorted[j - 1].released@);
                        if j - 1 == 0 {
                            lemma_lex_asymmetric(sorted[0].released@, sorted[0].released@);
                        }
                    }
                } else {
                    assert(r[i] == sorted[i - 1] && r[j] == sorted[j - 1]);
                }
            }
        }
    } else {
        let rest = sorted.drop_first();
        lemma_insert_recent_first(rest, h);
        let t = insert_recent_first(rest, h);
        assert(r =~= t.insert(0, sorted[0]));
        assert(sorted =~= rest.insert(0, sorted[0]));
        vstd::seq_lib::to_multiset_insert(t, 0, sorted[0]);
        vstd::seq_lib::to_multiset_insert(rest, 0, sorted[0]);
        assert forall|k: int| 0 <= k < r.len() implies (#[trigger] r[k] == h || sorted.contains(r[k])) by {
            if k == 0 {
                assert(sorted[0] == r[0]);
            } else {
                assert(r[k] == t[k - 1]);
                if t[k - 1] != h {
                    let m = choose|m: int| 0 <= m < rest.len() && rest[m] == t[k - 1];
                    assert(sorted[m + 1] == rest[m]);
                }
            }
        }
        if released_desc(sorted) {
            assert(released_desc(rest)) by {
                assert forall|i: int, j: int| 0 <= i < j < rest.len() implies !lex_lt(#[trigger] rest[i].released@, #[trigger] rest[j].released@) by {
                    assert(rest[i] == sorted[i + 1] && rest[j] == sorted[j + 1]);
                }
            }
            assert forall|i: int, j: int| 0 <= i < j < r.len() implies !lex_lt(#[trigger] r[i].released@, #[trigger] r[j].released@) by {
                if i == 0 {
                    assert(r[j] == t[j - 1]);
                    if t[j - 1] != h {
                        let m = choose|m: int| 0 <= m < rest.len() && rest[m] == t[j - 1];
                        assert(sorted[m + 1] == rest[m]);
                    }
                } else {
                    assert(r[i] == t[i - 1] && r[j] == t[j - 1]);
                }
            }
        }
    }
}

/// `recent_first` reorders `s` and nothing more, most recent release
/// first.
pub proof fn lemma_recent_first(s: Seq<HistoryEntry>)
    ensures
        recent_first(s).to_multiset() =~= s.to_multiset(),
        recent_first(s).len() == s.len(),
        released_desc(recent_first(s)),
    decreases s.len(),
{
    broadcast use vstd::seq_lib::group_to_multiset_ensures;
    if s.len() > 0 {
        lemma_recent_first(s.drop_last());
        lemma_insert_recent_first(recent_first(s.drop_last()), s.last());
        assert(s =~= s.drop_last().push(s.last()));
    }
}

proof fn lemma_insert_at(sorted: Seq<HistoryEntry>, h: HistoryEntry, k: int)
    requires
        0 <= k <= sorted.len(),
        forall|j: int| 0 <= j < k ==> !lex_lt(#[trigger] sorted[j].released@, h.released@),
        k < sorted.len() ==> lex_lt(sorted[k].released@, h.released@),
    ensures
        insert_recent_first(sorted, h) == sorted.insert(k, h),
    decreases k,
{
    if k == 0 {
        if sorted.len() == 0 {
            assert(sorted.insert(0, h) =~= seq![h]);
        } else {
            assert(sorted.insert(0, h) =~= seq![h] + sorted);
        }
    } else {
        let rest = sorted.drop_first();
        assert forall|j: int| 0 <= j < k - 1 implies !lex_lt(#[trigger] rest[j].released@, h.released@) by {
            assert(rest[j] == sorted[j + 1]);
        }
        lemma_insert_at(rest, h, k - 1);
        assert(sorted.insert(k, h) =~= seq![sorted[0]] + rest.insert(k - 1, h));
    }
}

/// Inserts `h` into `v` (ordered most-recent-first) after every entry
/// released on or after its date.
fn insert_by_released<'a>(v: &mut Vec<&'a HistoryEntry>, h: &'a HistoryEntry)
    ensures
        derefs(final(v)@) == insert_recent_first(derefs(old(v)@), *h),
{
    let ghost s = derefs(v@);
    let hc = chars_of(h.released.as_str());
    let mut k: usize = 0;
    let mut found = false;
    while k < v.len() && !found
        invariant
            k <= v.len(),
            s == derefs(v@),
            hc@ == h.released@,
            found ==> k < v.len() && lex_lt(s[k as int].released@, h.released@),
            forall|j: int| 0 <= j < k ==> !lex_lt(#[trigger] s[j].released@, h.released@),
        decreases v.len() - k + (if found { 0int } else { 1int }),
    {
        let kc = chars_of(v[k].released.as_str());
        if chars_lt(&kc, &hc) {
            found = true;
        } else {
            k = k + 1;
        }
    }
    proof {
        lemma_insert_at(s, *h, k as int);
    }
    v.insert(k, h);
    proof {
        assert(derefs(v@) =~= s.insert(k as int, *h));
    }
}

/// Service name → entry.
pub type ServiceMap = StrMap<Entry>;

/// Project identity → its services.
pub type ProjectMap = StrMap<ServiceMap>;

#[derive(Debug)]
pub struct Registry {
    pub version: u32,
    pub projects: ProjectMap,
    pub history: Vec<HistoryEntry>,
}

/// `h` records the release of `e`, registered as `project`/`service`, on
/// `released` for `reason`.
pub open spec fn is_record(
    h: HistoryEntry,
    project: Seq<char>,
    service: Seq<char>,
    e: Entry,
    released: Seq<char>,
    reason: Seq<char>,
) -> bool {
    &&& h.project@ == project
    &&& h.service@ == service
    &&& h.port == e.port
    &&& h.allocated@ == e.allocated@
    &&& h.released@ == released
    &&& h.reason@ == reason
    &&& h.protocol == e.protocol
}

impl Entry {
    /// A copy of the entry.
    pub fn duplicate(&self) -> (r: Entry)
        ensures
            r == *self,
    {
        Entry { port: self.port, allocated: self.allocated.clone(), protocol: self.protocol }
    }
}

fn history_of(project: &str, service: &str, entry: Entry, reason: &str, released: &str) -> (h:
    HistoryEntry)
    ensures
        is_record(h, project@, service@, entry, released@, reason@),
{
    HistoryEntry {
        project: project.to_owned(),
        service: service.to_owned(),
        port: entry.port,
        allocated: entry.allocated,
        released: released.to_owned(),
        reason: reason.to_owned(),
        protocol: entry.protocol,
    }
}

impl Registry {
    /// The entry of `s` in project `p`, if any.
    pub open spec fn entry_of(self, p: Seq<char>, s: Seq<char>) -> Option<Entry> {
        match self.projects.lookup(p) {
            Some(m) => m.lookup(s),
            None => None,
        }
    }

    pub open spec fn port_of(self, p: Seq<char>, s: Seq<char>) -> Option<u16> {
        match self.entry_of(p, s) {
            Some(e) => Some(e.port),
            None => None,
        }
    }

    /// Every registration other than `p`/`s` is as in `other`, and both hold
    /// the same set of projects except possibly `p`.
    pub open spec fn same_except(self, other: Registry, p: Seq<char>, s: Seq<char>) -> bool {
        forall|q: Seq<char>, t: Seq<char>| !(q == p && t == s) ==> #[trigger] self.entry_of(q, t) == other.entry_of(q, t)
    }

    /// Whether some live entry holds `port` on `protocol`.
    pub open spec fn claims(self, port: u16, protocol: Protocol) -> bool {
        exists|p: Seq<char>, s: Seq<char>| #[trigger] self.entry_of(p, s) matches Some(e) && e.port == port && e.protocol == protocol
    }

    pub fn new() -> (r: Registry)
        ensures
            r.version == CURRENT_VERSION,
            forall|p: Seq<char>| !r.projects.has(p),
            r.history@.len() == 0,
    {
        Registry { version: CURRENT_VERSION, projects: StrMap::new(), history: Vec::new() }
    }

    /// The port registered for `service` in `project`.
    pub fn get(&self, project: &str, service: &str) -> (r: Option<u16>)
        ensures
            r == self.port_of(project@, service@),
    {
        match self.projects.get(project) {
            Some(services) => match services.get(service) {
                Some(e) => Some(e.port),
                None => None,
            },
            None => None,
        }
    }

    /// `after` is `before` with `port`/`protocol` registered for `s` in `p`,
    /// allocated on a clock date.
    pub open spec fn set_post(before: Registry, after: Registry, p: Seq<char>, s: Seq<char>, port: u16, protocol: Protocol) -> bool {
        &&& after.version == before.version
        &&& after.history@ == before.history@
        &&& after.entry_of(p, s) matches Some(e) && e.port == port && e.protocol == protocol && is_clock_date(e.allocated@)
        &&& after.same_except(before, p, s)
        &&& forall|q: Seq<char>| #[trigger] after.projects.has(q) <==> (q == p || before.projects.has(q))
    }

    /// Registers `port`/`protocol` for `service` in `project`, allocated today.
    pub fn set(&mut self, project: &str, service: &str, port: u16, protocol: Protocol)
        ensures
            Registry::set_post(*old(self), *final(self), project@, service@, port, protocol),
    {
        let allocated = today_iso();
        let entry = Entry { port, allocated, protocol };
        let ghost e = entry;
        let mut services = match self.projects.remove(project) {
            Some(m) => m,
            None => StrMap::new(),
        };
        let ghost before = services;
        services.insert(service.to_owned(), entry);
        let ghost after = services;
        self.projects.insert(project.to_owned(), services);
        proof {
            assert forall|q: Seq<char>, t: Seq<char>| !(q == project@ && t == service@) implies #[trigger] self.entry_of(q, t) == old(self).entry_of(q, t) by {
                if q == project@ {
                    assert(self.projects.lookup(q) == Some(after));
                }
            }
        }
    }
    /// Removes `service` from `project`, recording the release in the
    /// history with `reason`. Returns the port that was removed, or `None`
    /// (and changes nothing) when it was not registered. A project left
    /// without services is dropped.
    /// `after` is `before` once `s` is removed from `p` for `reason`, the
    /// removal answering `r`: nothing changes when it was not registered;
    /// else it is gone, its release is recorded last in the history (dated
    /// on a clock date) and a project left without services is dropped.
    pub open spec fn remove_post(before: Registry, after: Registry, p: Seq<char>, s: Seq<char>, reason: Seq<char>, r: Option<u16>) -> bool {
        &&& r == before.port_of(p, s)
        &&& after.version == before.version
        &&& r is None ==> {
            &&& after.history@ == before.history@
            &&& forall|q: Seq<char>, t: Seq<char>| #[trigger] after.entry_of(q, t) == before.entry_of(q, t)
            &&& forall|q: Seq<char>| #[trigger] after.projects.has(q) == before.projects.has(q)
        }
        &&& r is Some ==> {
            &&& after.entry_of(p, s) is None
            &&& after.same_except(before, p, s)
            &&& forall|q: Seq<char>| q != p ==> (#[trigger] after.projects.has(q) == before.projects.has(q))
            &&& after.projects.has(p) == (exists|t: Seq<char>| t != s && (#[trigger] before.entry_of(p, t)) is Some)
            &&& after.history@.len() == before.history@.len() + 1
            &&& after.history@.drop_last() == before.history@
            &&& is_clock_date(after.history@.last().released@)
            &&& is_record(after.history@.last(), p, s, before.entry_of(p, s)->0, after.history@.last().released@, reason)
        }
    }

    pub fn remove(&mut self, project: &str, service: &str, reason: &str) -> (r: Option<u16>)
        ensures
            Registry::remove_post(*old(self), *final(self), project@, service@, reason@, r),
    {
        let mut services = match self.projects.remove(project) {
            Some(m) => m,
            None => return None,
        };
        let ghost before = services;
        match services.remove(service) {
            None => {
                self.projects.insert(project.to_owned(), services);
                proof {
                    assert forall|q: Seq<char>, t: Seq<char>| #[trigger] self.entry_of(q, t) == old(self).entry_of(q, t) by {
                        if q == project@ {
                            assert(self.projects.lookup(q) == Some(services));
                        }
                    }
                }
                None
            },
            Some(entry) => {
                let ghost after = services;
                let keep = !services.is_empty();
                if keep {
                    self.projects.insert(project.to_owned(), services);
                }
                let released = today_iso();
                let port = entry.port;
                let ghost e = entry;
                self.history.push(history_of(project, service, entry, reason, released.as_str()));
                proof {
                    assert(self.history@.drop_last() =~= old(self).history@);
                    assert forall|q: Seq<char>, t: Seq<char>| !(q == project@ && t == service@) implies #[trigger] self.entry_of(q, t) == old(self).entry_of(q, t) by {
                        if q == project@ {
                            if keep {
                                assert(self.projects.lookup(q) == Some(after));
                            } else {
                                if before.has(t) {
                                    let i = choose|i: int| 0 <= i < before.items().len() && #[trigger] before.items()[i].0@ == t;
                                    assert(after.has(t));
                                    assert(after.items().len() > 0) by {
                                        let j = choose|j: int| 0 <= j < after.items().len() && #[trigger] after.items()[j].0@ == t;
                                    }
                                }
                            }
                        }
                    }
                    if keep {
                        let t0 = after.items()[0].0@;
                        assert(after.has(t0));
                        assert(old(self).entry_of(project@, t0) is Some);
                    } else {
                        assert forall|t: Seq<char>| t != service@ implies (#[trigger] old(self).entry_of(project@, t)) is None by {
                            if before.has(t) {
                                assert(after.has(t));
                                let j = choose|j: int| 0 <= j < after.items().len() && #[trigger] after.items()[j].0@ == t;
                            }
                        }
                    }
                }
                Some(port)
            },
        }
    }
    /// Removes every service of `project`, recording each release in the
    /// history (in service-name order, all released today) with `reason`.
    /// Returns how many were removed; 0 when the project is absent.
    pub fn remove_project(&mut self, project: &str, reason: &str) -> (r: usize)
        ensures
            final(self).version == old(self).version,
            forall|q: Seq<char>| #[trigger] final(self).projects.has(q) == (q != project@ && old(self).projects.has(q)),
            forall|q: Seq<char>, t: Seq<char>| q != project@ ==> #[trigger] final(self).entry_of(q, t) == old(self).entry_of(q, t),
            match old(self).projects.lookup(project@) {
                None => r == 0 && final(self).history@ == old(self).history@,
                Some(m) => {
                    &&& r == m.items().len()
                    &&& final(self).history@.len() == old(self).history@.len() + r
                    &&& final(self).history@.subrange(0, old(self).history@.len() as int) == old(self).history@
                    &&& r > 0 ==> is_clock_date(final(self).history@[old(self).history@.len() as int].released@)
                    &&& forall|i: int| 0 <= i < r ==> is_record(
                        #[trigger] final(self).history@[old(self).history@.len() + i],
                        project@,
                        m.items()[i].0@,
                        m.items()[i].1,
                        final(self).history@[old(self).history@.len() as int].released@,
                        reason@,
                    )
                },
            },
    {
        let services = match self.projects.remove(project) {
            Some(m) => m,
            None => return 0,
        };
        let ghost m = services;
        let count = services.len();
        let released = today_iso();
        let es = services.into_entries();
        let ghost base = self.history@.len();
        let mut i: usize = 0;
        while i < es.len()
            invariant
                es@ == m.items(),
                count == es@.len(),
                i <= es@.len(),
                is_clock_date(released@),
                base == old(self).history@.len(),
                self.history@.len() == base + i,
                self.history@.subrange(0, base as int) == old(self).history@,
                forall|j: int| 0 <= j < i ==> is_record(#[trigger] self.history@[base + j], project@, m.items()[j].0@, m.items()[j].1, released@, reason@),
                self.version == old(self).version,
                forall|q: Seq<char>| #[trigger] self.projects.lookup(q) == (if q == project@ { None } else { old(self).projects.lookup(q) }),
                forall|q: Seq<char>| #[trigger] self.projects.has(q) == (q != project@ && old(self).projects.has(q)),
            decreases es@.len() - i,
        {
            let h = history_of(project, es[i].0.as_str(), es[i].1.duplicate(), reason, released.as_str());
            self.history.push(h);
            proof {
                assert(self.history@.subrange(0, base as int) =~= old(self).history@);
            }
            i = i + 1;
        }
        proof {
            assert forall|q: Seq<char>, t: Seq<char>| q != project@ implies #[trigger] self.entry_of(q, t) == old(self).entry_of(q, t) by {
                assert(self.projects.lookup(q) == old(self).projects.lookup(q));
            }
            if count > 0 {
                assert(is_record(self.history@[base as int + 0], project@, m.items()[0].0@, m.items()[0].1, released@, reason@));
                assert(self.history@[base as int].released@ == released@);
            }
            assert(old(self).projects.lookup(project@) == Some(m));
        }
        count
    }
    /// Moves every service from project identity `from` to `to`, recording
    /// a `reprojected to <to>` release for each (in service-name order, all
    /// released today). Fails, changing nothing, with the services that
    /// exist under both identities (in name order).
    /// `after` and `r` are what moving every service of `from` to `to`
    /// gives from `before`: a conflict (services under both identities)
    /// changes nothing; else every service moves, each release recorded as
    /// `reprojected to <to>`.
    pub open spec fn reproject_post(before: Registry, after: Registry, from: Seq<char>, to: Seq<char>, r: Result<usize, Vec<String>>) -> bool {
        &&& after.version == before.version
        &&& ({
            let src = before.projects.lookup(from);
            let tgt = before.projects.lookup(to);
            let conflict = src is Some && tgt is Some && shared_keys(src->0, tgt->0).len() > 0;
            match r {
                Err(c) => {
                    &&& conflict
                    &&& string_views(c@) == shared_keys(src->0, tgt->0)
                    &&& after.history@ == before.history@
                    &&& forall|q: Seq<char>| #[trigger] after.projects.lookup(q) == before.projects.lookup(q)
                },
                Ok(n) => {
                    &&& !conflict
                    &&& match src {
                        None => {
                            &&& n == 0
                            &&& after.history@ == before.history@
                            &&& forall|q: Seq<char>| #[trigger] after.projects.lookup(q) == before.projects.lookup(q)
                        },
                        Some(m) => {
                            &&& n == m.items().len()
                            &&& forall|q: Seq<char>| #[trigger] after.projects.has(q)
                                == ((q != from && before.projects.has(q)) || (q == to && n > 0))
                            &&& forall|q: Seq<char>, t: Seq<char>| q != from && q != to
                                ==> #[trigger] after.entry_of(q, t) == before.entry_of(q, t)
                            &&& n > 0 ==> from != to
                            &&& forall|t: Seq<char>| (#[trigger] after.entry_of(from, t)) is None
                            &&& forall|t: Seq<char>| #[trigger] after.entry_of(to, t)
                                == (if m.has(t) { m.lookup(t) } else { before.entry_of(to, t) })
                            &&& after.history@.len() == before.history@.len() + n
                            &&& after.history@.subrange(0, before.history@.len() as int) == before.history@
                            &&& n > 0 ==> is_clock_date(after.history@[before.history@.len() as int].released@)
                            &&& forall|i: int| 0 <= i < n ==> is_record(
                                #[trigger] after.history@[before.history@.len() + i],
                                from,
                                m.items()[i].0@,
                                m.items()[i].1,
                                after.history@[before.history@.len() as int].released@,
                                "reprojected to "@ + to,
                            )
                        },
                    }
                },
            }
        })
    }

    pub fn reproject(&mut self, from: &str, to: &str) -> (r: Result<usize, Vec<String>>)
        ensures
            Registry::reproject_post(*old(self), *final(self), from@, to@, r),
    {
        match (self.projects.get(from), self.projects.get(to)) {
            (Some(src), Some(tgt)) => {
                let es = src.entries();
                let mut conflicts: Vec<String> = Vec::new();
                let mut i: usize = 0;
                while i < es.len()
                    invariant
                        es@ == src.items(),
                        i <= es@.len(),
                        string_views(conflicts@) == src.keys().take(i as int).filter(held_by(*tgt)),
                    decreases es@.len() - i,
                {
                    proof {
                        assert(src.keys().take(i as int + 1).drop_last() =~= src.keys().take(i as int));
                    }
                    let ghost prev = conflicts@;
                    let ghost k = src.keys()[i as int];
                    if tgt.contains_key(es[i].0.as_str()) {
                        conflicts.push(es[i].0.clone());
                    }
                    proof {
                        reveal(Seq::filter);
                        let t1 = src.keys().take(i as int + 1);
                        let f = held_by(*tgt);
                        assert(t1.drop_last() =~= src.keys().take(i as int));
                        assert(t1.last() == k);
                        assert(f(k) == tgt.has(k));
                        assert(t1.filter(f) == (if f(t1.last()) { t1.drop_last().filter(f).push(t1.last()) } else { t1.drop_last().filter(f) }));
                        assert(k == es@[i as int].0@);
                        if tgt.has(k) {
                            assert(string_views(conflicts@) =~= string_views(prev).push(k));
                        } else {
                            assert(string_views(conflicts@) =~= string_views(prev));
                        }
                    }
                    i = i + 1;
                }
                proof {
                    assert(src.keys().take(es@.len() as int) =~= src.keys());
                }
                if conflicts.len() > 0 {
                    return Err(conflicts);
                }
            },
            _ => {},
        }
        let services = match self.projects.remove(from) {
            Some(m) => m,
            None => return Ok(0),
        };
        proof {
            use_type_invariant(&services);
        }
        let ghost m = services;
        let count = services.len();
        if count == 0 {
            proof {
                assert(old(self).projects.lookup(from@) == Some(m));
                assert forall|q: Seq<char>, t: Seq<char>| q != from@ && q != to@ implies #[trigger] self.entry_of(q, t) == old(self).entry_of(q, t) by {
                    assert(self.projects.lookup(q) == old(self).projects.lookup(q));
                }
                assert forall|t: Seq<char>| (#[trigger] self.entry_of(from@, t)) is None by {
                    assert(self.projects.lookup(from@) is None);
                }
                assert forall|t: Seq<char>| #[trigger] self.entry_of(to@, t)
                    == (if m.has(t) { m.lookup(t) } else { old(self).entry_of(to@, t) }) by {
                    assert(!m.has(t));
                    if to@ != from@ {
                        assert(self.projects.lookup(to@) == old(self).projects.lookup(to@));
                    } else {
                        assert(self.projects.lookup(from@) is None);
                        assert(old(self).entry_of(to@, t) == m.lookup(t));
                    }
                }
                assert(self.history@.subrange(0, old(self).history@.len() as int) =~= old(self).history@);
            }
            return Ok(0);
        }
        let released = today_iso();
        let mut reason = String::new();
        proof {
            reveal_strlit("reprojected to ");
        }
        reason.append("reprojected to ");
        reason.append(to);
        let es = services.into_entries();
        let ghost base = self.history@.len();
        let ghost old_to = old(self).projects.lookup(to@);
        proof {
            assert(from@ != to@) by {
                if from@ == to@ {
                    let k = m.keys()[0];
                    assert(m.has(k)) by {
                        assert(m.items()[0].0@ == k);
                    }
                    let f = held_by(m);
                    m.keys().lemma_filter_contains_rev(f, k);
                    assert(m.keys().contains(k)) by {
                        assert(m.keys()[0] == k);
                    }
                    m.keys().filter(f).lemma_filter_len(f);
                    assert(shared_keys(m, m).contains(k));
                }
            }
        }
        let mut i: usize = 0;
        while i < es.len()
            invariant
                es@ == m.items(),
                m.wf(),
                count == es@.len(),
                count > 0,
                from@ != to@,
                i <= es@.len(),
                is_clock_date(released@),
                reason@ == "reprojected to "@ + to@,
                base == old(self).history@.len(),
                old_to == old(self).projects.lookup(to@),
                self.version == old(self).version,
                self.history@.len() == base + i,
                self.history@.subrange(0, base as int) == old(self).history@,
                forall|j: int| 0 <= j < i ==> is_record(#[trigger] self.history@[base + j], from@, m.items()[j].0@, m.items()[j].1, released@, reason@),
                forall|q: Seq<char>| q != from@ && q != to@ ==> #[trigger] self.projects.lookup(q) == old(self).projects.lookup(q),
                self.projects.lookup(from@) is None,
                forall|q: Seq<char>| #[trigger] self.projects.has(q) == ((q != from@ && old(self).projects.has(q)) || (q == to@ && i > 0)),
                forall|t: Seq<char>| #[trigger] self.entry_of(to@, t) == (if m.keys().take(i as int).contains(t) { m.lookup(t) } else { old(self).entry_of(to@, t) }),
            decreases es@.len() - i,
        {
            let ghost pre_self = *self;
            let h = history_of(from, es[i].0.as_str(), es[i].1.duplicate(), reason.as_str(), released.as_str());
            self.history.push(h);
            assert(self.projects == pre_self.projects);
            let ghost pre_to = self.projects.lookup(to@);
            let mut tmap = match self.projects.remove(to) {
                Some(t) => t,
                None => StrMap::new(),
            };
            let ghost tbefore = tmap;
            tmap.insert(es[i].0.clone(), es[i].1.duplicate());
            let ghost tafter = tmap;
            self.projects.insert(to.to_owned(), tmap);
            proof {
                assert(self.history@.subrange(0, base as int) =~= old(self).history@);
                m.lemma_lookup_at(i as int);
                assert(m.keys()[i as int] == es@[i as int].0@);
                assert(m.keys().take(i as int + 1) =~= m.keys().take(i as int).push(m.keys()[i as int]));
                assert forall|t: Seq<char>| #[trigger] self.entry_of(to@, t) == (if m.keys().take(i as int + 1).contains(t) { m.lookup(t) } else { old(self).entry_of(to@, t) }) by {
                    assert(self.projects.lookup(to@) == Some(tafter));
                    if t == es@[i as int].0@ {
                        assert(m.keys().take(i as int + 1)[i as int] == t);
                        assert(m.keys().take(i as int + 1).contains(t));
                        assert(tafter.lookup(t) == Some(m.items()[i as int].1));
                        assert(m.lookup(t) == Some(m.items()[i as int].1));
                    } else {
                        assert(tafter.lookup(t) == tbefore.lookup(t));
                        assert(tbefore.lookup(t) == pre_self.entry_of(to@, t));
                        assert(pre_self.entry_of(to@, t) == (if m.keys().take(i as int).contains(t) { m.lookup(t) } else { old(self).entry_of(to@, t) }));
                        assert(m.keys().take(i as int + 1).contains(t) == m.keys().take(i as int).contains(t));
                        if m.keys().take(i as int + 1).contains(t) {
                            let k = choose|k: int| 0 <= k < i + 1 && #[trigger] m.keys().take(i as int + 1)[k] == t;
                            assert(m.keys().take(i as int)[k] == t);
                        }
                        if m.keys().take(i as int).contains(t) {
                            let k = choose|k: int| 0 <= k < i && #[trigger] m.keys().take(i as int)[k] == t;
                            assert(m.keys().take(i as int + 1)[k] == t);
                        }
                    }
                }
            }
            i = i + 1;
        }
        proof {
            assert(m.keys().take(count as int) =~= m.keys());
            assert forall|t: Seq<char>| #[trigger] self.entry_of(to@, t) == (if m.has(t) { m.lookup(t) } else { old(self).entry_of(to@, t) }) by {
                if m.has(t) {
                    let k = choose|k: int| 0 <= k < m.items().len() && #[trigger] m.items()[k].0@ == t;
                    assert(m.keys()[k] == t);
                } else {
                    if m.keys().contains(t) {
                        let k = choose|k: int| 0 <= k < m.keys().len() && #[trigger] m.keys()[k] == t;
                        assert(m.items()[k].0@ == t);
                    }
                }
            }
            assert forall|q: Seq<char>, t: Seq<char>| q != from@ && q != to@ implies #[trigger] self.entry_of(q, t) == old(self).entry_of(q, t) by {
                assert(self.projects.lookup(q) == old(self).projects.lookup(q));
            }
            assert(is_record(self.history@[base as int + 0], from@, m.items()[0].0@, m.items()[0].1, released@, reason@));
            assert(self.history@[base as int].released@ == released@);
        }
        Ok(count)
    }

    /// The `b`-th service of the `a`-th project (in name order) holds
    /// `port` on `protocol`, and no service before it does.
    pub open spec fn first_claim_at(self, port: u16, protocol: Protocol, a: int, b: int) -> bool {
        let ps = self.projects.items();
        &&& 0 <= a < ps.len()
        &&& 0 <= b < ps[a].1.items().len()
        &&& ps[a].1.items()[b].1.port == port && ps[a].1.items()[b].1.protocol == protocol
        &&& ps[a].1.lookup(ps[a].1.items()[b].0@) == Some(ps[a].1.items()[b].1)
        &&& forall|a2: int, t: Seq<char>| 0 <= a2 < a ==> !(#[trigger] ps[a2].1.lookup(t) matches Some(e) && e.port == port && e.protocol == protocol)
        &&& forall|b2: int| 0 <= b2 < b ==> !((#[trigger] ps[a].1.items()[b2]).1.port == port && ps[a].1.items()[b2].1.protocol == protocol)
    }

    /// At most one project holds the first claim of a port.
    pub proof fn lemma_first_claim_unique(self, port: u16, protocol: Protocol, a: int, b: int, a2: int, b2: int)
        requires
            self.first_claim_at(port, protocol, a, b),
            self.first_claim_at(port, protocol, a2, b2),
        ensures
            a == a2,
    {
        let ps = self.projects.items();
        if a < a2 {
            assert(ps[a].1.lookup(ps[a].1.items()[b].0@) == Some(ps[a].1.items()[b].1));
        } else if a2 < a {
            assert(ps[a2].1.lookup(ps[a2].1.items()[b2].0@) == Some(ps[a2].1.items()[b2].1));
        }
    }

    /// A first claim is a claim.
    pub proof fn lemma_first_claim_claims(self, port: u16, protocol: Protocol, a: int, b: int)
        requires
            self.projects.wf(),
            self.first_claim_at(port, protocol, a, b),
        ensures
            self.claims(port, protocol),
    {
        let ps = self.projects.items();
        self.projects.lemma_lookup_at(a);
        assert(self.entry_of(ps[a].0@, ps[a].1.items()[b].0@) == Some(ps[a].1.items()[b].1));
    }

    /// The owner of `port` on `protocol` among the live entries: the first
    /// claim in project, then service, name order. TCP and UDP at the same
    /// number are independent.
    pub fn is_port_claimed(&self, port: u16, protocol: Protocol) -> (r: Option<(String, String)>)
        ensures
            r is Some == self.claims(port, protocol),
            r matches Some(o) ==> (self.entry_of(o.0@, o.1@) matches Some(e) && e.port == port && e.protocol == protocol),
            r matches Some(o) ==> exists|a: int, b: int| #[trigger] self.first_claim_at(port, protocol, a, b)
                && self.projects.items()[a].0@ == o.0@ && self.projects.items()[a].1.items()[b].0@ == o.1@,
    {
        proof {
            use_type_invariant(&self.projects);
        }
        let ps = self.projects.entries();
        let mut i: usize = 0;
        while i < ps.len()
            invariant
                ps@ == self.projects.items(),
                self.projects.wf(),
                i <= ps@.len(),
                forall|a: int, t: Seq<char>| 0 <= a < i ==> !(#[trigger] ps@[a].1.lookup(t) matches Some(e) && e.port == port && e.protocol == protocol),
            decreases ps@.len() - i,
        {
            let services = &ps[i].1;
            proof {
                use_type_invariant(services);
            }
            let ss = services.entries();
            let mut j: usize = 0;
            while j < ss.len()
                invariant
                    ss@ == services.items(),
                    services.wf(),
                    ps@ == self.projects.items(),
                    self.projects.wf(),
                    i < ps@.len(),
                    *services == ps@[i as int].1,
                    j <= ss@.len(),
                    forall|b: int| 0 <= b < j ==> !(#[trigger] ss@[b].1.port == port && ss@[b].1.protocol == protocol),
                    forall|a: int, t: Seq<char>| 0 <= a < i ==> !(#[trigger] ps@[a].1.lookup(t) matches Some(e) && e.port == port && e.protocol == protocol),
                decreases ss@.len() - j,
            {
                if ss[j].1.port == port && ss[j].1.protocol == protocol {
                    proof {
                        self.projects.lemma_lookup_at(i as int);
                        services.lemma_lookup_at(j as int);
                        let its = self.projects.items();
                        assert forall|b2: int| 0 <= b2 < j implies !((#[trigger] its[i as int].1.items()[b2]).1.port == port
                            && its[i as int].1.items()[b2].1.protocol == protocol) by {
                            assert(its[i as int].1.items()[b2] == ss@[b2]);
                        }
                        assert forall|a2: int, t: Seq<char>| 0 <= a2 < i implies !(#[trigger] its[a2].1.lookup(t) matches Some(e)
                            && e.port == port && e.protocol == protocol) by {
                            assert(its[a2] == ps@[a2]);
                        }
                        assert(self.first_claim_at(port, protocol, i as int, j as int));
                    }
                    return Some((ps[i].0.clone(), ss[j].0.clone()));
                }
                j = j + 1;
            }
            proof {
                assert forall|t: Seq<char>| !(#[trigger] ps@[i as int].1.lookup(t) matches Some(e) && e.port == port && e.protocol == protocol) by {
                    if services.has(t) {
                        let b = choose|b: int| 0 <= b < services.items().len() && #[trigger] services.items()[b].0@ == t;
                        services.lemma_lookup_at(b);
                    }
                }
            }
            i = i + 1;
        }
        proof {
            assert forall|p: Seq<char>, t: Seq<char>| !(#[trigger] self.entry_of(p, t) matches Some(e) && e.port == port && e.protocol == protocol) by {
                if self.projects.has(p) {
                    let a = choose|a: int| 0 <= a < self.projects.items().len() && #[trigger] self.projects.items()[a].0@ == p;
                    self.projects.lemma_lookup_at(a);
                    assert(ps@[a].1.lookup(t) == self.entry_of(p, t));
                }
            }
        }
        None
    }

    /// Released entries for `port`, most recent release first (entries
    /// released the same day keep their history order).
    pub fn history_for_port(&self, port: u16) -> (r: Vec<&HistoryEntry>)
        ensures
            derefs(r@) == recent_first(self.history@.filter(|h: HistoryEntry| h.port == port)),
    {
        let ghost f = |h: HistoryEntry| h.port == port;
        let mut out: Vec<&HistoryEntry> = Vec::new();
        let mut i: usize = 0;
        while i < self.history.len()
            invariant
                i <= self.history@.len(),
                f == (|h: HistoryEntry| h.port == port),
                derefs(out@) == recent_first(self.history@.take(i as int).filter(f)),
            decreases self.history@.len() - i,
        {
            proof {
                reveal(Seq::filter);
                let t1 = self.history@.take(i as int + 1);
                assert(t1.drop_last() =~= self.history@.take(i as int));
                assert(t1.last() == self.history@[i as int]);
            }
            let h = &self.history[i];
            if h.port == port {
                insert_by_released(&mut out, h);
                proof {
                    let t1 = self.history@.take(i as int + 1);
                    let fl = t1.filter(f);
                    assert(fl == self.history@.take(i as int).filter(f).push(*h));
                    assert(fl.drop_last() =~= self.history@.take(i as int).filter(f));
                }
            }
            i = i + 1;
        }
        proof {
            assert(self.history@.take(self.history@.len() as int) =~= self.history@);
        }
        out
    }

    /// Released entries of `service` in `project`, most recent release first
    /// (entries released the same day keep their history order).
    pub fn history_for_service(&self, project: &str, service: &str) -> (r: Vec<&HistoryEntry>)
        ensures
            derefs(r@) == recent_first(self.history@.filter(|h: HistoryEntry| h.project@ == project@ && h.service@ == service@)),
    {
        let ghost f = |h: HistoryEntry| h.project@ == project@ && h.service@ == service@;
        let mut out: Vec<&HistoryEntry> = Vec::new();
        let mut i: usize = 0;
        while i < self.history.len()
            invariant
                i <= self.history@.len(),
                f == (|h: HistoryEntry| h.project@ == project@ && h.service@ == service@),
                derefs(out@) == recent_first(self.history@.take(i as int).filter(f)),
            decreases self.history@.len() - i,
        {
            proof {
                reveal(Seq::filter);
                let t1 = self.history@.take(i as int + 1);
                assert(t1.drop_last() =~= self.history@.take(i as int));
                assert(t1.last() == self.history@[i as int]);
            }
            let h = &self.history[i];
            if str_eq(h.project.as_str(), project) && str_eq(h.service.as_str(), service) {
                insert_by_released(&mut out, h);
                proof {
                    let t1 = self.history@.take(i as int + 1);
                    let fl = t1.filter(f);
                    assert(fl == self.history@.take(i as int).filter(f).push(*h));
                    assert(fl.drop_last() =~= self.history@.take(i as int).filter(f));
                }
            }
            i = i + 1;
        }
        proof {
            assert(self.history@.take(self.history@.len() as int) =~= self.history@);
        }
        out
    }
    /// Whether directory identity `a` holds a live `service` and is not
    /// `current`.
    pub open spec fn is_orphan_dir(self, current: Seq<char>, service: Seq<char>, a: Seq<char>) -> bool {
        a != current && self.entry_of(a, service) is Some
    }

    /// The working directory and its ancestors that are project identities
    /// other than `current` holding `service`, nearest first.
    pub open spec fn orphan_dirs(self, current: Seq<char>, service: Seq<char>, cwd: Seq<char>) -> Seq<Seq<char>> {
        ancestors(cwd).filter(|a: Seq<char>| self.is_orphan_dir(current, service, a))
    }

    /// Live entries for `service` under identities other than
    /// `current_project` that name `cwd` or one of its ancestors — entries
    /// left behind when a project's identity changed. Nearest first.
    pub fn orphans_for_service<'a>(&'a self, current_project: &str, service: &str, cwd: &str) -> (r: Vec<(String, &'a Entry)>)
        ensures
            r@.len() == self.orphan_dirs(current_project@, service@, cwd@).len(),
            forall|i: int| 0 <= i < r@.len() ==> {
                &&& (#[trigger] r@[i]).0@ == self.orphan_dirs(current_project@, service@, cwd@)[i]
                &&& self.entry_of(r@[i].0@, service@) == Some(*r@[i].1)
            },
    {
        let ghost f = |a: Seq<char>| self.is_orphan_dir(current_project@, service@, a);
        let mut out: Vec<(String, &'a Entry)> = Vec::new();
        let mut cur = chars_of(cwd);
        let ghost mut done: Seq<Seq<char>> = Seq::empty();
        loop
            invariant
                f == (|a: Seq<char>| self.is_orphan_dir(current_project@, service@, a)),
                ancestors(cwd@) == done + ancestors(cur@),
                out@.len() == done.filter(f).len(),
                forall|i: int| 0 <= i < out@.len() ==> {
                    &&& (#[trigger] out@[i]).0@ == done.filter(f)[i]
                    &&& self.entry_of(out@[i].0@, service@) == Some(*out@[i].1)
                },
            decreases cur@.len(),
        {
            let dir = string_of(&cur);
            let ghost prev_out = out@;
            if !str_eq(dir.as_str(), current_project) {
                match self.projects.get(dir.as_str()) {
                    Some(services) => match services.get(service) {
                        Some(e) => {
                            out.push((dir, e));
                        },
                        None => {},
                    },
                    None => {},
                }
            }
            proof {
                reveal(Seq::filter);
                let nd = done.push(cur@);
                assert(nd.drop_last() =~= done);
                assert(nd.last() == cur@);
                if f(cur@) {
                    assert(nd.filter(f) == done.filter(f).push(cur@));
                } else {
                    assert(nd.filter(f) == done.filter(f));
                }
                lemma_parent_shorter(cur@);
            }
            match parent_of(&cur) {
                Some(p) => {
                    proof {
                        assert(ancestors(cur@) == seq![cur@] + ancestors(p@));
                        assert(done + ancestors(cur@) =~= done.push(cur@) + ancestors(p@));
                        done = done.push(cur@);
                    }
                    cur = p;
                },
                None => {
                    proof {
                        assert(ancestors(cur@) == seq![cur@]);
                        assert(done + ancestors(cur@) =~= done.push(cur@));
                        done = done.push(cur@);
                        assert(done == ancestors(cwd@));
                    }
                    return out;
                },
            }
        }
    }
}


impl Default for Registry {
    /// An empty registry at the current schema version.
    fn default() -> (r: Registry)
        ensures
            r.version == CURRENT_VERSION,
            forall|p: Seq<char>| !r.projects.has(p),
            r.history@.len() == 0,
    {
        Registry::new()
    }
}

/// The lock file of a registry file: its extension replaced by `lock`
/// (added when it has none), as `Path::set_extension` does for a path
/// without a trailing slash. A path whose last component is empty or `..`
/// is returned as it is.
pub open spec fn lock_path_spec(p: Seq<char>) -> Seq<char> {
    let q = crate::paths::tail_trim(p);
    let k = crate::paths::last_slash(q);
    let dir = q.subrange(0, k + 1);
    let name = q.subrange(k + 1, q.len() as int);
    if name.len() == 0 || name == ".."@ || name == "."@ {
        p
    } else {
        let dot = crate::compose::last_index_of(name, '.');
        let stem = if dot > 0 { name.subrange(0, dot) } else { name };
        dir + stem + ".lock"@
    }
}

/// `/tmp/foo.json` → `/tmp/foo.lock`.
pub fn lock_path(registry: &str) -> (r: String)
    ensures
        r@ == lock_path_spec(registry@),
{
    proof {
        reveal_strlit("..");
        reveal_strlit(".");
    }
    let all = chars_of(registry);
    let n0 = crate::paths::trimmed_len(&all, all.len());
    assert(all@.subrange(0, all@.len() as int) =~= all@);
    let cs = crate::text::sub_chars(&all, 0, n0);
    proof {
        crate::paths::lemma_last_slash(cs@);
    }
    let mut k: usize = cs.len();
    while k > 0 && cs[k - 1] != '/'
        invariant
            k <= cs.len(),
            cs@ == crate::paths::tail_trim(registry@),
            forall|j: int| k <= j < cs.len() ==> cs@[j] != '/',
        decreases k,
    {
        k = k - 1;
    }
    proof {
        assert(crate::paths::last_slash(cs@) == k - 1) by {
            let ls = crate::paths::last_slash(cs@);
            if ls != k - 1 {
                if ls >= k {
                } else {
                    assert(cs@[k - 1] == '/');
                }
            }
        }
    }
    let n = cs.len();
    let is_dotdot = n - k == 2 && cs[k] == '.' && cs[k + 1] == '.';
    let is_dot = n - k == 1 && cs[k] == '.';
    proof {
        let name = cs@.subrange(k as int, n as int);
        if name == ".."@ {
            assert(name[0] == '.' && name[1] == '.');
        }
        if is_dotdot {
            assert(name =~= ".."@);
        }
        if name == "."@ {
            assert(name[0] == '.');
        }
        if is_dot {
            assert(name =~= "."@);
        }
    }
    if n == k || is_dotdot || is_dot {
        return string_of(&all);
    }
    let mut dot: usize = n;
    while dot > k && cs[dot - 1] != '.'
        invariant
            k <= dot <= n,
            n == cs.len(),
            forall|j: int| dot <= j < n ==> cs@[j] != '.',
        decreases dot,
    {
        dot = dot - 1;
    }
    let ghost name = cs@.subrange(k as int, n as int);
    proof {
        let li = crate::compose::last_index_of(name, '.');
        crate::compose::lemma_last_index_of(name, '.');
        assert(li == dot - 1 - k) by {
            if li != dot - 1 - k {
                if li > dot - 1 - k {
                    assert(name[li] == cs@[k + li]);
                } else if dot > k {
                    assert(name[dot - 1 - k] == cs@[dot - 1]);
                }
            }
        }
    }
    let stem_end = if dot > k + 1 { dot - 1 } else { n };
    let r = crate::text::sub_chars(&cs, 0, stem_end);
    let stem = string_of(&r);
    let mut out = stem;
    out.append(".lock");
    proof {
        if dot > k + 1 {
            assert(cs@.subrange(0, stem_end as int) =~= cs@.subrange(0, k as int) + name.subrange(0, dot - 1 - k));
        } else {
            assert(cs@.subrange(0, stem_end as int) =~= cs@.subrange(0, k as int) + name);
        }
    }
    out
}

} // verus!
