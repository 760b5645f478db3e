//! A string-keyed map kept as a vector of entries sorted by key.
//!
//! The registry nests two of these (project → service → entry). Keeping the
//! entries sorted makes the map canonical: iteration order is the
//! code-point order of the keys, which is also the order every listing of
//! the registry is printed in.

use vstd::prelude::*;

use crate::text::{chars_lt, chars_of, lemma_lex_asymmetric, lemma_lex_irreflexive, lemma_lex_total, lemma_lex_transitive, lex_lt};

verus! {

/// Keys strictly increasing in code-point lexicographic order.
pub open spec fn sorted_strict(ks: Seq<Seq<char>>) -> bool {
    forall|i: int, j: int| 0 <= i < j < ks.len() ==> lex_lt(#[trigger] ks[i], #[trigger] ks[j])
}

pub proof fn lemma_sorted_distinct(ks: Seq<Seq<char>>, i: int, j: int)
    requires
        sorted_strict(ks),
        0 <= i < ks.len(),
        0 <= j < ks.len(),
        i != j,
    ensures
        ks[i] != ks[j],
{
    if i < j {
        lemma_lex_asymmetric(ks[i], ks[j]);
    } else {
        lemma_lex_asymmetric(ks[j], ks[i]);
    }
}

#[derive(Debug, PartialEq, Eq)]
pub struct StrMap<V> {
    entries: Vec<(String, V)>,
}

impl<V> StrMap<V> {
    /// The entries, in key order.
    pub closed spec fn items(self) -> Seq<(String, V)> {
        self.entries@
    }

    pub open spec fn keys(self) -> Seq<Seq<char>> {
        Seq::new(self.items().len(), |i: int| self.items()[i].0@)
    }

    pub open spec fn has(self, k: Seq<char>) -> bool {
        exists|i: int| 0 <= i < self.items().len() && #[trigger] self.items()[i].0@ == k
    }

    /// Position of key `k` (meaningful when `has(k)`).
    pub open spec fn pos(self, k: Seq<char>) -> int {
        choose|i: int| 0 <= i < self.items().len() && #[trigger] self.items()[i].0@ == k
    }

    /// The value stored under `k`, if any.
    pub open spec fn lookup(self, k: Seq<char>) -> Option<V> {
        if self.has(k) {
            Some(self.items()[self.pos(k)].1)
        } else {
            None
        }
    }

    #[verifier::type_invariant]
    pub open spec fn wf(self) -> bool {
        sorted_strict(self.keys())
    }

    /// In a well-formed map, a key found at position `i` is the one `lookup` reports.
    pub proof fn lemma_lookup_at(self, i: int)
        requires
            self.wf(),
            0 <= i < self.items().len(),
        ensures
            self.has(self.items()[i].0@),
            self.pos(self.items()[i].0@) == i,
            self.lookup(self.items()[i].0@) == Some(self.items()[i].1),
    {
        let k = self.items()[i].0@;
        assert(self.items()[i].0@ == k);
        let p = self.pos(k);
        if p != i {
            assert(self.keys()[p] == k && self.keys()[i] == k);
            lemma_sorted_distinct(self.keys(), p, i);
        }
    }

    pub fn new() -> (r: Self)
        ensures
            r.items().len() == 0,
            forall|k: Seq<char>| !r.has(k),
    {
        StrMap { entries: Vec::new() }
    }

    pub fn len(&self) -> (n: usize)
        ensures
            n == self.items().len(),
    {
        self.entries.len()
    }

    pub fn is_empty(&self) -> (b: bool)
        ensures
            b == (self.items().len() == 0),
    {
        self.entries.len() == 0
    }

    /// The entries, in key order.
    pub fn entries(&self) -> (r: &Vec<(String, V)>)
        ensures
            r@ == self.items(),
    {
        &self.entries
    }

    /// The entries, in key order, consuming the map.
    pub fn into_entries(self) -> (r: Vec<(String, V)>)
        ensures
            r@ == self.items(),
    {
        self.entries
    }

    /// Finds `k`: `(true, i)` when it sits at `i`, else `(false, i)` with `i`
    /// the position at which it would be inserted.
    fn locate(&self, k: &Vec<char>) -> (r: (bool, usize))
        ensures
            r.1 <= self.items().len(),
            r.0 ==> r.1 < self.items().len() && self.items()[r.1 as int].0@ == k@,
            !r.0 ==> forall|j: int| 0 <= j < r.1 ==> lex_lt(#[trigger] self.keys()[j], k@),
            !r.0 ==> forall|j: int| r.1 <= j < self.items().len() ==> lex_lt(k@, #[trigger] self.keys()[j]),
    {
        proof {
            use_type_invariant(self);
        }
        let n = self.entries.len();
        let mut i: usize = 0;
        while i < n
            invariant
                n == self.items().len(),
                i <= n,
                self.wf(),
                forall|j: int| 0 <= j < i ==> lex_lt(#[trigger] self.keys()[j], k@),
            decreases n - i,
        {
            let key = chars_of(self.entries[i].0.as_str());
            assert(key@ == self.keys()[i as int]);
            if chars_lt(&key, k) {
                i = i + 1;
            } else {
                if chars_lt(k, &key) {
                    assert forall|j: int| i <= j < n implies lex_lt(k@, #[trigger] self.keys()[j]) by {
                        if j > i {
                            lemma_lex_transitive(k@, self.keys()[i as int], self.keys()[j]);
                        }
                    }
                    return (false, i);
                } else {
                    proof { lemma_lex_total(key@, k@); }
                    return (true, i);
                }
            }
        }
        (false, i)
    }

    /// Whether `k` is present.
    pub fn contains_key(&self, k: &str) -> (b: bool)
        ensures
            b == self.has(k@),
    {
        let kc = chars_of(k);
        let (found, i) = self.locate(&kc);
        proof {
            use_type_invariant(self);
            if !found {
                if self.has(k@) {
                    let p = choose|p: int| 0 <= p < self.items().len() && #[trigger] self.items()[p].0@ == k@;
                    assert(self.keys()[p] == k@);
                    if p < i {
                        lemma_lex_irreflexive(k@);
                    } else {
                        lemma_lex_irreflexive(k@);
                    }
                }
            }
        }
        found
    }

    /// The value under `k`, if any.
    pub fn get(&self, k: &str) -> (r: Option<&V>)
        ensures
            match r {
                Some(v) => self.lookup(k@) == Some(*v),
                None => self.lookup(k@) is None,
            },
    {
        proof {
            use_type_invariant(self);
        }
        let kc = chars_of(k);
        let (found, i) = self.locate(&kc);
        if found {
            proof {
                self.lemma_lookup_at(i as int);
            }
            Some(&self.entries[i].1)
        } else {
            proof {
                if self.has(k@) {
                    let p = choose|p: int| 0 <= p < self.items().len() && #[trigger] self.items()[p].0@ == k@;
                    assert(self.keys()[p] == k@);
                    lemma_lex_irreflexive(k@);
                }
            }
            None
        }
    }

    /// Stores `v` under `k`, returning the value it replaces.
    pub fn insert(&mut self, k: String, v: V) -> (r: Option<V>)
        ensures
            r == old(self).lookup(k@),
            final(self).lookup(k@) == Some(v),
            forall|q: Seq<char>| q != k@ ==> final(self).lookup(q) == old(self).lookup(q),
            forall|q: Seq<char>| final(self).has(q) <==> (q == k@ || old(self).has(q)),
    {
        proof {
            use_type_invariant(&*self);
        }
        let kc = chars_of(k.as_str());
        let (found, i) = self.locate(&kc);
        let mut es: Vec<(String, V)> = Vec::new();
        std::mem::swap(&mut es, &mut self.entries);
        let ghost old_es = es@;
        let ghost old_self = *old(self);
        assert(old_es == old_self.items());
        let r = if found {
            let (_, old_v) = es.remove(i);
            es.insert(i, (k, v));
            Some(old_v)
        } else {
            es.insert(i, (k, v));
            None
        };
        proof {
            let n = es@.len();
            let ks = Seq::new(n, |j: int| es@[j].0@);
            if found {
                assert(es@ =~= old_es.update(i as int, (k, v)));
            } else {
                assert(es@ =~= old_es.insert(i as int, (k, v)));
            }
            assert forall|a: int, b: int| 0 <= a < b < n implies lex_lt(#[trigger] ks[a], #[trigger] ks[b]) by {
                if found {
                    assert(old_self.keys()[i as int] == kc@);
                    if a == i as int {
                        assert(lex_lt(old_self.keys()[a], old_self.keys()[b]));
                    } else if b == i as int {
                        assert(lex_lt(old_self.keys()[a], old_self.keys()[b]));
                    } else {
                        assert(lex_lt(old_self.keys()[a], old_self.keys()[b]));
                    }
                } else {
                    if a < i && b < i {
                        assert(lex_lt(old_self.keys()[a], old_self.keys()[b]));
                    } else if a < i && b == i {
                        assert(lex_lt(old_self.keys()[a], kc@));
                    } else if a < i && b > i {
                        assert(lex_lt(old_self.keys()[a], kc@));
                        assert(lex_lt(kc@, old_self.keys()[b - 1]));
                        lemma_lex_transitive(ks[a], kc@, ks[b]);
                    } else if a == i {
                        assert(lex_lt(kc@, old_self.keys()[b - 1]));
                    } else {
                        assert(lex_lt(old_self.keys()[a - 1], old_self.keys()[b - 1]));
                    }
                }
            }
        }
        self.entries = es;
        proof {
            let new_self = *self;
            assert(new_self.items() == es@);
            assert(new_self.wf());
            // The key itself.
            let ni = i as int;
            new_self.lemma_lookup_at(ni);
            // Old lookup of k.
            if found {
                old_self.lemma_lookup_at(ni);
            } else if old_self.has(k@) {
                let p = choose|p: int| 0 <= p < old_self.items().len() && #[trigger] old_self.items()[p].0@ == k@;
                assert(old_self.keys()[p] == k@);
                lemma_lex_irreflexive(k@);
            }
            // Every other key.
            assert forall|q: Seq<char>| q != k@ implies new_self.lookup(q) == old_self.lookup(q) by {
                if old_self.has(q) {
                    let p = choose|p: int| 0 <= p < old_self.items().len() && #[trigger] old_self.items()[p].0@ == q;
                    old_self.lemma_lookup_at(p);
                    let np = if found || p < ni { p } else { p + 1 };
                    assert(new_self.items()[np].0@ == q);
                    new_self.lemma_lookup_at(np);
                }
                if new_self.has(q) {
                    let p = choose|p: int| 0 <= p < new_self.items().len() && #[trigger] new_self.items()[p].0@ == q;
                    let op = if found || p < ni { p } else { p - 1 };
                    assert(old_self.items()[op].0@ == q);
                }
            }
            assert forall|q: Seq<char>| new_self.has(q) <==> (q == k@ || old_self.has(q)) by {
                if q != k@ {
                    if old_self.has(q) {
                        let p = choose|p: int| 0 <= p < old_self.items().len() && #[trigger] old_self.items()[p].0@ == q;
                        let np = if found || p < ni { p } else { p + 1 };
                        assert(new_self.items()[np].0@ == q);
                    }
                    if new_self.has(q) {
                        let p = choose|p: int| 0 <= p < new_self.items().len() && #[trigger] new_self.items()[p].0@ == q;
                        let op = if found || p < ni { p } else { p - 1 };
                        assert(old_self.items()[op].0@ == q);
                    }
                } else {
                    assert(new_self.items()[ni].0@ == q);
                }
            }
        }
        r
    }

    /// Removes `k`, returning its value.
    pub fn remove(&mut self, k: &str) -> (r: Option<V>)
        ensures
            r == old(self).lookup(k@),
            final(self).lookup(k@) is None,
            !final(self).has(k@),
            forall|q: Seq<char>| q != k@ ==> final(self).lookup(q) == old(self).lookup(q),
            forall|q: Seq<char>| final(self).has(q) <==> (q != k@ && old(self).has(q)),
            final(self).items().len() == old(self).items().len() - (if old(self).has(k@) { 1int } else { 0int }),
    {
        proof {
            use_type_invariant(&*self);
        }
        let kc = chars_of(k);
        let (found, i) = self.locate(&kc);
        let ghost old_self = *old(self);
        let ghost ni = i as int;
        if !found {
            proof {
                if old_self.has(k@) {
                    let p = choose|p: int| 0 <= p < old_self.items().len() && #[trigger] old_self.items()[p].0@ == k@;
                    assert(old_self.keys()[p] == k@);
                    lemma_lex_irreflexive(k@);
                }
            }
            return None;
        }
        let mut es: Vec<(String, V)> = Vec::new();
        std::mem::swap(&mut es, &mut self.entries);
        let (_, old_v) = es.remove(i);
        proof {
            let n = es@.len();
            assert forall|a: int, b: int| 0 <= a < b < n implies lex_lt(
                #[trigger] es@[a].0@,
                #[trigger] es@[b].0@,
            ) by {
                let oa = if a < ni { a } else { a + 1 };
                let ob = if b < ni { b } else { b + 1 };
                assert(old_self.keys()[oa] == es@[a].0@);
                assert(old_self.keys()[ob] == es@[b].0@);
            }
            assert(sorted_strict(Seq::new(n, |j: int| es@[j].0@)));
        }
        self.entries = es;
        proof {
            let new_self = *self;
            assert(new_self.wf());
            old_self.lemma_lookup_at(ni);
            assert forall|q: Seq<char>| new_self.has(q) <==> (q != k@ && old_self.has(q)) by {
                if new_self.has(q) {
                    let p = choose|p: int| 0 <= p < new_self.items().len() && #[trigger] new_self.items()[p].0@ == q;
                    let op = if p < ni { p } else { p + 1 };
                    assert(old_self.items()[op].0@ == q);
                    if q == k@ {
                        lemma_sorted_distinct(old_self.keys(), op, ni);
                    }
                }
                if q != k@ && old_self.has(q) {
                    let p = choose|p: int| 0 <= p < old_self.items().len() && #[trigger] old_self.items()[p].0@ == q;
                    let np = if p < ni { p } else { p - 1 };
                    assert(new_self.items()[np].0@ == q);
                }
            }
            assert forall|q: Seq<char>| q != k@ implies new_self.lookup(q) == old_self.lookup(q) by {
                if old_self.has(q) {
                    let p = choose|p: int| 0 <= p < old_self.items().len() && #[trigger] old_self.items()[p].0@ == q;
                    old_self.lemma_lookup_at(p);
                    let np = if p < ni { p } else { p - 1 };
                    assert(new_self.items()[np].0@ == q);
                    new_self.lemma_lookup_at(np);
                }
            }
        }
        Some(old_v)
    }
}

} // verus!
