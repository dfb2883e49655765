//! The knowledge graph: entries connected by dependencies and affinities,
//! mapped to code through groundings, with locks guarding sensitive entries.

use vstd::prelude::*;

use crate::adjacency::{id_texts, AdjacencyList};
use crate::edge::{Affinity, Dependency, EdgeModel};
use crate::entry::{Entry, EntryId, EntryModel};
use crate::grounding::Grounding;
use crate::keyed::{
    assoc, keyed, lemma_keyed_dom, lemma_keyed_index, lemma_keyed_insert, lemma_keyed_push,
    lemma_keyed_remove, lemma_keyed_update,
};
use crate::text::{
    compare_text, lemma_text_lt_irreflexive, lemma_text_lt_total, lemma_text_lt_transitive, text_lt,
    TextOrder,
};

verus! {

/// Edges keyed by their endpoints, each with its optional explaining entry.
pub type EdgeMap = Map<(Seq<char>, Seq<char>), Option<Seq<char>>>;

/// The endpoints of each dependency record, in order.
pub open spec fn dependency_keys(s: Seq<Dependency>) -> Seq<(Seq<char>, Seq<char>)> {
    s.map_values(|d: Dependency| (d@.from, d@.to))
}

/// The explaining entry of each dependency record, in order.
pub open spec fn dependency_meanings(s: Seq<Dependency>) -> Seq<Option<Seq<char>>> {
    s.map_values(|d: Dependency| d@.meaning)
}

/// The edges that remain when every edge touching `id` is dropped.
pub open spec fn detach_edges(m: EdgeMap, id: Seq<char>) -> EdgeMap {
    Map::new(|k: (Seq<char>, Seq<char>)| m.contains_key(k) && k.0 != id && k.1 != id, |k: (Seq<char>, Seq<char>)| m[k])
}

/// The edges with every explanation by `id` dropped.
pub open spec fn clear_meanings(m: EdgeMap, id: Seq<char>) -> EdgeMap {
    Map::new(
        |k: (Seq<char>, Seq<char>)| m.contains_key(k),
        |k: (Seq<char>, Seq<char>)|
            if m[k] == Some(id) {
                None
            } else {
                m[k]
            },
    )
}

/// Bidirectional index over directed dependency edges.
///
/// Maintains full dependency records alongside forward (`from → [to]`) and
/// reverse (`to → [from]`) adjacency. All mutations go through methods that
/// preserve the invariant [`DependencyIndex::wf`]: an edge is recorded
/// exactly when its target is among the forward neighbors of its source and
/// its source among the reverse neighbors of its target.
#[derive(Clone, Debug)]
pub struct DependencyIndex {
    /// Full dependency records, at most one per pair of endpoints.
    edges: Vec<Dependency>,
    /// `from` → entries whose validity depends on `from`.
    forward: AdjacencyList,
    /// `to` → entries that `to` depends on.
    reverse: AdjacencyList,
}

impl View for DependencyIndex {
    type V = EdgeMap;

    closed spec fn view(&self) -> EdgeMap {
        keyed(dependency_keys(self.edges@), dependency_meanings(self.edges@))
    }
}

impl DependencyIndex {
    /// The dependency records in iteration order.
    pub closed spec fn records(self) -> Seq<Dependency> {
        self.edges@
    }

    /// Well-formedness: one record per pair of endpoints, and forward and
    /// reverse adjacency agree with the records.
    pub closed spec fn wf(self) -> bool {
        &&& assoc(dependency_keys(self.edges@), dependency_meanings(self.edges@))
        &&& self.forward.wf()
        &&& self.reverse.wf()
        &&& forall|x: Seq<char>, y: Seq<char>|
            #![trigger self.forward.linked(x, y)]
            #![trigger self.reverse.linked(y, x)]
            #![trigger self@.contains_key((x, y))]
            self@.contains_key((x, y)) == self.forward.linked(x, y) && self@.contains_key((x, y))
                == self.reverse.linked(y, x)
    }

    /// The records denote the view.
    pub proof fn lemma_records(&self)
        requires
            self.wf(),
        ensures
            assoc(dependency_keys(self.records()), dependency_meanings(self.records())),
            keyed(dependency_keys(self.records()), dependency_meanings(self.records())) == self@,
    {
    }

    /// Construct an empty index.
    pub fn new() -> (r: DependencyIndex)
        ensures
            r.wf(),
            r@ == EdgeMap::empty(),
    {
        let r = DependencyIndex {
            edges: Vec::new(),
            forward: AdjacencyList::new(),
            reverse: AdjacencyList::new(),
        };
        proof {
            assert(dependency_keys(r.edges@) =~= Seq::empty());
            assert(r@ =~= EdgeMap::empty());
        }
        r
    }

    fn find(&self, from: &EntryId, to: &EntryId) -> (r: Option<usize>)
        ensures
            match r {
                Some(i) => i < self.edges@.len() && dependency_keys(self.edges@)[i as int] == (
                from@,
                to@,
                ),
                None => !dependency_keys(self.edges@).contains((from@, to@)),
            },
    {
        let mut i: usize = 0;
        while i < self.edges.len()
            invariant
                i <= self.edges@.len(),
                forall|j: int| 0 <= j < i ==> dependency_keys(self.edges@)[j] != (from@, to@),
            decreases self.edges@.len() - i,
        {
            if *self.edges[i].from() == *from && *self.edges[i].to() == *to {
                return Some(i);
            }
            i += 1;
        }
        None
    }

    /// Drop the record with the given endpoints, if any; adjacency is left
    /// as it is.
    fn drop_record(&mut self, from: &EntryId, to: &EntryId)
        requires
            assoc(dependency_keys(old(self).edges@), dependency_meanings(old(self).edges@)),
        ensures
            assoc(dependency_keys(final(self).edges@), dependency_meanings(final(self).edges@)),
            final(self)@ == old(self)@.remove((from@, to@)),
            final(self).forward == old(self).forward,
            final(self).reverse == old(self).reverse,
    {
        let ghost old_edges = self.edges@;
        match self.find(from, to) {
            Some(i) => {
                proof {
                    lemma_keyed_remove(
                        dependency_keys(old_edges),
                        dependency_meanings(old_edges),
                        i as int,
                    );
                }
                self.edges.remove(i);
                proof {
                    assert(dependency_keys(self.edges@) =~= dependency_keys(old_edges).remove(
                        i as int,
                    ));
                    assert(dependency_meanings(self.edges@) =~= dependency_meanings(
                        old_edges,
                    ).remove(i as int));
                }
            },
            None => {
                proof {
                    assert(self@ =~= old(self)@.remove((from@, to@)));
                }
            },
        }
    }

    /// Record a dependency edge. Returns `true` if the edge was new.
    ///
    /// Re-inserting an existing endpoint pair replaces the stored relation
    /// metadata while preserving adjacency.
    pub fn insert(&mut self, dep: Dependency) -> (r: bool)
        requires
            old(self).wf(),
        ensures
            final(self).wf(),
            r == !old(self)@.contains_key((dep@.from, dep@.to)),
            final(self)@ == old(self)@.insert((dep@.from, dep@.to), dep@.meaning),
    {
        let ghost old_edges = self.edges@;
        let ghost key = (dep@.from, dep@.to);
        let from = dep.from().clone();
        let to = dep.to().clone();
        match self.find(&from, &to) {
            Some(i) => {
                proof {
                    lemma_keyed_index(dependency_keys(old_edges), dependency_meanings(old_edges), i as int);
                    lemma_keyed_update(
                        dependency_keys(old_edges),
                        dependency_meanings(old_edges),
                        i as int,
                        dep@.meaning,
                    );
                }
                self.edges.set(i, dep);
                proof {
                    assert(dependency_keys(self.edges@) =~= dependency_keys(old_edges));
                    assert(dependency_meanings(self.edges@) =~= dependency_meanings(old_edges).update(
                        i as int,
                        dep@.meaning,
                    ));
                    assert forall|x: Seq<char>, y: Seq<char>|
                        self@.contains_key((x, y)) == old(self)@.contains_key((x, y)) by {}
                }
                false
            },
            None => {
                proof {
                    lemma_keyed_push(
                        dependency_keys(old_edges),
                        dependency_meanings(old_edges),
                        key,
                        dep@.meaning,
                    );
                }
                self.edges.push(dep);
                proof {
                    assert(dependency_keys(self.edges@) =~= dependency_keys(old_edges).push(key));
                    assert(dependency_meanings(self.edges@) =~= dependency_meanings(old_edges).push(
                        dep@.meaning,
                    ));
                    assert(!old(self).forward.linked(from@, to@));
                    assert(!old(self).reverse.linked(to@, from@));
                }
                self.forward.link(&from, &to);
                self.reverse.link(&to, &from);
                true
            },
        }
    }

    /// Remove a dependency edge. Returns `true` if the edge existed.
    pub fn remove(&mut self, dep: &Dependency) -> (r: bool)
        requires
            old(self).wf(),
        ensures
            final(self).wf(),
            r == old(self)@.contains_key((dep@.from, dep@.to)),
            final(self)@ == old(self)@.remove((dep@.from, dep@.to)),
    {
        let (from, to) = dep.key();
        match self.find(&from, &to) {
            Some(_) => {
                proof {
                    assert(dependency_keys(self.edges@).contains((from@, to@)));
                }
                self.drop_record(&from, &to);
                self.forward.unlink(&from, &to);
                self.reverse.unlink(&to, &from);
                true
            },
            None => {
                proof {
                    assert(self@ =~= old(self)@.remove((dep@.from, dep@.to)));
                }
                false
            },
        }
    }

    /// Remove all edges involving the given entry (as source or target).
    pub fn remove_entry(&mut self, id: &EntryId)
        requires
            old(self).wf(),
        ensures
            final(self).wf(),
            final(self)@ == detach_edges(old(self)@, id@),
    {
        let ghost m0 = self@;
        let ghost fwd0 = self.forward;
        let ghost rev0 = self.reverse;
        // Remove forward edges from `id`.
        if let Some(targets) = self.forward.take(id) {
            let ghost ts = id_texts(targets@);
            let mut k: usize = 0;
            while k < targets.len()
                invariant
                    ts == id_texts(targets@),
                    ts.no_duplicates(),
                    forall|y: Seq<char>| ts.contains(y) <==> fwd0.linked(id@, y),
                    k <= targets@.len(),
                    assoc(dependency_keys(self.edges@), dependency_meanings(self.edges@)),
                    self.forward.wf(),
                    self.reverse.wf(),
                    forall|a: Seq<char>, b: Seq<char>|
                        self.forward.linked(a, b) == (fwd0.linked(a, b) && a != id@),
                    forall|a: Seq<char>, b: Seq<char>|
                        self.reverse.linked(b, a) == (rev0.linked(b, a) && !(a == id@ && ts.take(
                            k as int,
                        ).contains(b))),
                    forall|key: (Seq<char>, Seq<char>)|
                        self@.contains_key(key) == (m0.contains_key(key) && !(key.0 == id@ && ts.take(
                            k as int,
                        ).contains(key.1))),
                    forall|key: (Seq<char>, Seq<char>)| self@.contains_key(key) ==> self@[key] == m0[key],
                    forall|x: Seq<char>, y: Seq<char>|
                        #![trigger fwd0.linked(x, y)]
                        #![trigger rev0.linked(y, x)]
                        m0.contains_key((x, y)) == fwd0.linked(x, y) && m0.contains_key((x, y))
                            == rev0.linked(y, x),
                decreases targets@.len() - k,
            {
                let t = &targets[k];
                proof {
                    assert(ts.take(k + 1) =~= ts.take(k as int).push(t@));
                    assert(ts[k as int] == t@);
                    assert forall|y: Seq<char>| ts.take(k + 1).contains(y) == (ts.take(
                        k as int,
                    ).contains(y) || y == t@) by {
                        if y == t@ {
                            assert(ts.take(k + 1)[k as int] == y);
                        }
                        if ts.take(k as int).contains(y) {
                            let j: int = choose|j: int| 0 <= j < k && ts.take(k as int)[j] == y;
                            assert(ts.take(k + 1)[j] == y);
                        }
                    }
                }
                let ghost prev = self@;
                let ghost kold = k as int;
                assert forall|key: (Seq<char>, Seq<char>)|
                    prev.contains_key(key) == (m0.contains_key(key) && !(key.0 == id@ && ts.take(
                        kold,
                    ).contains(key.1))) by {}
                let ghost prev_rev = self.reverse;
                assert forall|a: Seq<char>, b: Seq<char>|
                    prev_rev.linked(b, a) == (rev0.linked(b, a) && !(a == id@ && ts.take(
                        kold,
                    ).contains(b))) by {}
                self.drop_record(id, t);
                assert(self@ == prev.remove((id@, t@)));
                self.reverse.unlink(t, id);
                k += 1;
                proof {
                    assert forall|key: (Seq<char>, Seq<char>)|
                        self@.contains_key(key) == (m0.contains_key(key) && !(key.0 == id@ && ts.take(
                            k as int,
                        ).contains(key.1))) by {
                        assert(ts.take(k as int).contains(key.1) == (ts.take(kold).contains(key.1) || key.1 == t@));
                        assert(prev.contains_key(key) == (m0.contains_key(key) && !(key.0 == id@ && ts.take(
                        kold,
                    ).contains(key.1))));
                    }
                    assert forall|a: Seq<char>, b: Seq<char>|
                        self.reverse.linked(b, a) == (rev0.linked(b, a) && !(a == id@ && ts.take(
                            k as int,
                        ).contains(b))) by {
                        assert(ts.take(k as int).contains(b) == (ts.take(kold).contains(b) || b == t@));
                        assert(prev_rev.linked(b, a) == (rev0.linked(b, a) && !(a == id@ && ts.take(
                        kold,
                    ).contains(b))));
                    }
                }
            }
            proof {
                assert(ts.take(k as int) =~= ts);
            }
        } else {
            proof {
                assert forall|key: (Seq<char>, Seq<char>)| !(key.0 == id@ && m0.contains_key(key)) by {
                    if key.0 == id@ && m0.contains_key(key) {
                        assert(fwd0.linked(key.0, key.1));
                    }
                }
            }
        }
        proof {
            assert forall|key: (Seq<char>, Seq<char>)|
                self@.contains_key(key) == (m0.contains_key(key) && key.0 != id@) by {
                if key.0 == id@ && m0.contains_key(key) {
                    assert(fwd0.linked(key.0, key.1));
                }
            }
        }
        assert forall|key: (Seq<char>, Seq<char>)| self@.contains_key(key) implies self@[key]
            == m0[key] by {}
        let ghost m1 = self@;
        let ghost fwd1 = self.forward;
        let ghost rev1 = self.reverse;
        // Remove reverse edges to `id`.
        if let Some(sources) = self.reverse.take(id) {
            let ghost ss = id_texts(sources@);
            let mut k: usize = 0;
            while k < sources.len()
                invariant
                    ss == id_texts(sources@),
                    ss.no_duplicates(),
                    forall|x: Seq<char>| ss.contains(x) <==> rev1.linked(id@, x),
                    k <= sources@.len(),
                    assoc(dependency_keys(self.edges@), dependency_meanings(self.edges@)),
                    self.forward.wf(),
                    self.reverse.wf(),
                    forall|a: Seq<char>, b: Seq<char>|
                        self.reverse.linked(b, a) == (rev1.linked(b, a) && b != id@),
                    forall|a: Seq<char>, b: Seq<char>|
                        self.forward.linked(a, b) == (fwd1.linked(a, b) && !(b == id@ && ss.take(
                            k as int,
                        ).contains(a))),
                    forall|key: (Seq<char>, Seq<char>)|
                        self@.contains_key(key) == (m1.contains_key(key) && !(key.1 == id@ && ss.take(
                            k as int,
                        ).contains(key.0))),
                    forall|key: (Seq<char>, Seq<char>)| self@.contains_key(key) ==> self@[key] == m1[key],
                    forall|key: (Seq<char>, Seq<char>)| m1.contains_key(key) ==> m1[key] == m0[key],
                    forall|key: (Seq<char>, Seq<char>)|
                        m1.contains_key(key) == (m0.contains_key(key) && key.0 != id@),
                    forall|a: Seq<char>, b: Seq<char>| fwd1.linked(a, b) == (fwd0.linked(a, b) && a != id@),
                    forall|a: Seq<char>, b: Seq<char>| rev1.linked(b, a) == (rev0.linked(b, a) && a != id@),
                    forall|x: Seq<char>, y: Seq<char>|
                        #![trigger fwd0.linked(x, y)]
                        #![trigger rev0.linked(y, x)]
                        m0.contains_key((x, y)) == fwd0.linked(x, y) && m0.contains_key((x, y))
                            == rev0.linked(y, x),
                decreases sources@.len() - k,
            {
                let s = &sources[k];
                proof {
                    assert(ss.take(k + 1) =~= ss.take(k as int).push(s@));
                    assert(ss[k as int] == s@);
                    assert forall|y: Seq<char>| ss.take(k + 1).contains(y) == (ss.take(
                        k as int,
                    ).contains(y) || y == s@) by {
                        if y == s@ {
                            assert(ss.take(k + 1)[k as int] == y);
                        }
                        if ss.take(k as int).contains(y) {
                            let j: int = choose|j: int| 0 <= j < k && ss.take(k as int)[j] == y;
                            assert(ss.take(k + 1)[j] == y);
                        }
                    }
                }
                let ghost prev = self@;
                let ghost prev_fwd = self.forward;
                let ghost kold = k as int;
                assert forall|key: (Seq<char>, Seq<char>)|
                    prev.contains_key(key) == (m1.contains_key(key) && !(key.1 == id@ && ss.take(
                        kold,
                    ).contains(key.0))) by {}
                assert forall|a: Seq<char>, b: Seq<char>|
                    prev_fwd.linked(a, b) == (fwd1.linked(a, b) && !(b == id@ && ss.take(
                        kold,
                    ).contains(a))) by {}
                self.drop_record(s, id);
                self.forward.unlink(s, id);
                k += 1;
                proof {
                    assert forall|key: (Seq<char>, Seq<char>)|
                        self@.contains_key(key) == (m1.contains_key(key) && !(key.1 == id@ && ss.take(
                            k as int,
                        ).contains(key.0))) by {
                        assert(ss.take(k as int).contains(key.0) == (ss.take(kold).contains(key.0) || key.0 == s@));
                        assert(prev.contains_key(key) == (m1.contains_key(key) && !(key.1 == id@ && ss.take(
                        kold,
                    ).contains(key.0))));
                    }
                    assert forall|a: Seq<char>, b: Seq<char>|
                        self.forward.linked(a, b) == (fwd1.linked(a, b) && !(b == id@ && ss.take(
                            k as int,
                        ).contains(a))) by {
                        assert(ss.take(k as int).contains(a) == (ss.take(kold).contains(a) || a == s@));
                        assert(prev_fwd.linked(a, b) == (fwd1.linked(a, b) && !(b == id@ && ss.take(
                        kold,
                    ).contains(a))));
                    }
                }
            }
            proof {
                assert(ss.take(k as int) =~= ss);
                assert forall|a: Seq<char>, b: Seq<char>|
                    self.forward.linked(a, b) == (fwd1.linked(a, b) && !(b == id@ && rev1.linked(id@, a))) by {}
            }
        } else {
            proof {
                assert forall|key: (Seq<char>, Seq<char>)| !(key.1 == id@ && m1.contains_key(key)) by {
                    if key.1 == id@ && m1.contains_key(key) {
                        assert(m0.contains_key(key));
                        assert(rev0.linked(key.1, key.0));
                    }
                }
                assert forall|a: Seq<char>, b: Seq<char>|
                    self.forward.linked(a, b) == (fwd1.linked(a, b) && !(b == id@ && rev1.linked(id@, a))) by {}
            }
        }
        proof {
            assert forall|x: Seq<char>, y: Seq<char>|
                self@.contains_key((x, y)) == self.forward.linked(x, y) && self@.contains_key((x, y))
                    == self.reverse.linked(y, x) by {
                assert(self.forward.linked(x, y) == (fwd1.linked(x, y) && !(y == id@ && rev1.linked(id@, x))));
                assert(fwd1.linked(x, y) == (fwd0.linked(x, y) && x != id@));
                assert(rev1.linked(id@, x) == (rev0.linked(id@, x) && x != id@));
                assert(m0.contains_key((x, y)) == fwd0.linked(x, y));
                assert(m0.contains_key((x, id@)) == rev0.linked(id@, x));
                assert(m1.contains_key((x, y)) == (m0.contains_key((x, y)) && x != id@));
            }
            assert forall|key: (Seq<char>, Seq<char>)|
                self@.contains_key(key) == (m1.contains_key(key) && key.1 != id@) by {
                if key.1 == id@ && m1.contains_key(key) {
                    assert(m0.contains_key(key));
                    assert(rev0.linked(key.1, key.0));
                }
            }
            assert forall|key: (Seq<char>, Seq<char>)| self@.contains_key(key) implies self@[key]
                == m0[key] by {
                assert(m1.contains_key(key));
            }
            assert(self@ =~= detach_edges(m0, id@));
        }
    }

    /// Entries whose validity is contingent on `from` (forward neighbors),
    /// each once.
    pub fn dependents_of(&self, from: &EntryId) -> (r: Vec<EntryId>)
        requires
            self.wf(),
        ensures
            id_texts(r@).no_duplicates(),
            forall|y: Seq<char>| id_texts(r@).contains(y) <==> self@.contains_key((from@, y)),
    {
        self.forward.neighbors(from)
    }

    /// Entries that `to` depends on (reverse neighbors), each once.
    pub fn dependencies_of(&self, to: &EntryId) -> (r: Vec<EntryId>)
        requires
            self.wf(),
        ensures
            id_texts(r@).no_duplicates(),
            forall|x: Seq<char>| id_texts(r@).contains(x) <==> self@.contains_key((x, to@)),
    {
        self.reverse.neighbors(to)
    }

    /// Look up a dependency by endpoints.
    pub fn get(&self, from: &EntryId, to: &EntryId) -> (r: Option<&Dependency>)
        requires
            self.wf(),
        ensures
            match r {
                Some(d) => self@.contains_key((from@, to@)) && d@ == (EdgeModel {
                    from: from@,
                    to: to@,
                    meaning: self@[(from@, to@)],
                }),
                None => !self@.contains_key((from@, to@)),
            },
    {
        match self.find(from, to) {
            Some(i) => {
                proof {
                    lemma_keyed_index(dependency_keys(self.edges@), dependency_meanings(self.edges@), i as int);
                }
                Some(&self.edges[i])
            },
            None => None,
        }
    }

    /// All dependency records, one per pair of endpoints.
    pub fn iter(&self) -> (r: &[Dependency])
        requires
            self.wf(),
        ensures
            r@ == self.records(),
            assoc(dependency_keys(r@), dependency_meanings(r@)),
            keyed(dependency_keys(r@), dependency_meanings(r@)) == self@,
    {
        self.edges.as_slice()
    }

    /// Remove meaning attachments that point to the given entry; returns how
    /// many records had one.
    pub fn clear_meanings_for(&mut self, id: &EntryId) -> (r: usize)
        requires
            old(self).wf(),
        ensures
            final(self).wf(),
            final(self)@ == clear_meanings(old(self)@, id@),
            r == old(self).records().filter(|d: Dependency| d@.meaning == Some(id@)).len(),
    {
        let ghost old_edges = self.edges@;
        let ghost pred = |d: Dependency| d@.meaning == Some(id@);
        assert forall|d: Dependency| #[trigger] pred(d) == (d@.meaning == Some(id@)) by {}
        let mut cleared: usize = 0;
        let mut i: usize = 0;
        while i < self.edges.len()
            invariant
                self.edges@.len() == old_edges.len(),
                i <= old_edges.len(),
                self.forward == old(self).forward,
                self.reverse == old(self).reverse,
                old_edges == old(self).edges@,
                dependency_keys(self.edges@) == dependency_keys(old_edges),
                forall|j: int|
                    0 <= j < old_edges.len() ==> #[trigger] dependency_meanings(self.edges@)[j] == if j
                        < i && dependency_meanings(old_edges)[j] == Some(id@) {
                        None
                    } else {
                        dependency_meanings(old_edges)[j]
                    },
                cleared == old_edges.take(i as int).filter(pred).len(),
                pred == (|d: Dependency| d@.meaning == Some(id@)),
                cleared <= i,
            decreases old_edges.len() - i,
        {
            proof {
                assert(old_edges.take(i + 1) =~= old_edges.take(i as int).push(old_edges[i as int]));
                old_edges.take(i as int).lemma_filter_len_push(pred, old_edges[i as int]);
                assert(dependency_meanings(self.edges@)[i as int] == dependency_meanings(old_edges)[i as int]);
            }
            let ghost before = self.edges@;
            if self.edges[i].meaning_matches(id) {
                let mut dep = self.edges[i].clone();
                dep.clear_meaning();
                self.edges.set(i, dep);
                cleared += 1;
                proof {
                    assert forall|j: int| 0 <= j < old_edges.len() implies #[trigger] dependency_keys(self.edges@)[j] == dependency_keys(old_edges)[j] by {
                        if j != i {
                            assert(self.edges@[j] == before[j]);
                            assert(dependency_keys(before)[j] == dependency_keys(old_edges)[j]);
                        }
                    }
                    assert(dependency_keys(self.edges@) =~= dependency_keys(old_edges));
                    assert forall|j: int| 0 <= j < old_edges.len() implies #[trigger] dependency_meanings(self.edges@)[j] == if j
                        < i + 1 && dependency_meanings(old_edges)[j] == Some(id@) {
                        None
                    } else {
                        dependency_meanings(old_edges)[j]
                    } by {
                        if j != i {
                            assert(self.edges@[j] == before[j]);
                            assert(dependency_meanings(before)[j] == dependency_meanings(self.edges@)[j]);
                        }
                    }
                }
            }
            i += 1;
            proof {
                assert(old_edges.take(i as int) == old_edges.take(i - 1).push(old_edges[i - 1]));
                assert(pred(old_edges[i - 1]) == (dependency_meanings(old_edges)[i - 1] == Some(id@)));
            }
        }
        proof {
            assert(old_edges.take(i as int) =~= old_edges);
            let keys = dependency_keys(old_edges);
            assert forall|k: (Seq<char>, Seq<char>)| #[trigger] self@.contains_key(k) implies self@[k]
                == clear_meanings(old(self)@, id@)[k] by {
                assert(keys.contains(k));
                let w: int = choose|w: int| 0 <= w < keys.len() && keys[w] == k;
                crate::keyed::lemma_key_index(keys, w);
            }
            assert(self@ =~= clear_meanings(old(self)@, id@));
            assert forall|x: Seq<char>, y: Seq<char>|
                self@.contains_key((x, y)) == old(self)@.contains_key((x, y)) by {}
        }
        cleared
    }
}

impl Default for DependencyIndex {
    fn default() -> (r: Self)
        ensures
            r.wf(),
            r@ == EdgeMap::empty(),
    {
        DependencyIndex::new()
    }
}

} // verus!

verus! {

/// Errors arising from graph operations.
#[derive(Debug)]
pub enum GraphError {
    /// An entry with this id already exists.
    DuplicateEntry(EntryId),
    /// No entry with this id exists.
    EntryNotFound(EntryId),
}

/// The groundings attached to one entry.
#[derive(Clone, Debug)]
struct GroundingSlot {
    entry: EntryId,
    groundings: Vec<Grounding>,
}

/// Mathematical model of the knowledge graph.
pub struct GraphModel {
    /// Entries keyed by id.
    pub entries: Map<Seq<char>, EntryModel>,
    /// Dependency edges keyed by endpoints.
    pub dependencies: EdgeMap,
    /// Affinity edges keyed by endpoints.
    pub affinities: EdgeMap,
    /// Groundings of each entry that has any, in attachment order.
    pub groundings: Map<Seq<char>, Seq<Grounding>>,
    /// Locked entries.
    pub locks: Set<Seq<char>>,
}

/// Whether every endpoint and explaining entry of the edges in `edges`
/// names an entry of `entries`.
pub open spec fn edges_resolve(edges: EdgeMap, entries: Map<Seq<char>, EntryModel>) -> bool {
    forall|k: (Seq<char>, Seq<char>)|
        #[trigger] edges.contains_key(k) ==> {
            &&& entries.contains_key(k.0)
            &&& entries.contains_key(k.1)
            &&& (edges[k] matches Some(m) ==> entries.contains_key(m))
        }
}

/// The first id that an edge names and that `entries` lacks: its source,
/// then its target, then its explaining entry.
pub open spec fn edge_missing(e: EdgeModel, entries: Map<Seq<char>, EntryModel>) -> Option<
    Seq<char>,
> {
    if !entries.contains_key(e.from) {
        Some(e.from)
    } else if !entries.contains_key(e.to) {
        Some(e.to)
    } else {
        match e.meaning {
            Some(m) => if !entries.contains_key(m) {
                Some(m)
            } else {
                None
            },
            None => None,
        }
    }
}

impl GraphModel {
    /// Referential integrity: every edge endpoint, every explaining entry,
    /// every grounding owner and every lock names an existing entry; no
    /// affinity joins an entry to itself.
    pub open spec fn references_resolve(self) -> bool {
        &&& edges_resolve(self.dependencies, self.entries)
        &&& edges_resolve(self.affinities, self.entries)
        &&& forall|k: (Seq<char>, Seq<char>)| #[trigger] self.affinities.contains_key(k) ==> k.0 != k.1
        &&& forall|id: Seq<char>| #[trigger] self.groundings.contains_key(id) ==> self.entries.contains_key(id)
        &&& forall|id: Seq<char>| #[trigger] self.locks.contains(id) ==> self.entries.contains_key(id)
    }

    /// The graph without entry `id`: its edges, groundings and lock are gone
    /// and no remaining edge is explained by it.
    pub open spec fn without_entry(self, id: Seq<char>) -> GraphModel {
        GraphModel {
            entries: self.entries.remove(id),
            dependencies: clear_meanings(detach_edges(self.dependencies, id), id),
            affinities: clear_meanings(detach_edges(self.affinities, id), id),
            groundings: self.groundings.remove(id),
            locks: self.locks.remove(id),
        }
    }

    /// The groundings of `id`, empty when it has none.
    pub open spec fn groundings_of(self, id: Seq<char>) -> Seq<Grounding> {
        if self.groundings.contains_key(id) {
            self.groundings[id]
        } else {
            Seq::empty()
        }
    }
}

/// The ids of a sequence of entries.
pub open spec fn entry_ids(s: Seq<Entry>) -> Seq<Seq<char>> {
    s.map_values(|e: Entry| e@.id)
}

/// The models of a sequence of entries.
pub open spec fn entry_models(s: Seq<Entry>) -> Seq<EntryModel> {
    s.map_values(|e: Entry| e@)
}

/// The endpoints of each affinity record, in order.
pub open spec fn affinity_keys(s: Seq<Affinity>) -> Seq<(Seq<char>, Seq<char>)> {
    s.map_values(|a: Affinity| (a@.from, a@.to))
}

/// The explaining entry of each affinity record, in order.
pub open spec fn affinity_meanings(s: Seq<Affinity>) -> Seq<Option<Seq<char>>> {
    s.map_values(|a: Affinity| a@.meaning)
}

/// Endpoint pairs sort by source, then by target, each as `str` sorts.
pub open spec fn key_lt(a: (Seq<char>, Seq<char>), b: (Seq<char>, Seq<char>)) -> bool {
    text_lt(a.0, b.0) || (a.0 == b.0 && text_lt(a.1, b.1))
}

/// Strictly ascending keys.
pub open spec fn ascending(keys: Seq<(Seq<char>, Seq<char>)>) -> bool {
    forall|i: int, j: int| 0 <= i < j < keys.len() ==> key_lt(#[trigger] keys[i], #[trigger] keys[j])
}

spec fn slot_ids(s: Seq<GroundingSlot>) -> Seq<Seq<char>> {
    s.map_values(|g: GroundingSlot| g.entry@)
}

spec fn slot_groundings(s: Seq<GroundingSlot>) -> Seq<Seq<Grounding>> {
    s.map_values(|g: GroundingSlot| g.groundings@)
}

proof fn lemma_key_lt_irreflexive(a: (Seq<char>, Seq<char>), b: (Seq<char>, Seq<char>))
    requires
        key_lt(a, b),
    ensures
        !key_lt(b, a),
        a != b,
{
    if text_lt(a.0, b.0) {
        lemma_text_lt_irreflexive(a.0, b.0);
    } else {
        lemma_text_lt_irreflexive(a.1, b.1);
    }
}

proof fn lemma_key_lt_total(a: (Seq<char>, Seq<char>), b: (Seq<char>, Seq<char>))
    requires
        a != b,
    ensures
        key_lt(a, b) || key_lt(b, a),
{
    if a.0 != b.0 {
        lemma_text_lt_total(a.0, b.0);
    } else {
        assert(a.1 != b.1);
        lemma_text_lt_total(a.1, b.1);
    }
}

proof fn lemma_key_lt_transitive(
    a: (Seq<char>, Seq<char>),
    b: (Seq<char>, Seq<char>),
    c: (Seq<char>, Seq<char>),
)
    requires
        key_lt(a, b),
        key_lt(b, c),
    ensures
        key_lt(a, c),
{
    if text_lt(a.0, b.0) && text_lt(b.0, c.0) {
        lemma_text_lt_transitive(a.0, b.0, c.0);
    } else if text_lt(a.0, b.0) {
    } else if text_lt(b.0, c.0) {
    } else {
        lemma_text_lt_transitive(a.1, b.1, c.1);
    }
}

/// Find the entry with the given id.
fn find_entry(entries: &Vec<Entry>, id: &EntryId) -> (r: Option<usize>)
    ensures
        match r {
            Some(i) => i < entries@.len() && entry_ids(entries@)[i as int] == id@,
            None => !entry_ids(entries@).contains(id@),
        },
{
    let mut i: usize = 0;
    while i < entries.len()
        invariant
            i <= entries@.len(),
            forall|j: int| 0 <= j < i ==> entry_ids(entries@)[j] != id@,
        decreases entries@.len() - i,
    {
        if *entries[i].id() == *id {
            return Some(i);
        }
        i += 1;
    }
    None
}

/// Find a lock on the given id.
fn find_lock(locks: &Vec<EntryId>, id: &EntryId) -> (r: Option<usize>)
    ensures
        match r {
            Some(i) => i < locks@.len() && id_texts(locks@)[i as int] == id@,
            None => !id_texts(locks@).contains(id@),
        },
{
    let mut i: usize = 0;
    while i < locks.len()
        invariant
            i <= locks@.len(),
            forall|j: int| 0 <= j < i ==> id_texts(locks@)[j] != id@,
        decreases locks@.len() - i,
    {
        if locks[i] == *id {
            return Some(i);
        }
        i += 1;
    }
    None
}

/// Find the grounding slot of the given id.
fn find_slot(slots: &Vec<GroundingSlot>, id: &EntryId) -> (r: Option<usize>)
    ensures
        match r {
            Some(i) => i < slots@.len() && slot_ids(slots@)[i as int] == id@,
            None => !slot_ids(slots@).contains(id@),
        },
{
    let mut i: usize = 0;
    while i < slots.len()
        invariant
            i <= slots@.len(),
            forall|j: int| 0 <= j < i ==> slot_ids(slots@)[j] != id@,
        decreases slots@.len() - i,
    {
        if slots[i].entry == *id {
            return Some(i);
        }
        i += 1;
    }
    None
}


/// Compare the endpoints of `a` with the pair (`from`, `to`).
fn compare_key(a: &Affinity, from: &EntryId, to: &EntryId) -> (r: TextOrder)
    ensures
        r is Less <==> key_lt((a@.from, a@.to), (from@, to@)),
        r is Equal <==> (a@.from, a@.to) == (from@, to@),
        r is Greater <==> key_lt((from@, to@), (a@.from, a@.to)),
{
    match compare_text(a.from().as_str(), from.as_str()) {
        TextOrder::Less => {
            proof {
                lemma_text_lt_irreflexive(a@.from, from@);
            }
            TextOrder::Less
        },
        TextOrder::Greater => {
            proof {
                lemma_text_lt_irreflexive(from@, a@.from);
            }
            TextOrder::Greater
        },
        TextOrder::Equal => {
            let r = compare_text(a.to().as_str(), to.as_str());
            proof {
                if text_lt(a@.to, to@) {
                    lemma_text_lt_irreflexive(a@.to, to@);
                }
                if text_lt(to@, a@.to) {
                    lemma_text_lt_irreflexive(to@, a@.to);
                }
                if text_lt(a@.from, from@) {
                    lemma_text_lt_irreflexive(a@.from, from@);
                }
            }
            r
        },
    }
}

/// The position at which the pair (`from`, `to`) stands, or would stand, in
/// ascending affinities, and whether it is there.
fn locate_affinity(affinities: &Vec<Affinity>, from: &EntryId, to: &EntryId) -> (r: (usize, bool))
    requires
        ascending(affinity_keys(affinities@)),
        assoc(affinity_keys(affinities@), affinity_meanings(affinities@)),
    ensures
        r.0 <= affinities@.len(),
        forall|i: int| 0 <= i < r.0 ==> key_lt(#[trigger] affinity_keys(affinities@)[i], (from@, to@)),
        r.1 <==> affinity_keys(affinities@).contains((from@, to@)),
        r.1 ==> r.0 < affinities@.len() && affinity_keys(affinities@)[r.0 as int] == (from@, to@),
        !r.1 ==> forall|i: int|
            r.0 <= i < affinities@.len() ==> key_lt((from@, to@), #[trigger] affinity_keys(affinities@)[i]),
{
    let ghost keys = affinity_keys(affinities@);
    let ghost k = (from@, to@);
    let mut i: usize = 0;
    while i < affinities.len()
        invariant
            keys == affinity_keys(affinities@),
            k == (from@, to@),
            i <= affinities@.len(),
            forall|j: int| 0 <= j < i ==> key_lt(#[trigger] keys[j], k),
        ensures
            i <= affinities@.len(),
            forall|j: int| 0 <= j < i ==> key_lt(#[trigger] keys[j], k),
            i < affinities@.len() ==> !key_lt(keys[i as int], k),
        decreases affinities@.len() - i,
    {
        match compare_key(&affinities[i], from, to) {
            TextOrder::Less => {},
            _ => {
                break;
            },
        }
        i += 1;
    }
    if i == affinities.len() {
        proof {
            assert forall|j: int| 0 <= j < keys.len() implies keys[j] != k by {
                lemma_key_lt_irreflexive(keys[j], k);
            }
        }
        return (i, false);
    }
    let found = match compare_key(&affinities[i], from, to) {
        TextOrder::Equal => true,
        _ => false,
    };
    proof {
        if !found {
            lemma_key_lt_total(keys[i as int], k);
            assert forall|j: int| i <= j < keys.len() implies key_lt(k, #[trigger] keys[j]) by {
                if j > i {
                    lemma_key_lt_transitive(k, keys[i as int], keys[j]);
                }
            }
            assert forall|j: int| 0 <= j < keys.len() implies keys[j] != k by {
                if j < i {
                    lemma_key_lt_irreflexive(keys[j], k);
                } else {
                    lemma_key_lt_irreflexive(k, keys[j]);
                }
            }
        } else {
            assert(keys[i as int] == k);
        }
    }
    (i, found)
}


/// Drop every affinity that touches `id`, keeping the others in order.
fn detach_affinities(affinities: &mut Vec<Affinity>, id: &EntryId)
    requires
        assoc(affinity_keys(old(affinities)@), affinity_meanings(old(affinities)@)),
        ascending(affinity_keys(old(affinities)@)),
    ensures
        assoc(affinity_keys(final(affinities)@), affinity_meanings(final(affinities)@)),
        ascending(affinity_keys(final(affinities)@)),
        keyed(affinity_keys(final(affinities)@), affinity_meanings(final(affinities)@))
            == detach_edges(
            keyed(affinity_keys(old(affinities)@), affinity_meanings(old(affinities)@)),
            id@,
        ),
{
    let ghost keys = affinity_keys(affinities@);
    let ghost vals = affinity_meanings(affinities@);
    let ghost m = keyed(keys, vals);
    let mut kept: Vec<Affinity> = Vec::new();
    let mut i: usize = 0;
    proof {
        assert(affinity_keys(kept@) =~= Seq::empty());
        assert(affinity_meanings(kept@) =~= Seq::empty());
    }
    while i < affinities.len()
        invariant
            keys == affinity_keys(affinities@),
            vals == affinity_meanings(affinities@),
            m == keyed(keys, vals),
            assoc(keys, vals),
            ascending(keys),
            i <= keys.len(),
            assoc(affinity_keys(kept@), affinity_meanings(kept@)),
            ascending(affinity_keys(kept@)),
            forall|a: int, b: int|
                0 <= a < kept@.len() && i <= b < keys.len() ==> key_lt(
                    #[trigger] affinity_keys(kept@)[a],
                    #[trigger] keys[b],
                ),
            forall|k: (Seq<char>, Seq<char>)|
                #[trigger] keyed(affinity_keys(kept@), affinity_meanings(kept@)).contains_key(k) == (
                keys.take(i as int).contains(k) && k.0 != id@ && k.1 != id@),
            forall|k: (Seq<char>, Seq<char>)|
                #[trigger] keyed(affinity_keys(kept@), affinity_meanings(kept@)).contains_key(k)
                    ==> keyed(affinity_keys(kept@), affinity_meanings(kept@))[k] == m[k],
        decreases keys.len() - i,
    {
        let ghost kk = affinity_keys(kept@);
        let ghost kv = affinity_meanings(kept@);
        let ghost ki = keys[i as int];
        proof {
            lemma_keyed_index(keys, vals, i as int);
            assert(keys.take(i + 1) =~= keys.take(i as int).push(ki));
            assert forall|k: (Seq<char>, Seq<char>)| keys.take(i + 1).contains(k) == (keys.take(
                i as int,
            ).contains(k) || k == ki) by {
                if k == ki {
                    assert(keys.take(i + 1)[i as int] == k);
                }
                if keys.take(i as int).contains(k) {
                    let j: int = choose|j: int| 0 <= j < i && keys.take(i as int)[j] == k;
                    assert(keys.take(i + 1)[j] == k);
                }
            }
        }
        if !affinities[i].contains(id) {
            let a = affinities[i].clone();
            proof {
                assert forall|j: int| 0 <= j < kk.len() implies kk[j] != ki by {
                    lemma_key_lt_irreflexive(kk[j], ki);
                }
                lemma_keyed_push(kk, kv, ki, vals[i as int]);
            }
            kept.push(a);
            proof {
                assert(affinity_keys(kept@) =~= kk.push(ki));
                assert(affinity_meanings(kept@) =~= kv.push(vals[i as int]));
                let nk = affinity_keys(kept@);
                assert forall|x: int, y: int| 0 <= x < y < nk.len() implies key_lt(#[trigger] nk[x], #[trigger] nk[y]) by {
                    if y < kk.len() {
                        assert(nk[x] == kk[x] && nk[y] == kk[y]);
                    } else {
                        assert(nk[x] == kk[x]);
                    }
                }
                assert forall|x: int, b: int| 0 <= x < nk.len() && i + 1 <= b < keys.len() implies key_lt(
                    #[trigger] nk[x], #[trigger] keys[b]) by {
                    if x < kk.len() {
                        assert(nk[x] == kk[x]);
                    } else {
                        assert(nk[x] == ki);
                    }
                }
                assert forall|k: (Seq<char>, Seq<char>)|
                    #[trigger] keyed(affinity_keys(kept@), affinity_meanings(kept@)).contains_key(k) == (
                    keys.take(i + 1).contains(k) && k.0 != id@ && k.1 != id@) by {
                    assert(keyed(kk, kv).contains_key(k) == (keys.take(i as int).contains(k) && k.0 != id@ && k.1 != id@));
                }
            }
        } else {
            proof {
                assert forall|x: int, b: int| 0 <= x < kk.len() && i + 1 <= b < keys.len() implies key_lt(
                    #[trigger] kk[x], #[trigger] keys[b]) by {}
                assert forall|k: (Seq<char>, Seq<char>)|
                    #[trigger] keyed(kk, kv).contains_key(k) == (
                    keys.take(i + 1).contains(k) && k.0 != id@ && k.1 != id@) by {
                    assert(keyed(kk, kv).contains_key(k) == (keys.take(i as int).contains(k) && k.0 != id@ && k.1 != id@));
                }
            }
        }
        i += 1;
    }
    proof {
        assert(keys.take(i as int) =~= keys);
        lemma_keyed_dom(keys, vals);
        assert(keyed(affinity_keys(kept@), affinity_meanings(kept@)) =~= detach_edges(m, id@));
    }
    *affinities = kept;
}

/// Drop every explanation by `id` from the affinities.
fn clear_affinity_meanings(affinities: &mut Vec<Affinity>, id: &EntryId)
    requires
        assoc(affinity_keys(old(affinities)@), affinity_meanings(old(affinities)@)),
        ascending(affinity_keys(old(affinities)@)),
    ensures
        affinity_keys(final(affinities)@) == affinity_keys(old(affinities)@),
        assoc(affinity_keys(final(affinities)@), affinity_meanings(final(affinities)@)),
        ascending(affinity_keys(final(affinities)@)),
        keyed(affinity_keys(final(affinities)@), affinity_meanings(final(affinities)@))
            == clear_meanings(
            keyed(affinity_keys(old(affinities)@), affinity_meanings(old(affinities)@)),
            id@,
        ),
{
    let ghost old_affs = affinities@;
    let ghost keys = affinity_keys(old_affs);
    let ghost vals = affinity_meanings(old_affs);
    let mut i: usize = 0;
    while i < affinities.len()
        invariant
            affinities@.len() == old_affs.len(),
            keys == affinity_keys(old_affs),
            vals == affinity_meanings(old_affs),
            i <= old_affs.len(),
            affinity_keys(affinities@) == keys,
            forall|j: int|
                0 <= j < old_affs.len() ==> #[trigger] affinity_meanings(affinities@)[j] == if j < i
                    && vals[j] == Some(id@) {
                    None
                } else {
                    vals[j]
                },
        decreases old_affs.len() - i,
    {
        let ghost before = affinities@;
        proof {
            assert(affinity_meanings(before)[i as int] == vals[i as int]);
        }
        if affinities[i].meaning_matches(id) {
            let mut a = affinities[i].clone();
            a.clear_meaning();
            affinities.set(i, a);
            proof {
                assert forall|j: int| 0 <= j < old_affs.len() implies #[trigger] affinity_keys(affinities@)[j] == keys[j] by {
                    if j != i {
                        assert(affinities@[j] == before[j]);
                        assert(affinity_keys(before)[j] == keys[j]);
                    }
                }
                assert(affinity_keys(affinities@) =~= keys);
                assert forall|j: int| 0 <= j < old_affs.len() implies #[trigger] affinity_meanings(affinities@)[j] == if j < i + 1
                    && vals[j] == Some(id@) {
                    None
                } else {
                    vals[j]
                } by {
                    if j != i {
                        assert(affinities@[j] == before[j]);
                        assert(affinity_meanings(before)[j] == affinity_meanings(affinities@)[j]);
                    }
                }
            }
        }
        i += 1;
    }
    proof {
        let nv = affinity_meanings(affinities@);
        assert forall|k: (Seq<char>, Seq<char>)| #[trigger] keyed(keys, nv).contains_key(k) implies keyed(keys, nv)[k]
            == clear_meanings(keyed(keys, vals), id@)[k] by {
            let w: int = choose|w: int| 0 <= w < keys.len() && keys[w] == k;
            crate::keyed::lemma_key_index(keys, w);
        }
        assert(keyed(keys, nv) =~= clear_meanings(keyed(keys, vals), id@));
    }
}

/// Drop the groundings of `id`.
fn remove_slot(slots: &mut Vec<GroundingSlot>, id: &EntryId)
    requires
        assoc(slot_ids(old(slots)@), slot_groundings(old(slots)@)),
    ensures
        assoc(slot_ids(final(slots)@), slot_groundings(final(slots)@)),
        keyed(slot_ids(final(slots)@), slot_groundings(final(slots)@)) == keyed(
            slot_ids(old(slots)@),
            slot_groundings(old(slots)@),
        ).remove(id@),
{
    let ghost old_slots = slots@;
    match find_slot(slots, id) {
        Some(i) => {
            proof {
                lemma_keyed_remove(slot_ids(old_slots), slot_groundings(old_slots), i as int);
            }
            slots.remove(i);
            proof {
                assert(slot_ids(slots@) =~= slot_ids(old_slots).remove(i as int));
                assert(slot_groundings(slots@) =~= slot_groundings(old_slots).remove(i as int));
            }
        },
        None => {
            proof {
                assert(keyed(slot_ids(old_slots), slot_groundings(old_slots)).remove(id@) =~= keyed(
                    slot_ids(old_slots),
                    slot_groundings(old_slots),
                ));
            }
        },
    }
}

/// Drop the lock on `id`; report whether there was one.
fn remove_lock(locks: &mut Vec<EntryId>, id: &EntryId) -> (r: bool)
    requires
        id_texts(old(locks)@).no_duplicates(),
    ensures
        id_texts(final(locks)@).no_duplicates(),
        r == id_texts(old(locks)@).to_set().contains(id@),
        id_texts(final(locks)@).to_set() == id_texts(old(locks)@).to_set().remove(id@),
{
    let ghost old_locks = id_texts(locks@);
    match find_lock(locks, id) {
        Some(i) => {
            locks.remove(i);
            proof {
                let s = id_texts(locks@);
                assert(s =~= old_locks.remove(i as int));
                assert(s.no_duplicates()) by {
                    assert forall|a: int, b: int| 0 <= a < s.len() && 0 <= b < s.len() && a != b implies s[a] != s[b] by {
                        let a2: int = if a < i { a } else { a + 1 };
                        let b2: int = if b < i { b } else { b + 1 };
                        assert(s[a] == old_locks[a2]);
                        assert(s[b] == old_locks[b2]);
                    }
                }
                assert forall|x: Seq<char>| s.to_set().contains(x) == old_locks.to_set().remove(id@).contains(x) by {
                    if s.contains(x) {
                        let k: int = choose|k: int| 0 <= k < s.len() && s[k] == x;
                        let k2: int = if k < i { k } else { k + 1 };
                        assert(old_locks[k2] == x);
                        assert(k2 != i);
                    }
                    if old_locks.contains(x) && x != id@ {
                        let k: int = choose|k: int| 0 <= k < old_locks.len() && old_locks[k] == x;
                        assert(k != i);
                        if k < i {
                            assert(s[k] == x);
                        } else {
                            assert(s[k - 1] == x);
                        }
                    }
                }
                assert(s.to_set() =~= old_locks.to_set().remove(id@));
                assert(old_locks[i as int] == id@);
                assert(old_locks.to_set().contains(id@));
            }
            true
        },
        None => {
            proof {
                assert(old_locks.to_set().remove(id@) =~= old_locks.to_set());
            }
            false
        },
    }
}

/// The knowledge graph.
///
/// Holds entries keyed by id, edges (dependencies and affinities), groundings
/// per entry, and the set of locked entry ids. Affinities are kept in
/// ascending order of their endpoints.
#[derive(Clone, Debug)]
pub struct Graph {
    entries: Vec<Entry>,
    dependencies: DependencyIndex,
    affinities: Vec<Affinity>,
    groundings: Vec<GroundingSlot>,
    locks: Vec<EntryId>,
}

impl View for Graph {
    type V = GraphModel;

    closed spec fn view(&self) -> GraphModel {
        GraphModel {
            entries: keyed(entry_ids(self.entries@), entry_models(self.entries@)),
            dependencies: self.dependencies@,
            affinities: keyed(affinity_keys(self.affinities@), affinity_meanings(self.affinities@)),
            groundings: keyed(slot_ids(self.groundings@), slot_groundings(self.groundings@)),
            locks: id_texts(self.locks@).to_set(),
        }
    }
}

impl Graph {
    /// Well-formedness: ids are unique in every collection, the dependency
    /// index is consistent, affinities ascend, and every reference resolves.
    pub closed spec fn wf(self) -> bool {
        &&& assoc(entry_ids(self.entries@), entry_models(self.entries@))
        &&& self.dependencies.wf()
        &&& assoc(affinity_keys(self.affinities@), affinity_meanings(self.affinities@))
        &&& ascending(affinity_keys(self.affinities@))
        &&& assoc(slot_ids(self.groundings@), slot_groundings(self.groundings@))
        &&& id_texts(self.locks@).no_duplicates()
        &&& self@.references_resolve()
    }

    /// Every well-formed graph has resolving references.
    pub proof fn lemma_references_resolve(&self)
        requires
            self.wf(),
        ensures
            self@.references_resolve(),
    {
    }

    /// Construct an empty graph.
    pub fn new() -> (r: Graph)
        ensures
            r.wf(),
            r@.entries == Map::<Seq<char>, EntryModel>::empty(),
            r@.dependencies == EdgeMap::empty(),
            r@.affinities == EdgeMap::empty(),
            r@.groundings == Map::<Seq<char>, Seq<Grounding>>::empty(),
            r@.locks == Set::<Seq<char>>::empty(),
    {
        let r = Graph {
            entries: Vec::new(),
            dependencies: DependencyIndex::new(),
            affinities: Vec::new(),
            groundings: Vec::new(),
            locks: Vec::new(),
        };
        proof {
            assert(entry_ids(r.entries@) =~= Seq::empty());
            assert(affinity_keys(r.affinities@) =~= Seq::empty());
            assert(slot_ids(r.groundings@) =~= Seq::empty());
            assert(id_texts(r.locks@) =~= Seq::empty());
            assert(r@.entries =~= Map::<Seq<char>, EntryModel>::empty());
            assert(r@.affinities =~= EdgeMap::empty());
            assert(r@.groundings =~= Map::<Seq<char>, Seq<Grounding>>::empty());
            assert(r@.locks =~= Set::<Seq<char>>::empty());
        }
        r
    }

    // -- entries -------------------------------------------------------------

    /// Insert a new entry. Fails if an entry with the same id already exists.
    pub fn insert_entry(&mut self, entry: Entry) -> (r: Result<(), GraphError>)
        requires
            old(self).wf(),
        ensures
            final(self).wf(),
            r is Ok <==> !old(self)@.entries.contains_key(entry@.id),
            r matches Ok(_) ==> final(self)@ == (GraphModel {
                entries: old(self)@.entries.insert(entry@.id, entry@),
                ..old(self)@
            }),
            r matches Err(e) ==> final(self)@ == old(self)@ && (e matches GraphError::DuplicateEntry(x) && x@ == entry@.id),
    {
        let ghost old_entries = self.entries@;
        let id = entry.id().clone();
        match find_entry(&self.entries, &id) {
            Some(i) => {
                proof {
                    lemma_keyed_index(entry_ids(old_entries), entry_models(old_entries), i as int);
                }
                Err(GraphError::DuplicateEntry(id))
            },
            None => {
                proof {
                    lemma_keyed_push(entry_ids(old_entries), entry_models(old_entries), id@, entry@);
                }
                self.entries.push(entry);
                proof {
                    assert(entry_ids(self.entries@) =~= entry_ids(old_entries).push(id@));
                    assert(entry_models(self.entries@) =~= entry_models(old_entries).push(entry@));
                    assert(self@.references_resolve());
                }
                Ok(())
            },
        }
    }

    /// Look up an entry by id.
    pub fn entry(&self, id: &EntryId) -> (r: Option<&Entry>)
        requires
            self.wf(),
        ensures
            match r {
                Some(e) => self@.entries.contains_key(id@) && e@ == self@.entries[id@],
                None => !self@.entries.contains_key(id@),
            },
    {
        match find_entry(&self.entries, id) {
            Some(i) => {
                proof {
                    lemma_keyed_index(entry_ids(self.entries@), entry_models(self.entries@), i as int);
                }
                Some(&self.entries[i])
            },
            None => None,
        }
    }

    /// All entries, each id once.
    pub fn entries(&self) -> (r: &[Entry])
        requires
            self.wf(),
        ensures
            assoc(entry_ids(r@), entry_models(r@)),
            keyed(entry_ids(r@), entry_models(r@)) == self@.entries,
    {
        self.entries.as_slice()
    }

    /// Mutable access to an entry by id. The graph stays well formed as long
    /// as the caller leaves the entry's id unchanged, which every setter of
    /// [`Entry`] does.
    pub fn entry_mut(&mut self, id: &EntryId) -> (r: Option<&mut Entry>)
        requires
            old(self).wf(),
        ensures
            match r {
                Some(e) => {
                    &&& old(self)@.entries.contains_key(id@)
                    &&& e@ == old(self)@.entries[id@]
                    &&& final(e)@.id == id@ ==> final(self).wf() && final(self)@ == (GraphModel {
                        entries: old(self)@.entries.insert(id@, final(e)@),
                        ..old(self)@
                    })
                },
                None => !old(self)@.entries.contains_key(id@) && *final(self) == *old(self),
            },
    {
        match find_entry(&self.entries, id) {
            Some(i) => {
                proof {
                    let ids = entry_ids(self.entries@);
                    let models = entry_models(self.entries@);
                    lemma_keyed_index(ids, models, i as int);
                    assert forall|x: Entry| x@.id == id@ implies assoc(
                        entry_ids(self.entries@.update(i as int, x)),
                        entry_models(self.entries@.update(i as int, x)),
                    ) && keyed(
                        entry_ids(self.entries@.update(i as int, x)),
                        entry_models(self.entries@.update(i as int, x)),
                    ) == keyed(ids, models).insert(id@, x@) by {
                        assert(entry_ids(self.entries@.update(i as int, x)) =~= ids);
                        assert(entry_models(self.entries@.update(i as int, x)) =~= models.update(
                            i as int,
                            x@,
                        ));
                        lemma_keyed_update(ids, models, i as int, x@);
                    }
                }
                Some(&mut self.entries[i])
            },
            None => None,
        }
    }

    /// Remove an entry and all its edges, groundings, and locks. Every
    /// remaining edge that the entry explained loses its explanation.
    pub fn remove_entry(&mut self, id: &EntryId) -> (r: Option<Entry>)
        requires
            old(self).wf(),
        ensures
            final(self).wf(),
            match r {
                Some(e) => {
                    &&& old(self)@.entries.contains_key(id@)
                    &&& e@ == old(self)@.entries[id@]
                    &&& final(self)@ == old(self)@.without_entry(id@)
                },
                None => !old(self)@.entries.contains_key(id@) && final(self)@ == old(self)@,
            },
    {
        let ghost old_view = self@;
        let ghost old_entries = self.entries@;
        let i: usize = match find_entry(&self.entries, id) {
            Some(i) => i,
            None => return None,
        };
        proof {
            lemma_keyed_index(entry_ids(old_entries), entry_models(old_entries), i as int);
            lemma_keyed_remove(entry_ids(old_entries), entry_models(old_entries), i as int);
        }
        let entry = self.entries.remove(i);
        proof {
            assert(entry_ids(self.entries@) =~= entry_ids(old_entries).remove(i as int));
            assert(entry_models(self.entries@) =~= entry_models(old_entries).remove(i as int));
        }
        self.dependencies.remove_entry(id);
        detach_affinities(&mut self.affinities, id);
        self.dependencies.clear_meanings_for(id);
        clear_affinity_meanings(&mut self.affinities, id);
        remove_slot(&mut self.groundings, id);
        remove_lock(&mut self.locks, id);
        proof {
            let nv = self@;
            assert(nv.entries == old_view.entries.remove(id@));
            assert(nv.dependencies == clear_meanings(detach_edges(old_view.dependencies, id@), id@));
            assert(nv.affinities == clear_meanings(detach_edges(old_view.affinities, id@), id@));
            assert(nv.locks == old_view.locks.remove(id@));
            assert(nv == old_view.without_entry(id@));
            assert forall|k: (Seq<char>, Seq<char>)| #[trigger] nv.dependencies.contains_key(k) implies {
                &&& nv.entries.contains_key(k.0)
                &&& nv.entries.contains_key(k.1)
                &&& (nv.dependencies[k] matches Some(m) ==> nv.entries.contains_key(m))
            } by {
                assert(old_view.dependencies.contains_key(k));
            }
            assert forall|k: (Seq<char>, Seq<char>)| #[trigger] nv.affinities.contains_key(k) implies {
                &&& nv.entries.contains_key(k.0)
                &&& nv.entries.contains_key(k.1)
                &&& (nv.affinities[k] matches Some(m) ==> nv.entries.contains_key(m))
                &&& k.0 != k.1
            } by {
                assert(old_view.affinities.contains_key(k));
            }
            assert(nv.references_resolve());
        }
        Some(entry)
    }

    fn ensure_entry_exists(&self, id: &EntryId) -> (r: Result<(), GraphError>)
        requires
            self.wf(),
        ensures
            r is Ok <==> self@.entries.contains_key(id@),
            r matches Err(e) ==> e matches GraphError::EntryNotFound(x) && x@ == id@,
    {
        match find_entry(&self.entries, id) {
            Some(i) => {
                proof {
                    lemma_keyed_index(entry_ids(self.entries@), entry_models(self.entries@), i as int);
                }
                Ok(())
            },
            None => Err(GraphError::EntryNotFound(id.clone())),
        }
    }

    // -- dependencies --------------------------------------------------------

    /// Add a dependency edge. Both endpoints, and the explaining entry if
    /// any, must exist; the first missing one is reported. Returns whether
    /// the edge was new.
    pub fn add_dependency(&mut self, dep: Dependency) -> (r: Result<bool, GraphError>)
        requires
            old(self).wf(),
        ensures
            final(self).wf(),
            r is Ok <==> edge_missing(dep@, old(self)@.entries) is None,
            r matches Ok(b) ==> b == !old(self)@.dependencies.contains_key((dep@.from, dep@.to))
                && final(self)@ == (GraphModel {
                dependencies: old(self)@.dependencies.insert((dep@.from, dep@.to), dep@.meaning),
                ..old(self)@
            }),
            r matches Err(e) ==> final(self)@ == old(self)@ && (e matches GraphError::EntryNotFound(x)
                && edge_missing(dep@, old(self)@.entries) == Some(x@)),
    {
        self.ensure_entry_exists(dep.from())?;
        self.ensure_entry_exists(dep.to())?;
        if let Some(meaning) = dep.meaning() {
            self.ensure_entry_exists(meaning)?;
        }
        let ghost old_view = self@;
        let is_new = self.dependencies.insert(dep);
        proof {
            assert(self@.references_resolve()) by {
                assert forall|k: (Seq<char>, Seq<char>)| #[trigger] self@.dependencies.contains_key(k) implies {
                    &&& self@.entries.contains_key(k.0)
                    &&& self@.entries.contains_key(k.1)
                    &&& (self@.dependencies[k] matches Some(m) ==> self@.entries.contains_key(m))
                } by {
                    if k != (dep@.from, dep@.to) {
                        assert(old_view.dependencies.contains_key(k));
                    }
                }
            }
        }
        Ok(is_new)
    }

    /// Remove a dependency edge. Returns whether it existed.
    pub fn remove_dependency(&mut self, dep: &Dependency) -> (r: bool)
        requires
            old(self).wf(),
        ensures
            final(self).wf(),
            r == old(self)@.dependencies.contains_key((dep@.from, dep@.to)),
            final(self)@ == (GraphModel {
                dependencies: old(self)@.dependencies.remove((dep@.from, dep@.to)),
                ..old(self)@
            }),
    {
        let ghost old_view = self@;
        let r = self.dependencies.remove(dep);
        proof {
            assert(self@.references_resolve()) by {
                assert forall|k: (Seq<char>, Seq<char>)| #[trigger] self@.dependencies.contains_key(k) implies {
                    &&& self@.entries.contains_key(k.0)
                    &&& self@.entries.contains_key(k.1)
                    &&& (self@.dependencies[k] matches Some(m) ==> self@.entries.contains_key(m))
                } by {
                    assert(old_view.dependencies.contains_key(k));
                }
            }
        }
        r
    }

    /// Entries whose validity depends on the given entry, each once.
    pub fn dependents_of(&self, id: &EntryId) -> (r: Vec<EntryId>)
        requires
            self.wf(),
        ensures
            id_texts(r@).no_duplicates(),
            forall|y: Seq<char>| id_texts(r@).contains(y) <==> self@.dependencies.contains_key((id@, y)),
    {
        self.dependencies.dependents_of(id)
    }

    /// Entries that the given entry depends on, each once.
    pub fn dependencies_of(&self, id: &EntryId) -> (r: Vec<EntryId>)
        requires
            self.wf(),
        ensures
            id_texts(r@).no_duplicates(),
            forall|x: Seq<char>| id_texts(r@).contains(x) <==> self@.dependencies.contains_key((x, id@)),
    {
        self.dependencies.dependencies_of(id)
    }

    /// Look up a dependency by endpoints.
    pub fn dependency(&self, from: &EntryId, to: &EntryId) -> (r: Option<&Dependency>)
        requires
            self.wf(),
        ensures
            match r {
                Some(d) => self@.dependencies.contains_key((from@, to@)) && d@ == (EdgeModel {
                    from: from@,
                    to: to@,
                    meaning: self@.dependencies[(from@, to@)],
                }),
                None => !self@.dependencies.contains_key((from@, to@)),
            },
    {
        self.dependencies.get(from, to)
    }

    /// All dependency records, one per pair of endpoints.
    pub fn dependencies(&self) -> (r: &[Dependency])
        requires
            self.wf(),
        ensures
            assoc(dependency_keys(r@), dependency_meanings(r@)),
            keyed(dependency_keys(r@), dependency_meanings(r@)) == self@.dependencies,
    {
        proof {
            self.dependencies.lemma_records();
        }
        self.dependencies.iter()
    }

    // -- affinities ----------------------------------------------------------

    /// Add an affinity edge. All referenced entries must exist; the first
    /// missing one is reported. Returns whether the edge was new.
    ///
    /// Re-inserting an existing endpoint pair replaces the stored relation
    /// metadata while preserving the endpoints.
    pub fn add_affinity(&mut self, affinity: Affinity) -> (r: Result<bool, GraphError>)
        requires
            old(self).wf(),
        ensures
            final(self).wf(),
            r is Ok <==> edge_missing(affinity@, old(self)@.entries) is None,
            r matches Ok(b) ==> b == !old(self)@.affinities.contains_key((affinity@.from, affinity@.to))
                && final(self)@ == (GraphModel {
                affinities: old(self)@.affinities.insert((affinity@.from, affinity@.to), affinity@.meaning),
                ..old(self)@
            }),
            r matches Err(e) ==> final(self)@ == old(self)@ && (e matches GraphError::EntryNotFound(x)
                && edge_missing(affinity@, old(self)@.entries) == Some(x@)),
    {
        self.ensure_entry_exists(affinity.from())?;
        self.ensure_entry_exists(affinity.to())?;
        if let Some(meaning) = affinity.meaning() {
            self.ensure_entry_exists(meaning)?;
        }
        let ghost old_view = self@;
        let ghost old_affs = self.affinities@;
        let ghost keys = affinity_keys(old_affs);
        let ghost vals = affinity_meanings(old_affs);
        let ghost k = (affinity@.from, affinity@.to);
        let (from, to) = affinity.key();
        let (p, found) = locate_affinity(&self.affinities, &from, &to);
        let is_new = if found {
            proof {
                lemma_keyed_index(keys, vals, p as int);
                lemma_keyed_update(keys, vals, p as int, affinity@.meaning);
            }
            self.affinities.set(p, affinity);
            proof {
                assert(affinity_keys(self.affinities@) =~= keys);
                assert(affinity_meanings(self.affinities@) =~= vals.update(p as int, affinity@.meaning));
            }
            false
        } else {
            proof {
                lemma_keyed_insert(keys, vals, p as int, k, affinity@.meaning);
            }
            self.affinities.insert(p, affinity);
            proof {
                let nk = affinity_keys(self.affinities@);
                assert(nk =~= keys.insert(p as int, k));
                assert(affinity_meanings(self.affinities@) =~= vals.insert(p as int, affinity@.meaning));
                assert forall|i: int, j: int| 0 <= i < j < nk.len() implies key_lt(#[trigger] nk[i], #[trigger] nk[j]) by {
                    if j < p {
                        assert(nk[i] == keys[i] && nk[j] == keys[j]);
                    } else if j == p {
                        assert(nk[i] == keys[i]);
                    } else if i == p {
                        assert(nk[j] == keys[j - 1]);
                    } else if i < p {
                        assert(nk[i] == keys[i] && nk[j] == keys[j - 1]);
                    } else {
                        assert(nk[i] == keys[i - 1] && nk[j] == keys[j - 1]);
                    }
                }
            }
            true
        };
        proof {
            assert(self@.references_resolve()) by {
                assert forall|q: (Seq<char>, Seq<char>)| #[trigger] self@.affinities.contains_key(q) implies {
                    &&& self@.entries.contains_key(q.0)
                    &&& self@.entries.contains_key(q.1)
                    &&& (self@.affinities[q] matches Some(m) ==> self@.entries.contains_key(m))
                    &&& q.0 != q.1
                } by {
                    if q != k {
                        assert(old_view.affinities.contains_key(q));
                    }
                }
            }
        }
        Ok(is_new)
    }

    /// Remove an affinity edge. Returns whether it existed.
    pub fn remove_affinity(&mut self, affinity: &Affinity) -> (r: bool)
        requires
            old(self).wf(),
        ensures
            final(self).wf(),
            r == old(self)@.affinities.contains_key((affinity@.from, affinity@.to)),
            final(self)@ == (GraphModel {
                affinities: old(self)@.affinities.remove((affinity@.from, affinity@.to)),
                ..old(self)@
            }),
    {
        let ghost old_view = self@;
        let ghost old_affs = self.affinities@;
        let ghost keys = affinity_keys(old_affs);
        let ghost vals = affinity_meanings(old_affs);
        let (from, to) = affinity.key();
        let (p, found) = locate_affinity(&self.affinities, &from, &to);
        if !found {
            proof {
                assert(self@.affinities =~= old_view.affinities.remove((affinity@.from, affinity@.to)));
            }
            return false;
        }
        proof {
            lemma_keyed_remove(keys, vals, p as int);
        }
        self.affinities.remove(p);
        proof {
            let nk = affinity_keys(self.affinities@);
            assert(nk =~= keys.remove(p as int));
            assert(affinity_meanings(self.affinities@) =~= vals.remove(p as int));
            assert forall|i: int, j: int| 0 <= i < j < nk.len() implies key_lt(#[trigger] nk[i], #[trigger] nk[j]) by {
                let i2: int = if i < p { i } else { i + 1 };
                let j2: int = if j < p { j } else { j + 1 };
                assert(nk[i] == keys[i2] && nk[j] == keys[j2]);
            }
            assert(self@.references_resolve()) by {
                assert forall|q: (Seq<char>, Seq<char>)| #[trigger] self@.affinities.contains_key(q) implies {
                    &&& self@.entries.contains_key(q.0)
                    &&& self@.entries.contains_key(q.1)
                    &&& (self@.affinities[q] matches Some(m) ==> self@.entries.contains_key(m))
                    &&& q.0 != q.1
                } by {
                    assert(old_view.affinities.contains_key(q));
                }
            }
        }
        true
    }

    /// All affinity records, one per pair of endpoints, in ascending order
    /// of their endpoints.
    pub fn affinities(&self) -> (r: &[Affinity])
        requires
            self.wf(),
        ensures
            assoc(affinity_keys(r@), affinity_meanings(r@)),
            ascending(affinity_keys(r@)),
            keyed(affinity_keys(r@), affinity_meanings(r@)) == self@.affinities,
    {
        self.affinities.as_slice()
    }

    // -- groundings ----------------------------------------------------------

    /// Attach a grounding to an entry. The entry must exist.
    pub fn add_grounding(&mut self, id: &EntryId, grounding: Grounding) -> (r: Result<
        (),
        GraphError,
    >)
        requires
            old(self).wf(),
        ensures
            final(self).wf(),
            r is Ok <==> old(self)@.entries.contains_key(id@),
            r matches Ok(_) ==> final(self)@ == (GraphModel {
                groundings: old(self)@.groundings.insert(
                    id@,
                    old(self)@.groundings_of(id@).push(grounding),
                ),
                ..old(self)@
            }),
            r matches Err(e) ==> final(self)@ == old(self)@ && (e matches GraphError::EntryNotFound(x) && x@ == id@),
    {
        if find_entry(&self.entries, id).is_none() {
            return Err(GraphError::EntryNotFound(id.clone()));
        }
        let ghost old_slots = self.groundings@;
        match find_slot(&self.groundings, id) {
            Some(i) => {
                proof {
                    lemma_keyed_index(slot_ids(old_slots), slot_groundings(old_slots), i as int);
                }
                let mut slot = self.groundings.remove(i);
                let ghost before = slot.groundings@;
                slot.groundings.push(grounding);
                self.groundings.insert(i, slot);
                proof {
                    assert(slot_ids(self.groundings@) =~= slot_ids(old_slots));
                    assert(slot_groundings(self.groundings@) =~= slot_groundings(old_slots).update(
                        i as int,
                        before.push(grounding),
                    ));
                    lemma_keyed_update(
                        slot_ids(old_slots),
                        slot_groundings(old_slots),
                        i as int,
                        before.push(grounding),
                    );
                    assert(self@.references_resolve());
                }
            },
            None => {
                let mut list: Vec<Grounding> = Vec::new();
                list.push(grounding);
                let slot = GroundingSlot { entry: id.clone(), groundings: list };
                proof {
                    assert(list@ =~= Seq::<Grounding>::empty().push(grounding));
                    lemma_keyed_push(slot_ids(old_slots), slot_groundings(old_slots), id@, list@);
                }
                self.groundings.push(slot);
                proof {
                    assert(slot_ids(self.groundings@) =~= slot_ids(old_slots).push(id@));
                    assert(slot_groundings(self.groundings@) =~= slot_groundings(old_slots).push(
                        list@,
                    ));
                    assert(self@.references_resolve());
                }
            },
        }
        Ok(())
    }

    /// All groundings for an entry, in attachment order.
    pub fn groundings(&self, id: &EntryId) -> (r: &[Grounding])
        requires
            self.wf(),
        ensures
            r@ == self@.groundings_of(id@),
    {
        match find_slot(&self.groundings, id) {
            Some(i) => {
                proof {
                    lemma_keyed_index(slot_ids(self.groundings@), slot_groundings(self.groundings@), i as int);
                }
                self.groundings[i].groundings.as_slice()
            },
            None => &[],
        }
    }

    // -- locks ---------------------------------------------------------------

    /// Lock an entry, requiring approval for future mutations. Returns
    /// whether the entry was not locked before.
    pub fn lock(&mut self, id: &EntryId) -> (r: Result<bool, GraphError>)
        requires
            old(self).wf(),
        ensures
            final(self).wf(),
            r is Ok <==> old(self)@.entries.contains_key(id@),
            r matches Ok(b) ==> b == !old(self)@.locks.contains(id@) && final(self)@ == (GraphModel {
                locks: old(self)@.locks.insert(id@),
                ..old(self)@
            }),
            r matches Err(e) ==> final(self)@ == old(self)@ && (e matches GraphError::EntryNotFound(x) && x@ == id@),
    {
        if find_entry(&self.entries, id).is_none() {
            return Err(GraphError::EntryNotFound(id.clone()));
        }
        let ghost old_locks = id_texts(self.locks@);
        match find_lock(&self.locks, id) {
            Some(_) => {
                proof {
                    assert(old_locks.to_set().insert(id@) =~= old_locks.to_set());
                }
                Ok(false)
            },
            None => {
                self.locks.push(id.clone());
                proof {
                    assert(id_texts(self.locks@) =~= old_locks.push(id@));
                    crate::keyed::lemma_push_to_set(old_locks, id@);
                    assert(id_texts(self.locks@).no_duplicates()) by {
                        let s = id_texts(self.locks@);
                        assert forall|a: int, b: int| 0 <= a < s.len() && 0 <= b < s.len() && a != b implies s[a] != s[b] by {
                            if a < old_locks.len() && b < old_locks.len() {
                            } else if a < old_locks.len() {
                                assert(old_locks.contains(old_locks[a]));
                            } else {
                                assert(old_locks.contains(old_locks[b]));
                            }
                        }
                    }
                    assert(self@.references_resolve());
                }
                Ok(true)
            },
        }
    }

    /// Unlock an entry. Returns whether it was locked.
    pub fn unlock(&mut self, id: &EntryId) -> (r: bool)
        requires
            old(self).wf(),
        ensures
            final(self).wf(),
            r == old(self)@.locks.contains(id@),
            final(self)@ == (GraphModel { locks: old(self)@.locks.remove(id@), ..old(self)@ }),
    {
        let r = remove_lock(&mut self.locks, id);
        proof {
            assert(self@.references_resolve());
        }
        r
    }

    /// Whether the entry is locked.
    pub fn is_locked(&self, id: &EntryId) -> (r: bool)
        requires
            self.wf(),
        ensures
            r == self@.locks.contains(id@),
    {
        find_lock(&self.locks, id).is_some()
    }
}

impl Default for Graph {
    fn default() -> (r: Self)
        ensures
            r.wf(),
            r@.entries == Map::<Seq<char>, EntryModel>::empty(),
            r@.dependencies == EdgeMap::empty(),
            r@.affinities == EdgeMap::empty(),
            r@.groundings == Map::<Seq<char>, Seq<Grounding>>::empty(),
            r@.locks == Set::<Seq<char>>::empty(),
    {
        Graph::new()
    }
}

} // verus!

verus! {

/// Whether `id` names no entry, edge endpoint, explaining entry, grounding
/// owner or lock of `m`.
pub open spec fn forgets(m: GraphModel, id: Seq<char>) -> bool {
    &&& !m.entries.contains_key(id)
    &&& forall|k: (Seq<char>, Seq<char>)|
        #[trigger] m.dependencies.contains_key(k) ==> k.0 != id && k.1 != id && m.dependencies[k]
            != Some(id)
    &&& forall|k: (Seq<char>, Seq<char>)|
        #[trigger] m.affinities.contains_key(k) ==> k.0 != id && k.1 != id && m.affinities[k] != Some(
            id,
        )
    &&& !m.groundings.contains_key(id)
    &&& !m.locks.contains(id)
}

/// Recording a new edge and then removing it gives back the edges one
/// started from.
pub proof fn lemma_insert_then_remove_edge(
    m: EdgeMap,
    k: (Seq<char>, Seq<char>),
    meaning: Option<Seq<char>>,
)
    requires
        !m.contains_key(k),
    ensures
        m.insert(k, meaning).remove(k) == m,
{
    assert(m.insert(k, meaning).remove(k) =~= m);
}

/// Removing an entry keeps every reference resolving and leaves nothing in
/// the graph that names the removed entry.
pub proof fn lemma_without_entry_forgets(m: GraphModel, id: Seq<char>)
    requires
        m.references_resolve(),
    ensures
        m.without_entry(id).references_resolve(),
        forgets(m.without_entry(id), id),
{
    let n = m.without_entry(id);
    assert forall|k: (Seq<char>, Seq<char>)| #[trigger] n.dependencies.contains_key(k) implies {
        &&& n.entries.contains_key(k.0)
        &&& n.entries.contains_key(k.1)
        &&& (n.dependencies[k] matches Some(x) ==> n.entries.contains_key(x))
    } by {
        assert(m.dependencies.contains_key(k));
    }
    assert forall|k: (Seq<char>, Seq<char>)| #[trigger] n.affinities.contains_key(k) implies {
        &&& n.entries.contains_key(k.0)
        &&& n.entries.contains_key(k.1)
        &&& (n.affinities[k] matches Some(x) ==> n.entries.contains_key(x))
        &&& k.0 != k.1
    } by {
        assert(m.affinities.contains_key(k));
    }
}

/// Inserting a fresh entry and then removing it gives back the graph one
/// started from: a fresh entry is referenced by nothing.
pub proof fn lemma_insert_then_remove_entry(m: GraphModel, e: EntryModel)
    requires
        m.references_resolve(),
        !m.entries.contains_key(e.id),
    ensures
        (GraphModel { entries: m.entries.insert(e.id, e), ..m }).without_entry(e.id) == m,
{
    let id = e.id;
    let n = GraphModel { entries: m.entries.insert(id, e), ..m };
    let r = n.without_entry(id);
    assert(r.entries =~= m.entries);
    assert forall|k: (Seq<char>, Seq<char>)| #[trigger] m.dependencies.contains_key(k) implies k.0
        != id && k.1 != id && m.dependencies[k] != Some(id) by {}
    assert forall|k: (Seq<char>, Seq<char>)| #[trigger] m.affinities.contains_key(k) implies k.0
        != id && k.1 != id && m.affinities[k] != Some(id) by {}
    assert(r.dependencies =~= m.dependencies);
    assert(r.affinities =~= m.affinities);
    assert(!m.groundings.contains_key(id));
    assert(r.groundings =~= m.groundings);
    assert(!m.locks.contains(id));
    assert(r.locks =~= m.locks);
}

/// An edge can be recorded exactly when its source, its target and its
/// explaining entry (if any) all exist; otherwise the id reported missing
/// is one the edge names and the graph lacks, the source before the target
/// before the explanation.
pub proof fn lemma_edge_missing_names_an_absent_entry(
    e: EdgeModel,
    entries: Map<Seq<char>, EntryModel>,
)
    ensures
        edge_missing(e, entries) is None <==> {
            &&& entries.contains_key(e.from)
            &&& entries.contains_key(e.to)
            &&& (e.meaning matches Some(m) ==> entries.contains_key(m))
        },
        edge_missing(e, entries) matches Some(x) ==> !entries.contains_key(x) && (x == e.from
            || x == e.to || e.meaning == Some(x)),
        !entries.contains_key(e.from) ==> edge_missing(e, entries) == Some(e.from),
        entries.contains_key(e.from) && !entries.contains_key(e.to) ==> edge_missing(e, entries)
            == Some(e.to),
{
}

/// Removing an entry touches nothing else: every edge between two other
/// entries stays, keeping its explanation unless that explanation was the
/// removed entry; every other entry, grounding list and lock stays.
pub proof fn lemma_without_entry_keeps_the_rest(m: GraphModel, id: Seq<char>)
    ensures
        forall|x: Seq<char>|
            x != id ==> (#[trigger] m.without_entry(id).entries.contains_key(x)
                <==> m.entries.contains_key(x)) && (m.entries.contains_key(x)
                ==> m.without_entry(id).entries[x] == m.entries[x]),
        forall|k: (Seq<char>, Seq<char>)|
            k.0 != id && k.1 != id ==> (#[trigger] m.without_entry(id).dependencies.contains_key(k)
                <==> m.dependencies.contains_key(k)),
        forall|k: (Seq<char>, Seq<char>)|
            k.0 != id && k.1 != id && #[trigger] m.dependencies.contains_key(k) ==> m.without_entry(
                id,
            ).dependencies[k] == if m.dependencies[k] == Some(id) {
                None
            } else {
                m.dependencies[k]
            },
        forall|k: (Seq<char>, Seq<char>)|
            k.0 != id && k.1 != id ==> (#[trigger] m.without_entry(id).affinities.contains_key(k)
                <==> m.affinities.contains_key(k)),
        forall|k: (Seq<char>, Seq<char>)|
            k.0 != id && k.1 != id && #[trigger] m.affinities.contains_key(k) ==> m.without_entry(
                id,
            ).affinities[k] == if m.affinities[k] == Some(id) {
                None
            } else {
                m.affinities[k]
            },
        forall|x: Seq<char>|
            x != id ==> (#[trigger] m.without_entry(id).groundings.contains_key(x)
                <==> m.groundings.contains_key(x)),
        forall|x: Seq<char>|
            x != id ==> (#[trigger] m.without_entry(id).locks.contains(x) <==> m.locks.contains(x)),
{
}

} // verus!
