//! Adjacency lists: for each node, the distinct nodes it points to.
//!
//! This is the building block of the dependency index's forward and reverse
//! views. A list is read as the relation [`AdjacencyList::linked`]; an entry
//! may hold an empty neighbor list, which links nothing.

use vstd::prelude::*;

use crate::entry::EntryId;
use crate::keyed::{
    assoc, keyed, lemma_keyed_index, lemma_keyed_push, lemma_keyed_remove, lemma_keyed_update,
};

verus! {

#[derive(Clone, Debug)]
pub(crate) struct Adjacency {
    pub(crate) node: EntryId,
    pub(crate) neighbors: Vec<EntryId>,
}

/// The texts of a sequence of ids.
pub open spec fn id_texts(s: Seq<EntryId>) -> Seq<Seq<char>> {
    s.map_values(|e: EntryId| e@)
}

pub(crate) open spec fn adj_nodes(s: Seq<Adjacency>) -> Seq<Seq<char>> {
    s.map_values(|a: Adjacency| a.node@)
}

pub(crate) open spec fn adj_neighbors(s: Seq<Adjacency>) -> Seq<Seq<Seq<char>>> {
    s.map_values(|a: Adjacency| id_texts(a.neighbors@))
}

#[derive(Clone, Debug)]
pub(crate) struct AdjacencyList {
    pub(crate) lists: Vec<Adjacency>,
}

impl AdjacencyList {
    pub(crate) open spec fn model(self) -> Map<Seq<char>, Seq<Seq<char>>> {
        keyed(adj_nodes(self.lists@), adj_neighbors(self.lists@))
    }

    pub(crate) open spec fn wf(self) -> bool {
        &&& assoc(adj_nodes(self.lists@), adj_neighbors(self.lists@))
        &&& forall|i: int|
            0 <= i < self.lists@.len() ==> (#[trigger] adj_neighbors(self.lists@)[i]).no_duplicates()
    }

    /// Whether `x` points to `y`.
    pub(crate) open spec fn linked(self, x: Seq<char>, y: Seq<char>) -> bool {
        self.model().contains_key(x) && self.model()[x].contains(y)
    }

    pub(crate) fn new() -> (r: AdjacencyList)
        ensures
            r.wf(),
            forall|x: Seq<char>, y: Seq<char>| !r.linked(x, y),
    {
        let r = AdjacencyList { lists: Vec::new() };
        proof {
            assert(adj_nodes(r.lists@) =~= Seq::empty());
        }
        r
    }

    fn find(&self, node: &EntryId) -> (r: Option<usize>)
        ensures
            match r {
                Some(i) => i < self.lists@.len() && adj_nodes(self.lists@)[i as int] == node@,
                None => !adj_nodes(self.lists@).contains(node@),
            },
    {
        let mut i: usize = 0;
        while i < self.lists.len()
            invariant
                i <= self.lists@.len(),
                forall|j: int| 0 <= j < i ==> adj_nodes(self.lists@)[j] != node@,
            decreases self.lists@.len() - i,
        {
            if self.lists[i].node == *node {
                return Some(i);
            }
            i += 1;
        }
        None
    }

    /// The neighbors of `node`, each once.
    pub(crate) fn neighbors(&self, node: &EntryId) -> (r: Vec<EntryId>)
        requires
            self.wf(),
        ensures
            id_texts(r@).no_duplicates(),
            forall|y: Seq<char>| id_texts(r@).contains(y) <==> self.linked(node@, y),
    {
        match self.find(node) {
            Some(i) => {
                proof {
                    lemma_keyed_index(adj_nodes(self.lists@), adj_neighbors(self.lists@), i as int);
                }
                let r = self.lists[i].neighbors.clone();
                proof {
                    assert(id_texts(r@) =~= id_texts(self.lists@[i as int].neighbors@));
                    assert(adj_neighbors(self.lists@)[i as int] == id_texts(
                        self.lists@[i as int].neighbors@,
                    ));
                }
                r
            },
            None => {
                let r: Vec<EntryId> = Vec::new();
                proof {
                    assert(id_texts(r@) =~= Seq::empty());
                }
                r
            },
        }
    }

    /// Make `x` point to `y`.
    pub(crate) fn link(&mut self, x: &EntryId, y: &EntryId)
        requires
            old(self).wf(),
            !old(self).linked(x@, y@),
        ensures
            final(self).wf(),
            forall|a: Seq<char>, b: Seq<char>|
                final(self).linked(a, b) == (old(self).linked(a, b) || (a == x@ && b == y@)),
    {
        let ghost old_lists = self.lists@;
        match self.find(x) {
            Some(i) => {
                proof {
                    lemma_keyed_index(adj_nodes(old_lists), adj_neighbors(old_lists), i as int);
                }
                let mut adjacency = self.lists.remove(i);
                let ghost old_nbrs = id_texts(adjacency.neighbors@);
                adjacency.neighbors.push(y.clone());
                proof {
                    assert(id_texts(adjacency.neighbors@) =~= old_nbrs.push(y@));
                    assert(!old_nbrs.contains(y@));
                    assert(id_texts(adjacency.neighbors@).no_duplicates()) by {
                        let s = id_texts(adjacency.neighbors@);
                        assert forall|a: int, b: int| 0 <= a < s.len() && 0 <= b < s.len() && a != b
                            implies s[a] != s[b] by {
                            if a < old_nbrs.len() && b < old_nbrs.len() {
                                assert(adj_neighbors(old_lists)[i as int].no_duplicates());
                            } else if a < old_nbrs.len() {
                                assert(old_nbrs.contains(old_nbrs[a]));
                            } else {
                                assert(old_nbrs.contains(old_nbrs[b]));
                            }
                        }
                    }
                }
                self.lists.insert(i, adjacency);
                proof {
                    let nodes = adj_nodes(self.lists@);
                    let nbrs = adj_neighbors(self.lists@);
                    assert(nodes =~= adj_nodes(old_lists));
                    assert(nbrs =~= adj_neighbors(old_lists).update(i as int, old_nbrs.push(y@)));
                    lemma_keyed_update(
                        adj_nodes(old_lists),
                        adj_neighbors(old_lists),
                        i as int,
                        old_nbrs.push(y@),
                    );
                    assert forall|j: int| 0 <= j < self.lists@.len() implies (
                    #[trigger] adj_neighbors(self.lists@)[j]).no_duplicates() by {
                        if j != i {
                            assert(adj_neighbors(old_lists)[j].no_duplicates());
                        }
                    }
                    assert forall|a: Seq<char>, b: Seq<char>| self.linked(a, b) == (old(
                        self,
                    ).linked(a, b) || (a == x@ && b == y@)) by {
                        if a == x@ {
                            assert(old_nbrs.push(y@).contains(b) == (old_nbrs.contains(b) || b == y@))
                                by {
                                if b == y@ {
                                    assert(old_nbrs.push(y@)[old_nbrs.len() as int] == y@);
                                }
                                if old_nbrs.contains(b) {
                                    let k: int = choose|k: int| 0 <= k < old_nbrs.len() && old_nbrs[k] == b;
                                    assert(old_nbrs.push(y@)[k] == b);
                                }
                            }
                        }
                    }
                }
            },
            None => {
                let mut neighbors: Vec<EntryId> = Vec::new();
                neighbors.push(y.clone());
                let adjacency = Adjacency { node: x.clone(), neighbors };
                self.lists.push(adjacency);
                proof {
                    let nbr = id_texts(adjacency.neighbors@);
                    assert(nbr =~= seq![y@]);
                    assert(adj_nodes(self.lists@) =~= adj_nodes(old_lists).push(x@));
                    assert(adj_neighbors(self.lists@) =~= adj_neighbors(old_lists).push(nbr));
                    lemma_keyed_push(adj_nodes(old_lists), adj_neighbors(old_lists), x@, nbr);
                    assert forall|j: int| 0 <= j < self.lists@.len() implies (
                    #[trigger] adj_neighbors(self.lists@)[j]).no_duplicates() by {
                        if j < old_lists.len() {
                            assert(adj_neighbors(old_lists)[j].no_duplicates());
                        }
                    }
                    assert forall|a: Seq<char>, b: Seq<char>| self.linked(a, b) == (old(
                        self,
                    ).linked(a, b) || (a == x@ && b == y@)) by {
                        if a == x@ {
                            assert(seq![y@].contains(b) == (b == y@)) by {
                                if b == y@ {
                                    assert(seq![y@][0] == y@);
                                }
                            }
                        }
                    }
                }
            },
        }
    }

    /// Remove the link from `x` to `y`, if present.
    pub(crate) fn unlink(&mut self, x: &EntryId, y: &EntryId)
        requires
            old(self).wf(),
        ensures
            final(self).wf(),
            forall|a: Seq<char>, b: Seq<char>|
                final(self).linked(a, b) == (old(self).linked(a, b) && !(a == x@ && b == y@)),
    {
        let ghost old_lists = self.lists@;
        match self.find(x) {
            Some(i) => {
                proof {
                    lemma_keyed_index(adj_nodes(old_lists), adj_neighbors(old_lists), i as int);
                }
                let mut adjacency = self.lists.remove(i);
                let ghost old_nbrs = id_texts(adjacency.neighbors@);
                let mut j: usize = 0;
                while j < adjacency.neighbors.len()
                    invariant
                        old_nbrs == id_texts(adjacency.neighbors@),
                        j <= adjacency.neighbors@.len(),
                        forall|k: int| 0 <= k < j ==> old_nbrs[k] != y@,
                    ensures
                        j <= adjacency.neighbors@.len(),
                        forall|k: int| 0 <= k < j ==> old_nbrs[k] != y@,
                        j < adjacency.neighbors@.len() ==> old_nbrs[j as int] == y@,
                    decreases adjacency.neighbors@.len() - j,
                {
                    if adjacency.neighbors[j] == *y {
                        break;
                    }
                    j += 1;
                }
                if j < adjacency.neighbors.len() {
                    adjacency.neighbors.remove(j);
                    proof {
                        assert(id_texts(adjacency.neighbors@) =~= old_nbrs.remove(j as int));
                    }
                } else {
                    proof {
                        assert(!old_nbrs.contains(y@));
                    }
                }
                let ghost new_nbrs = id_texts(adjacency.neighbors@);
                proof {
                    assert(adj_neighbors(old_lists)[i as int].no_duplicates());
                    assert(new_nbrs.no_duplicates()) by {
                        if j < old_nbrs.len() {
                            assert forall|a: int, b: int| 0 <= a < new_nbrs.len() && 0 <= b
                                < new_nbrs.len() && a != b implies new_nbrs[a] != new_nbrs[b] by {
                                let a2: int = if a < j {
                                    a
                                } else {
                                    a + 1
                                };
                                let b2: int = if b < j {
                                    b
                                } else {
                                    b + 1
                                };
                                assert(new_nbrs[a] == old_nbrs[a2]);
                                assert(new_nbrs[b] == old_nbrs[b2]);
                            }
                        }
                    }
                    assert forall|b: Seq<char>| new_nbrs.contains(b) == (old_nbrs.contains(b) && b
                        != y@) by {
                        if j < old_nbrs.len() {
                            if new_nbrs.contains(b) {
                                let k: int = choose|k: int| 0 <= k < new_nbrs.len() && new_nbrs[k] == b;
                                if k < j {
                                    assert(old_nbrs[k] == b);
                                } else {
                                    assert(old_nbrs[k + 1] == b);
                                    assert(k + 1 != j);
                                }
                            }
                            if old_nbrs.contains(b) && b != y@ {
                                let k: int = choose|k: int| 0 <= k < old_nbrs.len() && old_nbrs[k] == b;
                                assert(k != j);
                                if k < j {
                                    assert(new_nbrs[k] == b);
                                } else {
                                    assert(new_nbrs[k - 1] == b);
                                }
                            }
                        }
                    }
                }
                self.lists.insert(i, adjacency);
                proof {
                    assert(adj_nodes(self.lists@) =~= adj_nodes(old_lists));
                    assert(adj_neighbors(self.lists@) =~= adj_neighbors(old_lists).update(
                        i as int,
                        new_nbrs,
                    ));
                    lemma_keyed_update(
                        adj_nodes(old_lists),
                        adj_neighbors(old_lists),
                        i as int,
                        new_nbrs,
                    );
                    assert forall|k: int| 0 <= k < self.lists@.len() implies (
                    #[trigger] adj_neighbors(self.lists@)[k]).no_duplicates() by {
                        if k != i {
                            assert(adj_neighbors(old_lists)[k].no_duplicates());
                        }
                    }
                }
            },
            None => {},
        }
    }

    /// Remove `node` with all its outgoing links; return its neighbors if it
    /// was present.
    pub(crate) fn take(&mut self, node: &EntryId) -> (r: Option<Vec<EntryId>>)
        requires
            old(self).wf(),
        ensures
            final(self).wf(),
            forall|a: Seq<char>, b: Seq<char>|
                final(self).linked(a, b) == (old(self).linked(a, b) && a != node@),
            match r {
                Some(v) => {
                    &&& id_texts(v@).no_duplicates()
                    &&& forall|y: Seq<char>| id_texts(v@).contains(y) <==> old(self).linked(node@, y)
                },
                None => forall|y: Seq<char>| !old(self).linked(node@, y),
            },
    {
        let ghost old_lists = self.lists@;
        match self.find(node) {
            Some(i) => {
                proof {
                    lemma_keyed_index(adj_nodes(old_lists), adj_neighbors(old_lists), i as int);
                    lemma_keyed_remove(adj_nodes(old_lists), adj_neighbors(old_lists), i as int);
                }
                let adjacency = self.lists.remove(i);
                proof {
                    assert(adj_nodes(self.lists@) =~= adj_nodes(old_lists).remove(i as int));
                    assert(adj_neighbors(self.lists@) =~= adj_neighbors(old_lists).remove(i as int));
                    assert forall|k: int| 0 <= k < self.lists@.len() implies (
                    #[trigger] adj_neighbors(self.lists@)[k]).no_duplicates() by {
                        if k < i {
                            assert(adj_neighbors(old_lists)[k].no_duplicates());
                        } else {
                            assert(adj_neighbors(old_lists)[k + 1].no_duplicates());
                        }
                    }
                    assert(adj_neighbors(old_lists)[i as int].no_duplicates());
                }
                Some(adjacency.neighbors)
            },
            None => None,
        }
    }
}

} // verus!
