//! Edges connect entries in the knowledge graph.
//!
//! Two kinds exist: directed dependencies that encode causal structure,
//! and directed affinities that encode conceptual relevance.
//!
//! An edge may point at a separate entry that explains the relation in prose.
//! The edge still owns the operational semantics; the attached entry owns the
//! text.

use vstd::prelude::*;

use crate::entry::{opt_id, EntryId};

verus! {

/// Mathematical model of an edge: its endpoints and the optional entry that
/// explains it.
pub struct EdgeModel {
    pub from: Seq<char>,
    pub to: Seq<char>,
    pub meaning: Option<Seq<char>>,
}

/// Directed edge asserting that `to`'s validity is contingent on `from`'s
/// content.
///
/// If `from` changes, `to` must be re-examined. The arrow points in the
/// direction of causal force: `from` → `to`.
#[derive(Debug, PartialEq, Eq)]
pub struct Dependency {
    /// The entry whose content is depended upon.
    from: EntryId,
    /// The entry whose validity is contingent.
    to: EntryId,
    /// Optional entry that explains what the relation means.
    ///
    /// The attached entry is descriptive only. Dependency propagation is
    /// determined solely by `from` and `to`.
    meaning: Option<EntryId>,
}

impl View for Dependency {
    type V = EdgeModel;

    closed spec fn view(&self) -> EdgeModel {
        EdgeModel { from: self.from@, to: self.to@, meaning: opt_id(self.meaning) }
    }
}

impl Clone for Dependency {
    fn clone(&self) -> (r: Self)
        ensures
            r@ == self@,
    {
        let meaning = match &self.meaning {
            Some(m) => Some(m.clone()),
            None => None,
        };
        Dependency { from: self.from.clone(), to: self.to.clone(), meaning }
    }
}

impl Dependency {
    /// Construct an unlabeled dependency.
    pub fn new(from: EntryId, to: EntryId) -> (r: Dependency)
        ensures
            r@ == (EdgeModel { from: from@, to: to@, meaning: None }),
    {
        Dependency { from, to, meaning: None }
    }

    /// Attach an entry describing the dependency relation.
    pub fn with_meaning(self, meaning: EntryId) -> (r: Dependency)
        ensures
            r@ == (EdgeModel { meaning: Some(meaning@), ..self@ }),
    {
        let mut dep = self;
        dep.meaning = Some(meaning);
        dep
    }

    /// The entry whose content is depended upon.
    pub fn from(&self) -> (r: &EntryId)
        ensures
            r@ == self@.from,
    {
        &self.from
    }

    /// The entry whose validity is contingent.
    pub fn to(&self) -> (r: &EntryId)
        ensures
            r@ == self@.to,
    {
        &self.to
    }

    /// The optional entry describing this relation.
    pub fn meaning(&self) -> (r: Option<&EntryId>)
        ensures
            match r {
                Some(m) => self@.meaning == Some(m@),
                None => self@.meaning is None,
            },
    {
        match &self.meaning {
            Some(m) => Some(m),
            None => None,
        }
    }

    /// The endpoints of this dependency.
    pub(crate) fn key(&self) -> (r: (EntryId, EntryId))
        ensures
            r.0@ == self@.from,
            r.1@ == self@.to,
    {
        (self.from.clone(), self.to.clone())
    }

    /// Whether this dependency is explained by the given entry.
    pub(crate) fn meaning_matches(&self, id: &EntryId) -> (r: bool)
        ensures
            r == (self@.meaning == Some(id@)),
    {
        match &self.meaning {
            Some(m) => *m == *id,
            None => false,
        }
    }

    /// Drop the explaining entry; reports whether there was one.
    pub(crate) fn clear_meaning(&mut self) -> (r: bool)
        ensures
            r == (old(self)@.meaning is Some),
            final(self)@ == (EdgeModel { meaning: None, ..old(self)@ }),
    {
        let had = self.meaning.is_some();
        self.meaning = None;
        had
    }
}

/// Directed edge between entries that share conceptual relevance.
///
/// Affinities exist for navigation and epistemic context. They carry no
/// causal force and generate no obligations. The two endpoints always
/// differ: self-affinity is meaningless.
#[derive(Debug, PartialEq, Eq)]
pub struct Affinity {
    /// The entry that owns the affinity edge.
    ///
    /// Affinities are directed so that every edge is stored in the source
    /// entry's part of the Sirno data representation. The direction is a
    /// data-representation and navigation choice, not a propagation rule.
    from: EntryId,
    /// The entry reached by the affinity edge.
    to: EntryId,
    /// Optional entry that explains what the affinity means.
    ///
    /// The attached entry is descriptive only. Affinities remain non-causal
    /// regardless of how they are explained.
    meaning: Option<EntryId>,
}

impl View for Affinity {
    type V = EdgeModel;

    closed spec fn view(&self) -> EdgeModel {
        EdgeModel { from: self.from@, to: self.to@, meaning: opt_id(self.meaning) }
    }
}

impl Affinity {
    #[verifier::type_invariant]
    spec fn distinct_endpoints(self) -> bool {
        self.from@ != self.to@
    }

    /// Construct a directed affinity between two distinct entries.
    ///
    /// Returns `None` if the two ids are equal (self-affinity is meaningless).
    pub fn new(from: EntryId, to: EntryId) -> (r: Option<Affinity>)
        ensures
            r is None <==> from@ == to@,
            r matches Some(a) ==> a@ == (EdgeModel { from: from@, to: to@, meaning: None }),
    {
        if from == to {
            return None;
        }
        Some(Affinity { from, to, meaning: None })
    }

    /// Attach an entry describing the affinity relation.
    pub fn with_meaning(self, meaning: EntryId) -> (r: Affinity)
        ensures
            r@ == (EdgeModel { meaning: Some(meaning@), ..self@ }),
    {
        proof {
            use_type_invariant(&self);
        }
        Affinity { from: self.from, to: self.to, meaning: Some(meaning) }
    }

    /// The entry that owns the affinity edge.
    pub fn from(&self) -> (r: &EntryId)
        ensures
            r@ == self@.from,
    {
        &self.from
    }

    /// The entry reached by the affinity edge.
    pub fn to(&self) -> (r: &EntryId)
        ensures
            r@ == self@.to,
    {
        &self.to
    }

    /// The optional entry describing this relation.
    pub fn meaning(&self) -> (r: Option<&EntryId>)
        ensures
            match r {
                Some(m) => self@.meaning == Some(m@),
                None => self@.meaning is None,
            },
    {
        match &self.meaning {
            Some(m) => Some(m),
            None => None,
        }
    }

    /// Whether this affinity involves the given entry.
    pub fn contains(&self, id: &EntryId) -> (r: bool)
        ensures
            r == (self@.from == id@ || self@.to == id@),
    {
        self.from == *id || self.to == *id
    }

    /// The endpoints of this affinity; they always differ.
    pub(crate) fn key(&self) -> (r: (EntryId, EntryId))
        ensures
            r.0@ == self@.from,
            r.1@ == self@.to,
            self@.from != self@.to,
    {
        proof {
            use_type_invariant(self);
        }
        (self.from.clone(), self.to.clone())
    }

    /// Whether this affinity is explained by the given entry.
    pub(crate) fn meaning_matches(&self, id: &EntryId) -> (r: bool)
        ensures
            r == (self@.meaning == Some(id@)),
    {
        match &self.meaning {
            Some(m) => *m == *id,
            None => false,
        }
    }

    /// Drop the explaining entry; reports whether there was one.
    pub(crate) fn clear_meaning(&mut self) -> (r: bool)
        ensures
            r == (old(self)@.meaning is Some),
            final(self)@ == (EdgeModel { meaning: None, ..old(self)@ }),
    {
        proof {
            use_type_invariant(&*self);
        }
        let had = self.meaning.is_some();
        self.meaning = None;
        had
    }
}

impl Clone for Affinity {
    fn clone(&self) -> (r: Self)
        ensures
            r@ == self@,
    {
        proof {
            use_type_invariant(self);
        }
        let meaning = match &self.meaning {
            Some(m) => Some(m.clone()),
            None => None,
        };
        Affinity { from: self.from.clone(), to: self.to.clone(), meaning }
    }
}

} // verus!
