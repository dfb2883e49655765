//! Entry: the primitive unit of knowledge in Sirno.
//!
//! Each entry represents a single claim about the codebase: an invariant,
//! a design decision, a module's purpose, a data representation choice, or
//! any other isolable piece of understanding.
//!
//! Entries are the only durable owner of dedicated explanatory text in the
//! graph. Other concepts may carry executable syntax or identifiers, but they
//! refer back to entries whenever they need human-readable narration.

use vstd::prelude::*;

verus! {

/// Unique, agent-assigned nominal identifier for an entry.
///
/// Opaque by construction: the inner representation is not exposed.
/// Two entries are the same entry if and only if their ids are equal,
/// that is, if and only if their texts (their views) are equal.
#[derive(Debug, Eq, Hash, PartialOrd, Ord)]
pub struct EntryId(String);

impl View for EntryId {
    type V = Seq<char>;

    closed spec fn view(&self) -> Seq<char> {
        self.0@
    }
}

impl EntryId {
    /// Create an entry id from a string.
    pub fn new(id: &str) -> (r: EntryId)
        ensures
            r@ == id@,
    {
        EntryId(id.to_owned())
    }

    /// Borrow the underlying identifier.
    pub fn as_str(&self) -> (r: &str)
        ensures
            r@ == self@,
    {
        self.0.as_str()
    }
}

impl Clone for EntryId {
    fn clone(&self) -> (r: Self)
        ensures
            r@ == self@,
    {
        EntryId(self.0.clone())
    }
}

impl PartialEq for EntryId {
    fn eq(&self, other: &Self) -> (r: bool) {
        self.0 == other.0
    }
}

impl vstd::std_specs::cmp::PartialEqSpecImpl for EntryId {
    open spec fn obeys_eq_spec() -> bool {
        true
    }

    open spec fn eq_spec(&self, other: &EntryId) -> bool {
        self@ == other@
    }
}

/// The view of an optional string.
pub open spec fn opt_text(s: Option<String>) -> Option<Seq<char>> {
    match s {
        Some(t) => Some(t@),
        None => None,
    }
}

/// The view of an optional entry id.
pub open spec fn opt_id(s: Option<EntryId>) -> Option<Seq<char>> {
    match s {
        Some(t) => Some(t@),
        None => None,
    }
}

/// Mathematical model of an entry.
pub struct EntryModel {
    pub id: Seq<char>,
    pub name: Option<Seq<char>>,
    pub description: Seq<char>,
    pub explanation: Seq<char>,
}

/// A single claim about the codebase with nominal identity.
///
/// Invariant: `id` is immutable after construction. Name, description, and
/// explanation are the entry's text payload and may be updated through
/// controlled mutation; every setter keeps the id.
#[derive(Debug)]
pub struct Entry {
    /// Unique nominal identifier. Immutable after construction.
    id: EntryId,
    /// Optional human-readable concept name.
    name: Option<String>,
    /// Concise summary of the entry's claim.
    description: String,
    /// Full account of the entry's content, rationale, and context.
    explanation: String,
}

impl View for Entry {
    type V = EntryModel;

    closed spec fn view(&self) -> EntryModel {
        EntryModel {
            id: self.id@,
            name: opt_text(self.name),
            description: self.description@,
            explanation: self.explanation@,
        }
    }
}

impl Clone for Entry {
    fn clone(&self) -> (r: Self)
        ensures
            r@ == self@,
    {
        let name = match &self.name {
            Some(n) => Some(n.clone()),
            None => None,
        };
        Entry {
            id: self.id.clone(),
            name,
            description: self.description.clone(),
            explanation: self.explanation.clone(),
        }
    }
}

impl Entry {
    /// Construct a new entry with a required id, description, and explanation.
    pub fn new(id: EntryId, description: String, explanation: String) -> (r: Entry)
        ensures
            r@ == (EntryModel {
                id: id@,
                name: None,
                description: description@,
                explanation: explanation@,
            }),
    {
        Entry { id, name: None, description, explanation }
    }

    /// Attach an optional human-readable name.
    pub fn with_name(self, name: String) -> (r: Entry)
        ensures
            r@ == (EntryModel { name: Some(name@), ..self@ }),
    {
        let mut entry = self;
        entry.name = Some(name);
        entry
    }

    /// The entry's nominal identifier.
    pub fn id(&self) -> (r: &EntryId)
        ensures
            r@ == self@.id,
    {
        &self.id
    }

    /// The optional human-readable concept name.
    pub fn name(&self) -> (r: Option<&str>)
        ensures
            match r {
                Some(s) => self@.name == Some(s@),
                None => self@.name is None,
            },
    {
        match &self.name {
            Some(n) => Some(n.as_str()),
            None => None,
        }
    }

    /// The concise summary of the entry's claim.
    pub fn description(&self) -> (r: &str)
        ensures
            r@ == self@.description,
    {
        self.description.as_str()
    }

    /// The full account of the entry's content and rationale.
    pub fn explanation(&self) -> (r: &str)
        ensures
            r@ == self@.explanation,
    {
        self.explanation.as_str()
    }

    /// Replace the human-readable name.
    pub fn set_name(&mut self, name: Option<String>)
        ensures
            final(self)@ == (EntryModel { name: opt_text(name), ..old(self)@ }),
    {
        self.name = name;
    }

    /// Replace the description.
    pub fn set_description(&mut self, description: String)
        ensures
            final(self)@ == (EntryModel { description: description@, ..old(self)@ }),
    {
        self.description = description;
    }

    /// Replace the explanation.
    pub fn set_explanation(&mut self, explanation: String)
        ensures
            final(self)@ == (EntryModel { explanation: explanation@, ..old(self)@ }),
    {
        self.explanation = explanation;
    }
}

} // verus!
