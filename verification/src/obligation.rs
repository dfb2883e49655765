//! Obligations: proof burdens generated when entries are mutated.
//!
//! When an entry changes and a dependency edge exists, downstream entries
//! must be re-examined for consistency. An obligation tracks that burden
//! until it is discharged.

use vstd::prelude::*;

use crate::entry::EntryId;
use crate::mutation::Justification;

verus! {

/// Unique identifier for an obligation within a session.
#[derive(Clone, Debug, PartialEq, Eq, Hash, Structural)]
pub struct ObligationId(u64);

impl View for ObligationId {
    type V = u64;

    closed spec fn view(&self) -> u64 {
        self.0
    }
}

impl ObligationId {
    /// An identifier with the given number.
    pub fn new(id: u64) -> (r: ObligationId)
        ensures
            r@ == id,
    {
        ObligationId(id)
    }

    /// The number of this identifier.
    pub fn as_u64(&self) -> (r: u64)
        ensures
            r == self@,
    {
        self.0
    }

    /// Identifiers are told apart by their numbers alone: two identifiers are
    /// equal exactly when their numbers are.
    pub proof fn lemma_eq_iff_same_number(a: ObligationId, b: ObligationId)
        ensures
            (a == b) <==> (a@ == b@),
    {
    }
}

/// A proof burden on a downstream entry.
#[derive(Clone, Debug)]
pub struct Obligation {
    /// Unique id within the session.
    pub id: ObligationId,
    /// The entry that must be re-examined.
    pub target: EntryId,
    /// The entry whose mutation induced this obligation.
    pub cause: EntryId,
    /// Current discharge status.
    pub status: ObligationStatus,
}

/// Discharge status of an obligation.
#[derive(Clone, Debug)]
pub enum ObligationStatus {
    /// Not yet examined.
    Pending,
    /// The agent confirmed the target entry remains valid, or updated it.
    Discharged,
    /// The target entry is locked; a justification has been submitted and
    /// awaits approval.
    AwaitingApproval(Justification),
}

} // verus!
