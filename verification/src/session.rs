//! Sessions, checkpoints, and commit logic.
//!
//! A checkpoint is an immutable snapshot of a coherent graph state.
//! A session is the working interval between two checkpoints, overlaying
//! a mutable patch and pending obligations on top of a frozen base.

use vstd::prelude::*;

use crate::graph::Graph;
use crate::mutation::{Mutation, Patch};
use crate::obligation::{Obligation, ObligationStatus};

verus! {

/// Immutable snapshot of the graph at a moment of coherence.
///
/// Every checkpoint satisfies the coherence invariant: all obligations
/// discharged and all groundings accurate.
#[derive(Clone, Debug)]
pub struct Checkpoint {
    /// The graph state at the time of the snapshot.
    pub graph: Graph,
}

impl Checkpoint {
    /// Create a checkpoint from a graph that is assumed coherent.
    ///
    /// Coherence is not verified at construction. The caller is responsible
    /// for ensuring all obligations are discharged.
    pub fn new(graph: Graph) -> (r: Checkpoint)
        ensures
            r.graph == graph,
    {
        Checkpoint { graph }
    }
}

/// Whether every obligation has been discharged.
pub open spec fn all_discharged(obligations: Seq<Obligation>) -> bool {
    forall|i: int| 0 <= i < obligations.len() ==> (#[trigger] obligations[i]).status is Discharged
}

/// Whether no obligation is waiting for approval.
pub open spec fn none_awaiting(obligations: Seq<Obligation>) -> bool {
    forall|i: int|
        0 <= i < obligations.len() ==> !((#[trigger] obligations[i]).status is AwaitingApproval)
}

/// Working interval between two checkpoints.
///
/// Operates against `base` as a frozen checkpoint, overlaid with an
/// in-progress `patch`. The working state is visible only to the active
/// session; other observers see the last checkpoint.
#[derive(Clone, Debug)]
pub struct Session {
    /// The frozen base checkpoint.
    pub base: Checkpoint,
    /// Accumulated mutations since the base.
    pub patch: Patch,
    /// Outstanding proof burdens.
    pub obligations: Vec<Obligation>,
}

impl Session {
    /// Start a new session from a checkpoint: an empty patch and no
    /// obligations.
    pub fn new(base: Checkpoint) -> (r: Session)
        ensures
            r.base == base,
            r.patch@ == Seq::<Mutation>::empty(),
            r.obligations@ == Seq::<Obligation>::empty(),
    {
        Session { base, patch: Patch::new(), obligations: Vec::new() }
    }

    /// Whether all obligations have been discharged.
    pub fn is_obligation_complete(&self) -> (r: bool)
        ensures
            r == all_discharged(self.obligations@),
    {
        let mut i: usize = 0;
        while i < self.obligations.len()
            invariant
                i <= self.obligations@.len(),
                forall|j: int| 0 <= j < i ==> (#[trigger] self.obligations@[j]).status is Discharged,
            decreases self.obligations@.len() - i,
        {
            match self.obligations[i].status {
                ObligationStatus::Discharged => {},
                _ => {
                    return false;
                },
            }
            i += 1;
        }
        true
    }

    /// Whether all locked-entry mutations have been approved.
    pub fn is_approval_complete(&self) -> (r: bool)
        ensures
            r == none_awaiting(self.obligations@),
    {
        let mut i: usize = 0;
        while i < self.obligations.len()
            invariant
                i <= self.obligations@.len(),
                forall|j: int|
                    0 <= j < i ==> !((#[trigger] self.obligations@[j]).status is AwaitingApproval),
            decreases self.obligations@.len() - i,
        {
            match self.obligations[i].status {
                ObligationStatus::AwaitingApproval(_) => {
                    return false;
                },
                _ => {},
            }
            i += 1;
        }
        true
    }

    /// Whether the patch can be promoted to a new checkpoint.
    ///
    /// Requires both obligation-completeness and approval-completeness.
    pub fn can_commit(&self) -> (r: bool)
        ensures
            r == (all_discharged(self.obligations@) && none_awaiting(self.obligations@)),
    {
        self.is_obligation_complete() && self.is_approval_complete()
    }
}

/// Discharging every obligation leaves none awaiting approval, so a session
/// can commit exactly when all its obligations are discharged.
pub proof fn lemma_commit_iff_discharged(obligations: Seq<Obligation>)
    ensures
        all_discharged(obligations) ==> none_awaiting(obligations),
        (all_discharged(obligations) && none_awaiting(obligations)) == all_discharged(obligations),
{
    if all_discharged(obligations) {
        assert forall|i: int| 0 <= i < obligations.len() implies !((
        #[trigger] obligations[i]).status is AwaitingApproval) by {
            assert(obligations[i].status is Discharged);
        }
    }
}

/// A session with no obligations has nothing left to discharge or approve.
pub proof fn lemma_no_obligations_commit()
    ensures
        all_discharged(Seq::<Obligation>::empty()),
        none_awaiting(Seq::<Obligation>::empty()),
{
}

/// Adding an obligation keeps the obligations discharged exactly when the new
/// one is discharged, and keeps none awaiting approval exactly when the new
/// one is not awaiting approval.
pub proof fn lemma_readiness_push(obligations: Seq<Obligation>, o: Obligation)
    ensures
        all_discharged(obligations.push(o)) <==> (all_discharged(obligations)
            && o.status is Discharged),
        none_awaiting(obligations.push(o)) <==> (none_awaiting(obligations)
            && !(o.status is AwaitingApproval)),
{
    let s = obligations.push(o);
    assert(s[s.len() - 1] == o);
    if all_discharged(obligations) && o.status is Discharged {
        assert forall|i: int| 0 <= i < s.len() implies (#[trigger] s[i]).status is Discharged by {
            if i < obligations.len() {
                assert(s[i] == obligations[i]);
            }
        }
    }
    if all_discharged(s) {
        assert forall|i: int| 0 <= i < obligations.len() implies (
        #[trigger] obligations[i]).status is Discharged by {
            assert(s[i] == obligations[i]);
        }
    }
    if none_awaiting(obligations) && !(o.status is AwaitingApproval) {
        assert forall|i: int| 0 <= i < s.len() implies !((
        #[trigger] s[i]).status is AwaitingApproval) by {
            if i < obligations.len() {
                assert(s[i] == obligations[i]);
            }
        }
    }
    if none_awaiting(s) {
        assert forall|i: int| 0 <= i < obligations.len() implies !((
        #[trigger] obligations[i]).status is AwaitingApproval) by {
            assert(s[i] == obligations[i]);
        }
    }
}

/// One obligation that is not discharged, at any position, blocks the
/// commit; one awaiting approval, at any position, leaves approval
/// incomplete.
pub proof fn lemma_undischarged_blocks_commit(obligations: Seq<Obligation>, i: int)
    requires
        0 <= i < obligations.len(),
    ensures
        !(obligations[i].status is Discharged) ==> !all_discharged(obligations)
            && !(all_discharged(obligations) && none_awaiting(obligations)),
        obligations[i].status is AwaitingApproval ==> !none_awaiting(obligations),
{
}

/// A single obligation lets the session commit exactly when it is
/// discharged.
pub proof fn lemma_single_obligation(o: Obligation)
    ensures
        all_discharged(seq![o]) <==> o.status is Discharged,
        none_awaiting(seq![o]) <==> !(o.status is AwaitingApproval),
        (all_discharged(seq![o]) && none_awaiting(seq![o])) <==> o.status is Discharged,
{
    lemma_readiness_push(Seq::<Obligation>::empty(), o);
    lemma_no_obligations_commit();
    assert(Seq::<Obligation>::empty().push(o) =~= seq![o]);
}

} // verus!
