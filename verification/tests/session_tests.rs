use sirno::entry::EntryId;
use sirno::graph::Graph;
use sirno::mutation::{FieldUpdate, Justification, Mutation, Patch, Polarity};
use sirno::obligation::{Obligation, ObligationId, ObligationStatus};
use sirno::session::{Checkpoint, Session};

fn obligation(n: u64, status: ObligationStatus) -> Obligation {
    Obligation { id: ObligationId::new(n), target: EntryId::new("t"), cause: EntryId::new("c"), status }
}

#[test]
fn obligation_id_round_trip() {
    assert_eq!(ObligationId::new(42).as_u64(), 42);
    assert_eq!(ObligationId::new(7), ObligationId::new(7));
    assert_ne!(ObligationId::new(7), ObligationId::new(8));
}

#[test]
fn patch_keeps_mutation_order() {
    let mut patch = Patch::new();
    assert!(patch.is_empty());
    patch.push(Mutation::Lock(EntryId::new("a")));
    patch.push(Mutation::Unlock(EntryId::new("a")));
    assert!(!patch.is_empty());
    assert_eq!(patch.mutations().len(), 2);
    assert!(matches!(patch.mutations()[0], Mutation::Lock(_)));
    assert!(matches!(patch.mutations()[1], Mutation::Unlock(_)));
}

#[test]
fn field_update_defaults_to_unchanged() {
    let u: FieldUpdate<String> = FieldUpdate::default();
    assert_eq!(u, FieldUpdate::Unchanged);
    assert_ne!(Polarity::Actualization, Polarity::Reflection);
}

#[test]
fn session_commit_requires_discharge_and_approval() {
    let mut session = Session::new(Checkpoint::new(Graph::new()));
    assert!(session.patch.is_empty());
    assert!(session.can_commit());
    session.obligations.push(obligation(1, ObligationStatus::Discharged));
    assert!(session.is_obligation_complete());
    assert!(session.can_commit());
    session.obligations.push(obligation(2, ObligationStatus::Pending));
    assert!(!session.is_obligation_complete());
    assert!(session.is_approval_complete());
    assert!(!session.can_commit());
    session.obligations.push(obligation(
        3,
        ObligationStatus::AwaitingApproval(Justification {
            mutation: Mutation::RemoveEntry(EntryId::new("t")),
            argument: EntryId::new("why"),
        }),
    ));
    assert!(!session.is_approval_complete());
    assert!(!session.can_commit());
}
