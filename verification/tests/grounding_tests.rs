use sirno::entry::EntryId;
use sirno::grounding::{
    GrepGrounding, Grounding, GroundingFailure, GroundingValidationError, GroundingValidator,
    SearchPattern, Span, SpanBound, StructuralGroundingValidator, TelescopeAnchor, TelescopeGrounding,
    Witness,
};

fn anchor(id: &str) -> TelescopeAnchor {
    TelescopeAnchor::new(EntryId::new(id))
}

#[test]
fn grep_groundings_are_structurally_valid() {
    let entry = EntryId::new("e");
    let g = Grounding::Grep(GrepGrounding::new(vec![SearchPattern::Regex("x.*".to_string())]));
    assert_eq!(g.validate_structure(&entry), Ok(()));
}

#[test]
fn telescope_anchor_must_name_owner() {
    let entry = EntryId::new("e");
    let g = TelescopeGrounding::new(anchor("other"));
    assert_eq!(
        g.validate_structure(&entry),
        Err(GroundingValidationError::AnchorEntryMismatch {
            entry: EntryId::new("e"),
            anchor_entry: EntryId::new("other")
        })
    );
    assert_eq!(TelescopeGrounding::new(anchor("e")).validate_structure(&entry), Ok(()));
}

#[test]
fn span_start_checked_before_end() {
    let entry = EntryId::new("e");
    let span = Span { start: SpanBound::Anchor(anchor("s")), end: SpanBound::Anchor(anchor("t")) };
    assert_eq!(
        span.validate_structure(&entry),
        Err(GroundingValidationError::SpanStartEntryMismatch {
            entry: EntryId::new("e"),
            anchor_entry: EntryId::new("s")
        })
    );
    let span = Span { start: SpanBound::ScopeBoundary, end: SpanBound::Anchor(anchor("t")) };
    assert_eq!(
        span.validate_structure(&entry),
        Err(GroundingValidationError::SpanEndEntryMismatch {
            entry: EntryId::new("e"),
            anchor_entry: EntryId::new("t")
        })
    );
}

#[test]
fn witness_mismatch_is_reported_as_witness() {
    let entry = EntryId::new("e");
    let witness = Witness { span: Span { start: SpanBound::Anchor(anchor("w")), end: SpanBound::ScopeBoundary } };
    assert_eq!(
        witness.validate_structure(&entry),
        Err(GroundingValidationError::WitnessEntryMismatch {
            entry: EntryId::new("e"),
            anchor_entry: EntryId::new("w")
        })
    );
    let g = Grounding::Telescope(
        TelescopeGrounding::new(anchor("e"))
            .with_spans(vec![Span { start: SpanBound::Anchor(anchor("e")), end: SpanBound::ScopeBoundary }])
            .with_witnesses(vec![witness]),
    );
    let validator = StructuralGroundingValidator;
    assert_eq!(
        validator.validate(&entry, &g),
        Err(GroundingValidationError::WitnessEntryMismatch {
            entry: EntryId::new("e"),
            anchor_entry: EntryId::new("w")
        })
    );
}

#[test]
fn spans_checked_before_witnesses() {
    let entry = EntryId::new("e");
    let g = Grounding::Telescope(
        TelescopeGrounding::new(anchor("e"))
            .with_spans(vec![
                Span { start: SpanBound::ScopeBoundary, end: SpanBound::ScopeBoundary },
                Span { start: SpanBound::ScopeBoundary, end: SpanBound::Anchor(anchor("x")) },
            ])
            .with_witnesses(vec![Witness {
                span: Span { start: SpanBound::Anchor(anchor("y")), end: SpanBound::ScopeBoundary },
            }]),
    );
    assert_eq!(
        g.validate_structure(&entry),
        Err(GroundingValidationError::SpanEndEntryMismatch {
            entry: EntryId::new("e"),
            anchor_entry: EntryId::new("x")
        })
    );
}

#[test]
fn grounding_failure_reports_its_parts() {
    let f = GroundingFailure::new(
        EntryId::new("e"),
        3,
        GroundingValidationError::GrepMiss { entry: EntryId::new("e") },
    );
    assert_eq!(f.entry().as_str(), "e");
    assert_eq!(f.grounding_index(), 3);
    assert_eq!(f.source(), &GroundingValidationError::GrepMiss { entry: EntryId::new("e") });
}

#[test]
fn grep_grounding_keeps_patterns() {
    let g = GrepGrounding::new(vec![SearchPattern::Glob("*.rs".to_string()), SearchPattern::Literal("x".to_string())]);
    assert_eq!(g.patterns().len(), 2);
    assert!(matches!(g.patterns()[0], SearchPattern::Glob(_)));
}
