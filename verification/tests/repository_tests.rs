use std::path::PathBuf;

use sirno::entry::EntryId;
use sirno::grounding::{
    GrepGrounding, Grounding, GroundingValidationError, SearchPattern, Span, SpanBound,
    TelescopeAnchor, TelescopeGrounding, Witness,
};
use sirno::repository::{
    path_matches_glob, path_matches_glob_with, should_skip_dir, telescope_marker, text_contains,
    text_has_anchor,
    wildcard_matches,
    CheckStep, Probe, RepositoryCheck, WorkspaceGroundingValidator,
};

fn probe_of(step: &CheckStep) -> Probe {
    match step {
        CheckStep::Probe(p) => p.clone(),
        other => panic!("expected a probe, got {other:?}"),
    }
}

fn verdict(step: CheckStep) -> Result<(), GroundingValidationError> {
    match step {
        CheckStep::Done(r) => r,
        other => panic!("expected a verdict, got {other:?}"),
    }
}

#[test]
fn wildcard_star_and_question_mark() {
    assert!(wildcard_matches("src/lib.rs", "src/*.rs"));
    assert!(wildcard_matches("src/lib.rs", "*"));
    assert!(wildcard_matches("", "*"));
    assert!(wildcard_matches("", ""));
    assert!(!wildcard_matches("a", ""));
    assert!(wildcard_matches("abc", "a?c"));
    assert!(!wildcard_matches("ac", "a?c"));
    assert!(wildcard_matches("aXbYb", "a*b"));
    assert!(!wildcard_matches("aXbYc", "a*b"));
    assert!(wildcard_matches("mississippi", "m*iss*ppi"));
    assert!(wildcard_matches("abcd", "**a*d*"));
    assert!(!wildcard_matches("src/lib.rs", "src/*.toml"));
}

#[test]
fn wildcard_star_in_text_is_still_matched_by_pattern_star() {
    assert!(wildcard_matches("*ab", "*b"));
    assert!(wildcard_matches("a*", "a*"));
    assert!(!wildcard_matches("ab", "a*c"));
}

#[test]
fn path_glob_normalizes_separators() {
    assert!(path_matches_glob_with("src\\lib.rs", "src/*.rs", '\\'));
    assert!(path_matches_glob_with("src/lib.rs", "src\\*.rs", '\\'));
    assert!(!path_matches_glob_with("src\\lib.rs", "src/*.rs", '/'));
    for (path, glob) in [("src\\lib.rs", "src/*.rs"), ("a\\b\\c", "a/*/c"), ("a\\b", "a\\?"), ("x/y", "x\\z")] {
        assert_eq!(
            path_matches_glob_with(path, glob, '\\'),
            wildcard_matches(&path.replace('\\', "/"), &glob.replace('\\', "/"))
        );
    }
    assert!(path_matches_glob("src/lib.rs", "src/*.rs"));
    assert!(!path_matches_glob("src/lib.rs", "tests/*.rs"));
}

#[test]
fn skipped_directories() {
    assert!(should_skip_dir(Some(".git")));
    assert!(should_skip_dir(Some(".jj")));
    assert!(should_skip_dir(Some("target")));
    assert!(!should_skip_dir(Some("src")));
    assert!(!should_skip_dir(Some("targets")));
    assert!(!should_skip_dir(None));
}

#[test]
fn marker_format() {
    assert_eq!(telescope_marker(&EntryId::new("entry-a")), "@sirno:entry-a");
}

#[test]
fn text_containment() {
    assert!(text_contains("let value = \"needle\";", "needle"));
    assert!(text_contains("needle", "needle"));
    assert!(text_contains("abc", ""));
    assert!(text_contains("", ""));
    assert!(!text_contains("", "a"));
    assert!(!text_contains("needl", "needle"));
    assert!(!text_contains("Needle", "needle"));
    assert!(text_contains("ééxé", "xé"));
}

#[test]
fn workspace_validator_clones_keep_the_root() {
    let v = WorkspaceGroundingValidator::new(PathBuf::from("/tmp/work"));
    let w = v.clone();
    assert_eq!(w.root(), v.root());
}

#[test]
fn anchors_match_whole_ids_only() {
    let a = EntryId::new("entry-a");
    assert!(!text_has_anchor("// @sirno:entry-ab\n", &a));
    assert!(!text_has_anchor("// @sirno:entry-a_b\n", &a));
    assert!(!text_has_anchor("// @sirno:entry-a-b\n", &a));
    assert!(text_has_anchor("// @sirno:entry-a\n", &a));
    assert!(text_has_anchor("x @sirno:entry-a", &a));
    assert!(text_has_anchor("see @sirno:entry-a.", &a));
    assert!(text_has_anchor("// @sirno:entry-ab @sirno:entry-a\n", &a));
    assert!(!text_has_anchor("// sirno:entry-a\n", &a));
    assert!(!text_has_anchor("", &a));
    assert!(text_has_anchor("// @sirno:entry-ab\n", &EntryId::new("entry-ab")));
}

#[test]
fn grep_check_succeeds_on_first_hit() {
    let entry = EntryId::new("entry-a");
    let g = Grounding::Grep(GrepGrounding::new(vec![
        SearchPattern::Regex("x.*".to_string()),
        SearchPattern::Literal("needle".to_string()),
        SearchPattern::Glob("src/*.rs".to_string()),
    ]));
    let (mut check, step) = RepositoryCheck::start(&entry, &g);
    assert_eq!(probe_of(&step), Probe::FileContains("needle".to_string()));
    assert!(check.awaiting_answer());
    let step = check.advance(Ok(false));
    assert_eq!(probe_of(&step), Probe::PathMatches("src/*.rs".to_string()));
    assert_eq!(verdict(check.advance(Ok(true))), Ok(()));
    assert!(!check.awaiting_answer());
}

#[test]
fn grep_check_misses_when_no_pattern_hits() {
    let entry = EntryId::new("entry-a");
    let g = Grounding::Grep(GrepGrounding::new(vec![SearchPattern::Literal("needle".to_string())]));
    let (mut check, step) = RepositoryCheck::start(&entry, &g);
    assert_eq!(probe_of(&step), Probe::FileContains("needle".to_string()));
    assert_eq!(verdict(check.advance(Ok(false))), Err(GroundingValidationError::GrepMiss { entry }));
}

#[test]
fn grep_check_with_only_regex_patterns_succeeds_without_probing() {
    let entry = EntryId::new("entry-a");
    let g = Grounding::Grep(GrepGrounding::new(vec![SearchPattern::Regex("needle.*".to_string())]));
    let (check, step) = RepositoryCheck::start(&entry, &g);
    assert_eq!(verdict(step), Ok(()));
    assert!(!check.awaiting_answer());
}

#[test]
fn grep_check_passes_on_repository_errors() {
    let entry = EntryId::new("entry-a");
    let g = Grounding::Grep(GrepGrounding::new(vec![SearchPattern::Literal("needle".to_string())]));
    let (mut check, _) = RepositoryCheck::start(&entry, &g);
    let io = GroundingValidationError::RepositoryIo { path: "p".to_string(), message: "m".to_string() };
    assert_eq!(verdict(check.advance(Err(io.clone()))), Err(io));
}

#[test]
fn telescope_check_probes_anchor_markers_in_order() {
    let entry = EntryId::new("entry-a");
    let g = Grounding::Telescope(
        TelescopeGrounding::new(TelescopeAnchor::new(entry.clone()))
            .with_spans(vec![Span {
                start: SpanBound::Anchor(TelescopeAnchor::new(entry.clone())),
                end: SpanBound::ScopeBoundary,
            }])
            .with_witnesses(vec![Witness {
                span: Span {
                    start: SpanBound::ScopeBoundary,
                    end: SpanBound::Anchor(TelescopeAnchor::new(entry.clone())),
                },
            }]),
    );
    let (mut check, step) = RepositoryCheck::start(&entry, &g);
    assert_eq!(probe_of(&step), Probe::HasAnchor(EntryId::new("entry-a")));
    let step = check.advance(Ok(true));
    assert_eq!(probe_of(&step), Probe::HasAnchor(EntryId::new("entry-a")));
    let step = check.advance(Ok(true));
    assert_eq!(probe_of(&step), Probe::HasAnchor(EntryId::new("entry-a")));
    assert_eq!(
        verdict(check.advance(Ok(false))),
        Err(GroundingValidationError::WitnessMismatch { entry: entry.clone() })
    );
}

#[test]
fn telescope_check_rejects_missing_anchor() {
    let entry = EntryId::new("entry-a");
    let g = Grounding::Telescope(TelescopeGrounding::new(TelescopeAnchor::new(entry.clone())));
    let (mut check, _) = RepositoryCheck::start(&entry, &g);
    assert_eq!(
        verdict(check.advance(Ok(false))),
        Err(GroundingValidationError::MissingAnchor { entry: entry.clone() })
    );
    let (mut check, _) = RepositoryCheck::start(&entry, &g);
    assert_eq!(verdict(check.advance(Ok(true))), Ok(()));
}

#[test]
fn marker_of_a_longer_id_leaves_the_anchor_missing() {
    let entry = EntryId::new("entry-a");
    let g = Grounding::Telescope(TelescopeGrounding::new(TelescopeAnchor::new(entry.clone())));
    let (mut check, step) = RepositoryCheck::start(&entry, &g);
    let found = match probe_of(&step) {
        Probe::HasAnchor(id) => text_has_anchor("// @sirno:entry-ab\n", &id),
        other => panic!("expected an anchor probe, got {other:?}"),
    };
    assert!(!found);
    assert_eq!(
        verdict(check.advance(Ok(found))),
        Err(GroundingValidationError::MissingAnchor { entry: entry.clone() })
    );
}

#[test]
fn telescope_check_reports_structure_before_probing() {
    let entry = EntryId::new("entry-a");
    let g = Grounding::Telescope(TelescopeGrounding::new(TelescopeAnchor::new(EntryId::new("other"))));
    let (check, step) = RepositoryCheck::start(&entry, &g);
    assert_eq!(
        verdict(step),
        Err(GroundingValidationError::AnchorEntryMismatch {
            entry: entry.clone(),
            anchor_entry: EntryId::new("other")
        })
    );
    assert!(!check.awaiting_answer());
}

#[test]
fn witness_probe_failure_is_a_witness_mismatch() {
    let entry = EntryId::new("entry-a");
    let g = Grounding::Telescope(TelescopeGrounding::new(TelescopeAnchor::new(entry.clone())).with_witnesses(vec![
        Witness { span: Span { start: SpanBound::Anchor(TelescopeAnchor::new(entry.clone())), end: SpanBound::ScopeBoundary } },
    ]));
    let (mut check, _) = RepositoryCheck::start(&entry, &g);
    let _ = check.advance(Ok(true));
    let io = GroundingValidationError::RepositoryIo { path: "p".to_string(), message: "m".to_string() };
    assert_eq!(verdict(check.advance(Err(io))), Err(GroundingValidationError::WitnessMismatch { entry }));
}

#[test]
fn workspace_validator_keeps_its_root() {
    let v = WorkspaceGroundingValidator::new(PathBuf::from("/tmp/work"));
    assert_eq!(v.root(), &PathBuf::from("/tmp/work"));
}

#[test]
fn wildcard_free_pattern_matches_only_itself() {
    assert!(wildcard_matches("abc", "abc"));
    assert!(!wildcard_matches("abd", "abc"));
    assert!(!wildcard_matches("abcd", "abc"));
    assert!(!wildcard_matches("ab", "abc"));
}
