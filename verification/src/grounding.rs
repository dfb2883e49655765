//! Grounding maps entries to locations in the codebase.
//!
//! Groundings are the interpretation function from the abstract knowledge
//! graph into concrete syntax. Two mechanisms are provided: heuristic
//! search (grep) and nominal anchor (telescope).

use vstd::prelude::*;

use crate::entry::EntryId;

verus! {

/// A grounding mechanism mapping an entry to code locations.
#[derive(Clone, Debug)]
pub enum Grounding {
    Grep(GrepGrounding),
    Telescope(TelescopeGrounding),
}

/// Mathematical model of a grounding validation failure.
pub enum Fault {
    AnchorEntryMismatch { entry: Seq<char>, anchor_entry: Seq<char> },
    SpanStartEntryMismatch { entry: Seq<char>, anchor_entry: Seq<char> },
    SpanEndEntryMismatch { entry: Seq<char>, anchor_entry: Seq<char> },
    WitnessEntryMismatch { entry: Seq<char>, anchor_entry: Seq<char> },
    GrepMiss { entry: Seq<char> },
    MissingAnchor { entry: Seq<char> },
    WitnessMismatch { entry: Seq<char> },
    RepositoryIo { path: Seq<char>, message: Seq<char> },
}

/// Failure reported while validating a grounding.
#[derive(Debug, PartialEq, Eq)]
pub enum GroundingValidationError {
    /// The telescope anchor names a different entry than the grounding owner.
    AnchorEntryMismatch { entry: EntryId, anchor_entry: EntryId },
    /// A span start anchor names a different entry than the grounding owner.
    SpanStartEntryMismatch { entry: EntryId, anchor_entry: EntryId },
    /// A span end anchor names a different entry than the grounding owner.
    SpanEndEntryMismatch { entry: EntryId, anchor_entry: EntryId },
    /// A witness span contains an anchor for a different entry than the grounding owner.
    WitnessEntryMismatch { entry: EntryId, anchor_entry: EntryId },
    /// An external grep check found no code corresponding to the grounding.
    GrepMiss { entry: EntryId },
    /// An external telescope check could not resolve the anchored code location.
    MissingAnchor { entry: EntryId },
    /// An external witness check determined that the code no longer supports the claim.
    WitnessMismatch { entry: EntryId },
    /// The repository could not be read while checking a grounding.
    RepositoryIo { path: String, message: String },
}

impl View for GroundingValidationError {
    type V = Fault;

    open spec fn view(&self) -> Fault {
        match self {
            GroundingValidationError::AnchorEntryMismatch { entry, anchor_entry } => {
                Fault::AnchorEntryMismatch { entry: entry@, anchor_entry: anchor_entry@ }
            },
            GroundingValidationError::SpanStartEntryMismatch { entry, anchor_entry } => {
                Fault::SpanStartEntryMismatch { entry: entry@, anchor_entry: anchor_entry@ }
            },
            GroundingValidationError::SpanEndEntryMismatch { entry, anchor_entry } => {
                Fault::SpanEndEntryMismatch { entry: entry@, anchor_entry: anchor_entry@ }
            },
            GroundingValidationError::WitnessEntryMismatch { entry, anchor_entry } => {
                Fault::WitnessEntryMismatch { entry: entry@, anchor_entry: anchor_entry@ }
            },
            GroundingValidationError::GrepMiss { entry } => Fault::GrepMiss { entry: entry@ },
            GroundingValidationError::MissingAnchor { entry } => Fault::MissingAnchor { entry: entry@ },
            GroundingValidationError::WitnessMismatch { entry } => Fault::WitnessMismatch { entry: entry@ },
            GroundingValidationError::RepositoryIo { path, message } => {
                Fault::RepositoryIo { path: path@, message: message@ }
            },
        }
    }
}

impl Clone for GroundingValidationError {
    fn clone(&self) -> (r: Self)
        ensures
            r@ == self@,
    {
        match self {
            GroundingValidationError::AnchorEntryMismatch { entry, anchor_entry } => {
                GroundingValidationError::AnchorEntryMismatch {
                    entry: entry.clone(),
                    anchor_entry: anchor_entry.clone(),
                }
            },
            GroundingValidationError::SpanStartEntryMismatch { entry, anchor_entry } => {
                GroundingValidationError::SpanStartEntryMismatch {
                    entry: entry.clone(),
                    anchor_entry: anchor_entry.clone(),
                }
            },
            GroundingValidationError::SpanEndEntryMismatch { entry, anchor_entry } => {
                GroundingValidationError::SpanEndEntryMismatch {
                    entry: entry.clone(),
                    anchor_entry: anchor_entry.clone(),
                }
            },
            GroundingValidationError::WitnessEntryMismatch { entry, anchor_entry } => {
                GroundingValidationError::WitnessEntryMismatch {
                    entry: entry.clone(),
                    anchor_entry: anchor_entry.clone(),
                }
            },
            GroundingValidationError::GrepMiss { entry } => {
                GroundingValidationError::GrepMiss { entry: entry.clone() }
            },
            GroundingValidationError::MissingAnchor { entry } => {
                GroundingValidationError::MissingAnchor { entry: entry.clone() }
            },
            GroundingValidationError::WitnessMismatch { entry } => {
                GroundingValidationError::WitnessMismatch { entry: entry.clone() }
            },
            GroundingValidationError::RepositoryIo { path, message } => {
                GroundingValidationError::RepositoryIo { path: path.clone(), message: message.clone() }
            },
        }
    }
}

/// The fault a span bound reports for `entry`, if any.
pub open spec fn bound_fault(bound: SpanBound, entry: Seq<char>, at_start: bool) -> Option<Fault> {
    match bound {
        SpanBound::ScopeBoundary => None,
        SpanBound::Anchor(anchor) => {
            if anchor.entry_id@ == entry {
                None
            } else if at_start {
                Some(Fault::SpanStartEntryMismatch { entry, anchor_entry: anchor.entry_id@ })
            } else {
                Some(Fault::SpanEndEntryMismatch { entry, anchor_entry: anchor.entry_id@ })
            }
        },
    }
}

/// The first fault of a span: its start bound is checked before its end.
pub open spec fn span_fault(span: Span, entry: Seq<char>) -> Option<Fault> {
    match bound_fault(span.start, entry, true) {
        Some(f) => Some(f),
        None => bound_fault(span.end, entry, false),
    }
}

/// A witness reports a span mismatch as a witness mismatch.
pub open spec fn witness_fault(witness: Witness, entry: Seq<char>) -> Option<Fault> {
    match span_fault(witness.span, entry) {
        Some(Fault::SpanStartEntryMismatch { entry, anchor_entry }) => Some(
            Fault::WitnessEntryMismatch { entry, anchor_entry },
        ),
        Some(Fault::SpanEndEntryMismatch { entry, anchor_entry }) => Some(
            Fault::WitnessEntryMismatch { entry, anchor_entry },
        ),
        other => other,
    }
}

/// The first fault among `spans`, in order.
pub open spec fn first_span_fault(spans: Seq<Span>, entry: Seq<char>) -> Option<Fault>
    decreases spans.len(),
{
    if spans.len() == 0 {
        None
    } else {
        match span_fault(spans[0], entry) {
            Some(f) => Some(f),
            None => first_span_fault(spans.drop_first(), entry),
        }
    }
}

/// The first fault among `witnesses`, in order.
pub open spec fn first_witness_fault(witnesses: Seq<Witness>, entry: Seq<char>) -> Option<Fault>
    decreases witnesses.len(),
{
    if witnesses.len() == 0 {
        None
    } else {
        match witness_fault(witnesses[0], entry) {
            Some(f) => Some(f),
            None => first_witness_fault(witnesses.drop_first(), entry),
        }
    }
}

/// The first structural fault of a telescope grounding owned by `entry`:
/// the anchor is checked first, then the spans, then the witnesses.
pub open spec fn telescope_fault(t: TelescopeGrounding, entry: Seq<char>) -> Option<Fault> {
    if t.anchor.entry_id@ != entry {
        Some(Fault::AnchorEntryMismatch { entry, anchor_entry: t.anchor.entry_id@ })
    } else {
        match first_span_fault(t.spans@, entry) {
            Some(f) => Some(f),
            None => first_witness_fault(t.witnesses@, entry),
        }
    }
}

/// The first structural fault of a grounding owned by `entry`. Grep
/// groundings carry no structural invariant.
pub open spec fn grounding_fault(g: Grounding, entry: Seq<char>) -> Option<Fault> {
    match g {
        Grounding::Grep(_) => None,
        Grounding::Telescope(t) => telescope_fault(t, entry),
    }
}

/// The result a structural check reports for a fault, if any.
pub open spec fn reports(r: Result<(), GroundingValidationError>, fault: Option<Fault>) -> bool {
    match r {
        Ok(()) => fault is None,
        Err(e) => fault == Some(e@),
    }
}

proof fn lemma_first_span_fault_skip(spans: Seq<Span>, entry: Seq<char>, i: int)
    requires
        0 <= i < spans.len(),
    ensures
        first_span_fault(spans.skip(i), entry) == match span_fault(spans[i], entry) {
            Some(f) => Some(f),
            None => first_span_fault(spans.skip(i + 1), entry),
        },
{
    assert(spans.skip(i)[0] == spans[i]);
    assert(spans.skip(i).drop_first() =~= spans.skip(i + 1));
}

proof fn lemma_first_witness_fault_skip(witnesses: Seq<Witness>, entry: Seq<char>, i: int)
    requires
        0 <= i < witnesses.len(),
    ensures
        first_witness_fault(witnesses.skip(i), entry) == match witness_fault(witnesses[i], entry) {
            Some(f) => Some(f),
            None => first_witness_fault(witnesses.skip(i + 1), entry),
        },
{
    assert(witnesses.skip(i)[0] == witnesses[i]);
    assert(witnesses.skip(i).drop_first() =~= witnesses.skip(i + 1));
}

impl Grounding {
    /// Validate the structural invariants encoded directly in this grounding.
    ///
    /// This check does not inspect the codebase. It only verifies invariants
    /// representable inside the graph data model.
    pub fn validate_structure(&self, entry: &EntryId) -> (r: Result<(), GroundingValidationError>)
        ensures
            reports(r, grounding_fault(*self, entry@)),
    {
        match self {
            Grounding::Grep(_) => Ok(()),
            Grounding::Telescope(grounding) => grounding.validate_structure(entry),
        }
    }
}

/// Validates whether a grounding still denotes the code claimed by an entry.
///
/// Callers that can inspect the codebase implement this trait and enforce
/// project-specific grounding checks during commit.
pub trait GroundingValidator {
    /// Validate one grounding attached to `entry`.
    fn validate(&self, entry: &EntryId, grounding: &Grounding) -> Result<
        (),
        GroundingValidationError,
    >;
}

/// Baseline grounding validator that checks only graph-internal invariants.
///
/// This validator does not inspect source files. It is sufficient for tests
/// and for invariants encoded directly in the graph, but it does not prove
/// that a grounding still locates the intended code.
#[derive(Clone, Copy, Debug, Default)]
pub struct StructuralGroundingValidator;

impl GroundingValidator for StructuralGroundingValidator {
    fn validate(&self, entry: &EntryId, grounding: &Grounding) -> (r: Result<
        (),
        GroundingValidationError,
    >)
        ensures
            reports(r, grounding_fault(*grounding, entry@)),
    {
        grounding.validate_structure(entry)
    }
}

/// Concrete report of which grounding failed validation.
#[derive(Clone, Debug, PartialEq, Eq)]
pub struct GroundingFailure {
    entry: EntryId,
    grounding_index: usize,
    source: GroundingValidationError,
}

impl GroundingFailure {
    /// Construct a grounding failure report.
    pub fn new(entry: EntryId, grounding_index: usize, source: GroundingValidationError) -> (r:
        GroundingFailure)
        ensures
            r.spec_entry() == entry,
            r.spec_grounding_index() == grounding_index,
            r.spec_source() == source,
    {
        GroundingFailure { entry, grounding_index, source }
    }

    pub closed spec fn spec_entry(&self) -> EntryId {
        self.entry
    }

    pub closed spec fn spec_grounding_index(&self) -> usize {
        self.grounding_index
    }

    pub closed spec fn spec_source(&self) -> GroundingValidationError {
        self.source
    }

    /// The entry that owns the invalid grounding.
    pub fn entry(&self) -> (r: &EntryId)
        ensures
            *r == self.spec_entry(),
    {
        &self.entry
    }

    /// The grounding's index within the owning entry's grounding list.
    pub fn grounding_index(&self) -> (r: usize)
        ensures
            r == self.spec_grounding_index(),
    {
        self.grounding_index
    }

    /// The specific validation failure.
    pub fn source(&self) -> (r: &GroundingValidationError)
        ensures
            *r == self.spec_source(),
    {
        &self.source
    }
}

// ---------------------------------------------------------------------------
// Grep grounding
// ---------------------------------------------------------------------------

/// Heuristic grounding via search patterns.
///
/// Grep groundings are approximate: they may over- or under-approximate
/// the true set of relevant locations. Useful for broad exploration and
/// for entries whose relevance is diffuse across the codebase.
#[derive(Clone, Debug)]
pub struct GrepGrounding {
    /// One or more search patterns that locate relevant code regions.
    patterns: Vec<SearchPattern>,
}

impl GrepGrounding {
    /// Construct a grep grounding from a list of patterns.
    ///
    /// An empty pattern list is accepted but produces no matches.
    pub fn new(patterns: Vec<SearchPattern>) -> (r: GrepGrounding)
        ensures
            r.spec_patterns() == patterns@,
    {
        GrepGrounding { patterns }
    }

    pub closed spec fn spec_patterns(&self) -> Seq<SearchPattern> {
        self.patterns@
    }

    /// The search patterns used by this grounding.
    pub fn patterns(&self) -> (r: &[SearchPattern])
        ensures
            r@ == self.spec_patterns(),
    {
        self.patterns.as_slice()
    }
}

/// A single search pattern used in grep grounding.
///
/// Search patterns carry executable search syntax rather than descriptive
/// prose, so they remain inline data instead of pointing at entries.
#[derive(Clone, Debug)]
pub enum SearchPattern {
    /// Regular expression.
    Regex(String),
    /// Literal string match.
    Literal(String),
    /// File glob pattern.
    Glob(String),
}

// ---------------------------------------------------------------------------
// Telescope grounding
// ---------------------------------------------------------------------------

/// An anchor embedded in a code comment (e.g., `// @sirno:entry-id`)
/// establishing a nominal binding between an entry and a precise code
/// location.
///
/// Telescope anchors survive refactoring as long as the comment moves
/// with the code.
#[derive(Clone, Debug, PartialEq, Eq, Hash)]
pub struct TelescopeAnchor {
    /// The entry this anchor binds to.
    pub entry_id: EntryId,
}

impl TelescopeAnchor {
    /// Construct an anchor for the given entry.
    pub fn new(entry_id: EntryId) -> (r: TelescopeAnchor)
        ensures
            r.entry_id == entry_id,
    {
        TelescopeAnchor { entry_id }
    }
}

/// Anchor-based grounding with optional derived views (spans, witnesses).
#[derive(Clone, Debug)]
pub struct TelescopeGrounding {
    /// The anchor establishing the code binding.
    pub anchor: TelescopeAnchor,
    /// Block-level code views derived from this anchor.
    pub spans: Vec<Span>,
    /// Code regions that serve as evidence for the entry's claim.
    pub witnesses: Vec<Witness>,
}

impl TelescopeGrounding {
    /// Construct a telescope grounding from an anchor, with no derived views.
    pub fn new(anchor: TelescopeAnchor) -> (r: TelescopeGrounding)
        ensures
            r.anchor == anchor,
            r.spans@.len() == 0,
            r.witnesses@.len() == 0,
    {
        TelescopeGrounding { anchor, spans: Vec::new(), witnesses: Vec::new() }
    }

    /// Validate the structural invariants encoded in this grounding: the
    /// anchor, every span anchor and every witness anchor must name `entry`.
    /// The first violation, in that order, is reported.
    pub fn validate_structure(&self, entry: &EntryId) -> (r: Result<(), GroundingValidationError>)
        ensures
            reports(r, telescope_fault(*self, entry@)),
    {
        if self.anchor.entry_id != *entry {
            return Err(
                GroundingValidationError::AnchorEntryMismatch {
                    entry: entry.clone(),
                    anchor_entry: self.anchor.entry_id.clone(),
                },
            );
        }
        let mut i: usize = 0;
        proof {
            assert(self.spans@.skip(0) =~= self.spans@);
        }
        while i < self.spans.len()
            invariant
                self.anchor.entry_id@ == entry@,
                i <= self.spans@.len(),
                first_span_fault(self.spans@, entry@) == first_span_fault(
                    self.spans@.skip(i as int),
                    entry@,
                ),
            decreases self.spans@.len() - i,
        {
            proof {
                lemma_first_span_fault_skip(self.spans@, entry@, i as int);
            }
            let checked = self.spans[i].validate_structure(entry);
            if checked.is_err() {
                return checked;
            }
            i += 1;
        }
        let mut j: usize = 0;
        proof {
            assert(self.witnesses@.skip(0) =~= self.witnesses@);
            assert(self.spans@.skip(i as int).len() == 0);
        }
        while j < self.witnesses.len()
            invariant
                self.anchor.entry_id@ == entry@,
                j <= self.witnesses@.len(),
                first_span_fault(self.spans@, entry@) is None,
                first_witness_fault(self.witnesses@, entry@) == first_witness_fault(
                    self.witnesses@.skip(j as int),
                    entry@,
                ),
            decreases self.witnesses@.len() - j,
        {
            proof {
                lemma_first_witness_fault_skip(self.witnesses@, entry@, j as int);
            }
            let checked = self.witnesses[j].validate_structure(entry);
            if checked.is_err() {
                return checked;
            }
            j += 1;
        }
        proof {
            assert(self.witnesses@.skip(j as int).len() == 0);
        }
        Ok(())
    }

    /// Attach span views.
    pub fn with_spans(self, spans: Vec<Span>) -> (r: TelescopeGrounding)
        ensures
            r.anchor == self.anchor,
            r.spans == spans,
            r.witnesses == self.witnesses,
    {
        let mut grounding = self;
        grounding.spans = spans;
        grounding
    }

    /// Attach witness regions.
    pub fn with_witnesses(self, witnesses: Vec<Witness>) -> (r: TelescopeGrounding)
        ensures
            r.anchor == self.anchor,
            r.spans == self.spans,
            r.witnesses == witnesses,
    {
        let mut grounding = self;
        grounding.witnesses = witnesses;
        grounding
    }
}

/// A region between two anchors, or from an anchor to a scope boundary.
///
/// Provides block-level code views without fragile line references.
#[derive(Clone, Debug)]
pub struct Span {
    /// Where the span begins.
    pub start: SpanBound,
    /// Where the span ends.
    pub end: SpanBound,
}

impl Span {
    /// Validate that any anchors in this span are consistent with the owner
    /// entry; the start bound is checked before the end bound.
    pub fn validate_structure(&self, entry: &EntryId) -> (r: Result<(), GroundingValidationError>)
        ensures
            reports(r, span_fault(*self, entry@)),
    {
        let start = self.start.validate_structure(entry, SpanAnchorPosition::Start);
        if start.is_err() {
            return start;
        }
        self.end.validate_structure(entry, SpanAnchorPosition::End)
    }
}

/// One end of a span: either a telescope anchor or the enclosing scope
/// boundary.
#[derive(Clone, Debug)]
pub enum SpanBound {
    /// An explicit telescope anchor.
    Anchor(TelescopeAnchor),
    /// The nearest enclosing scope boundary (e.g., end of function, block,
    /// or file).
    ScopeBoundary,
}

impl SpanBound {
    fn validate_structure(&self, entry: &EntryId, position: SpanAnchorPosition) -> (r: Result<
        (),
        GroundingValidationError,
    >)
        ensures
            reports(r, bound_fault(*self, entry@, position == SpanAnchorPosition::Start)),
    {
        let anchor = match self {
            SpanBound::Anchor(anchor) => anchor,
            SpanBound::ScopeBoundary => return Ok(()),
        };
        if anchor.entry_id == *entry {
            return Ok(());
        }
        match position {
            SpanAnchorPosition::Start => Err(
                GroundingValidationError::SpanStartEntryMismatch {
                    entry: entry.clone(),
                    anchor_entry: anchor.entry_id.clone(),
                },
            ),
            SpanAnchorPosition::End => Err(
                GroundingValidationError::SpanEndEntryMismatch {
                    entry: entry.clone(),
                    anchor_entry: anchor.entry_id.clone(),
                },
            ),
        }
    }
}

/// A telescope-grounded code region serving as evidence for an entry's claim.
///
/// During a rewrite session, an agent verifies that witnesses still
/// substantiate their entries.
#[derive(Clone, Debug)]
pub struct Witness {
    /// The code region providing evidence.
    pub span: Span,
}

impl Witness {
    /// Validate that the witness is structurally attached to the owner entry.
    /// A span anchor naming another entry is reported as a witness mismatch.
    pub fn validate_structure(&self, entry: &EntryId) -> (r: Result<(), GroundingValidationError>)
        ensures
            reports(r, witness_fault(*self, entry@)),
    {
        match self.span.validate_structure(entry) {
            Ok(()) => Ok(()),
            Err(GroundingValidationError::SpanStartEntryMismatch { entry, anchor_entry }) => Err(
                GroundingValidationError::WitnessEntryMismatch { entry, anchor_entry },
            ),
            Err(GroundingValidationError::SpanEndEntryMismatch { entry, anchor_entry }) => Err(
                GroundingValidationError::WitnessEntryMismatch { entry, anchor_entry },
            ),
            Err(other) => Err(other),
        }
    }
}

#[derive(PartialEq, Eq, Structural)]
enum SpanAnchorPosition {
    Start,
    End,
}

/// Whether a span bound is an anchor naming an entry other than `entry`.
pub open spec fn foreign_anchor(bound: SpanBound, entry: Seq<char>) -> bool {
    match bound {
        SpanBound::Anchor(a) => a.entry_id@ != entry,
        SpanBound::ScopeBoundary => false,
    }
}

/// The entry a span bound's anchor names (empty for a scope boundary).
pub open spec fn bound_entry(bound: SpanBound) -> Seq<char> {
    match bound {
        SpanBound::Anchor(a) => a.entry_id@,
        SpanBound::ScopeBoundary => Seq::empty(),
    }
}

/// Both bounds of a span are checked: a span is valid for `entry` exactly
/// when neither bound is an anchor naming another entry. A foreign start is
/// reported as a start mismatch; otherwise a foreign end as an end mismatch.
pub proof fn lemma_span_checks_both_bounds(span: Span, entry: Seq<char>)
    ensures
        span_fault(span, entry) is None <==> (!foreign_anchor(span.start, entry)
            && !foreign_anchor(span.end, entry)),
        foreign_anchor(span.start, entry) ==> span_fault(span, entry) == Some(
            Fault::SpanStartEntryMismatch { entry, anchor_entry: bound_entry(span.start) },
        ),
        !foreign_anchor(span.start, entry) && foreign_anchor(span.end, entry) ==> span_fault(
            span,
            entry,
        ) == Some(Fault::SpanEndEntryMismatch { entry, anchor_entry: bound_entry(span.end) }),
{
}

/// A witness is checked over its whole span: it is valid for `entry` exactly
/// when neither bound of its span is an anchor naming another entry, and a
/// foreign anchor at either bound (the start first) is reported as a
/// witness mismatch naming that anchor's entry.
pub proof fn lemma_witness_checks_whole_span(witness: Witness, entry: Seq<char>)
    ensures
        witness_fault(witness, entry) is None <==> (!foreign_anchor(witness.span.start, entry)
            && !foreign_anchor(witness.span.end, entry)),
        foreign_anchor(witness.span.start, entry) ==> witness_fault(witness, entry) == Some(
            Fault::WitnessEntryMismatch { entry, anchor_entry: bound_entry(witness.span.start) },
        ),
        !foreign_anchor(witness.span.start, entry) && foreign_anchor(witness.span.end, entry)
            ==> witness_fault(witness, entry) == Some(
            Fault::WitnessEntryMismatch { entry, anchor_entry: bound_entry(witness.span.end) },
        ),
{
}

proof fn lemma_first_span_fault_none(spans: Seq<Span>, entry: Seq<char>)
    ensures
        first_span_fault(spans, entry) is None <==> forall|i: int|
            0 <= i < spans.len() ==> #[trigger] span_fault(spans[i], entry) is None,
    decreases spans.len(),
{
    if spans.len() > 0 {
        lemma_first_span_fault_none(spans.drop_first(), entry);
        if first_span_fault(spans, entry) is None {
            assert forall|i: int| 0 <= i < spans.len() implies #[trigger] span_fault(
                spans[i],
                entry,
            ) is None by {
                if i > 0 {
                    assert(spans[i] == spans.drop_first()[i - 1]);
                }
            }
        }
        if forall|i: int| 0 <= i < spans.len() ==> #[trigger] span_fault(spans[i], entry) is None {
            assert(span_fault(spans[0], entry) is None);
            assert forall|i: int| 0 <= i < spans.len() - 1 implies #[trigger] span_fault(
                spans.drop_first()[i],
                entry,
            ) is None by {
                assert(spans.drop_first()[i] == spans[i + 1]);
            }
        }
    }
}

proof fn lemma_first_witness_fault_none(witnesses: Seq<Witness>, entry: Seq<char>)
    ensures
        first_witness_fault(witnesses, entry) is None <==> forall|i: int|
            0 <= i < witnesses.len() ==> #[trigger] witness_fault(witnesses[i], entry) is None,
    decreases witnesses.len(),
{
    if witnesses.len() > 0 {
        lemma_first_witness_fault_none(witnesses.drop_first(), entry);
        if first_witness_fault(witnesses, entry) is None {
            assert forall|i: int| 0 <= i < witnesses.len() implies #[trigger] witness_fault(
                witnesses[i],
                entry,
            ) is None by {
                if i > 0 {
                    assert(witnesses[i] == witnesses.drop_first()[i - 1]);
                }
            }
        }
        if forall|i: int|
            0 <= i < witnesses.len() ==> #[trigger] witness_fault(witnesses[i], entry) is None {
            assert(witness_fault(witnesses[0], entry) is None);
            assert forall|i: int| 0 <= i < witnesses.len() - 1 implies #[trigger] witness_fault(
                witnesses.drop_first()[i],
                entry,
            ) is None by {
                assert(witnesses.drop_first()[i] == witnesses[i + 1]);
            }
        }
    }
}

/// A telescope grounding is structurally valid for `entry` exactly when its
/// anchor names `entry` and no bound of any span or witness span is an
/// anchor naming another entry.
pub proof fn lemma_telescope_valid_iff_all_anchors_own(t: TelescopeGrounding, entry: Seq<char>)
    ensures
        telescope_fault(t, entry) is None <==> {
            &&& t.anchor.entry_id@ == entry
            &&& forall|i: int|
                0 <= i < t.spans@.len() ==> !foreign_anchor(#[trigger] t.spans@[i].start, entry)
                    && !foreign_anchor(t.spans@[i].end, entry)
            &&& forall|i: int|
                0 <= i < t.witnesses@.len() ==> !foreign_anchor(
                    #[trigger] t.witnesses@[i].span.start,
                    entry,
                ) && !foreign_anchor(t.witnesses@[i].span.end, entry)
        },
{
    lemma_first_span_fault_none(t.spans@, entry);
    lemma_first_witness_fault_none(t.witnesses@, entry);
    assert forall|i: int| 0 <= i < t.spans@.len() implies (span_fault(t.spans@[i], entry) is None
        <==> (!foreign_anchor(t.spans@[i].start, entry) && !foreign_anchor(
        t.spans@[i].end,
        entry,
    ))) by {
        lemma_span_checks_both_bounds(t.spans@[i], entry);
    }
    assert forall|i: int| 0 <= i < t.witnesses@.len() implies (witness_fault(
        t.witnesses@[i],
        entry,
    ) is None <==> (!foreign_anchor(t.witnesses@[i].span.start, entry) && !foreign_anchor(
        t.witnesses@[i].span.end,
        entry,
    ))) by {
        lemma_witness_checks_whole_span(t.witnesses@[i], entry);
    }
}

} // verus!
