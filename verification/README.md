# sirno

Sirno is a graph-shaped knowledge database for codebases: entries (nominal
claims about the code) connected by dependencies and affinities, mapped to
code through groundings, guarded by locks, and changed through sessions
that accumulate patches and obligations.

The library under `src/` is written in Verus. Every public operation is
specified over a mathematical model (maps, sets and sequences of texts) and
proved against it:

- `entry`, `edge`: entries, dependencies and affinities and their models.
- `keyed`: association lists (vectors with distinct keys) read as maps.
- `adjacency`, `graph`: the bidirectional dependency index and the graph,
  with their well-formedness invariants (consistent indices, ascending
  affinities, references that always resolve).
- `grounding`: grep and telescope groundings and their structural checks.
- `repository`: shell-style wildcard matching, text containment, whole-id
  matching of telescope anchor markers, and the decisions of the
  repository-backed grounding check as a step machine that a caller drives
  by answering probes about the workspace.
- `mutation`, `obligation`, `session`: patches, obligations and commit
  readiness.
- `text`: text equality and the byte order in which `str` sorts.

Maps and sets keyed by entry ids are held as vectors of distinct keys
(`keyed`, `adjacency`) rather than in `HashMap`, `HashSet` or `BTreeMap`.
vstd specifies those collections only for key types that obey its key
model (`obeys_key_model`, with a hash or order that the proofs can rely
on); `String`-based keys such as `EntryId` do not, so with them the
collections' operations come with no usable contract. Vectors with an
explicit distinct-keys invariant keep every operation proved. Where order
is observable it is stated: affinities are kept in ascending key order,
the order an ordered map would give them.

`app/` holds what cannot be verified: walking the workspace on disk to
answer the repository check's probes (the decisions on each file's text are
the library's `text_contains` and `text_has_anchor`), the validator as a
`GroundingValidator`, logging, and copies of the error types with
`std::error::Error` and `Display` impls.
