# invokrum

Deterministic prompt-overlay composition, written in Verus.

An overlay pack declares ordered classes, overlays that belong to them, and
profiles that select overlays class by class. The library validates and
normalizes packs, resolves a profile into ordered segments and normalized
context bytes, checks pack documents at the schema boundary, and holds the
decisions of the strict YAML subset, of the read-only subprocess protocol and
of safe persistent output. Verus proves every function in `src/` against its
contract, except two trusted wrappers marked `external_body`, whose contracts
are taken on trust: `rpc::decode_standard_base64` (the `base64` crate's
standard decoder) and `text::debug_quoted` (std's `{:?}` for `str`).

Layout:

- `src/model.rs`: identifiers, pack-relative paths, cardinalities and the
  other domain types, with their validation.
- `src/collections.rs`: the sorted identifier set and selection map.
- `src/pack.rs`: pack construction, normalization and its ordered validation
  rules.
- `src/composition.rs`: profile resolution, source loading through the
  `OverlaySource` port, and the composition laws.
- `src/schema.rs`: pack documents and their translation to and from the
  domain model.
- `src/strict.rs`: the YAML control surface, the v1 subset check, mapping-key
  markers and the classification of decoder diagnostics.
- `src/rpc.rs`: request limits, envelope checks, error categories, the JSON
  nesting bound, the pack decoder choice and the expected-lock decoding.
- `src/output.rs`: the phases, events and actions of a safe persistent write.
- `app/`: serde decoding and encoding of documents, the strict decoder
  preflight, the file-system steps of persistent output, and response framing.
- `tests/`: tests of the library through its public API.
