# jadipa

JSON document addressing and mutation, verified with Verus:

- `pointer`: JSON Pointer (RFC 6901) — tokens, escapes, lookup and write access.
- `patch`: JSON Patch (RFC 6902) — the six operations, applied in order, the
  first failure stopping the rest.
- `merge_patch`: JSON Merge Patch (RFC 7396).
- `diff`: the JSON Patch that turns one document into another.

## Layout

- `src/json.rs` — the document type `Json`, its mathematical model `JsonV`, and
  object members kept in key order, each key once (`wf`).
- `src/text.rs` — key order, token splitting and escaping, decimal indices.
- `src/pointer.rs`, `src/patch/`, `src/merge_patch.rs`, `src/diff.rs` — the
  operations, each with a contract over the model.
- `src/patch/effects.rs`, `src/diff_proofs.rs` — what single operations do,
  and the proof that a generated patch, applied to its source, gives a
  document equal to its target as a JSON value (numbers compare by value, so
  `0.0` and `-0.0` count as equal, as they do for a JSON value).
- `app/` — conversion to and from `serde_json::Value`, parsing of patch
  documents, error messages, and string-in, string-out entry points.

Every function in `src/` is verified; the only trusted items are the
declaration of `serde_json::Error` and a wrapper around `String::push`.
