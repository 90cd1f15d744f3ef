# json_ot

Operational transformation on JSON documents, verified with Verus.

A document is a JSON value. An operation is a list of components; each
component names a path into the document and an operator: add to a number,
insert, delete, replace or move an array element, insert, delete or replace an
object entry. The library routes paths through documents, applies operations,
and composes, inverts and transforms them.

Layout:

- `src/value.rs` – JSON values (`JsonValue`), their mathematical form (`Json`),
  key order, object entries kept sorted by key, equality and copying.
- `src/path.rs` – paths and their steps.
- `src/operation.rs` – operators, components, validation, folding two
  components into one, reading a component from its JSON form.
- `src/apply.rs` – routing a path through a value and applying an operator.
- `src/json.rs` – `Transformer` (append, compose, invert, transform) and the
  `JSON` document.
- `src/laws.rs` – properties proved of the above: applied operations keep
  documents well-formed, a write is read back, an inverse undoes its component,
  what `append` leaves means the operation and then the new component exactly
  where `append_faithful` holds, two operations applied together, as one
  concatenated operation or one after the other end alike, a delete or replace
  transformed against a change inside its value expects what that change
  leaves, concurrent insertions into one array below the document's top
  converge after transformation.
- `JsonValue::panics_at` and `JSON::checked_apply` decide, for every input,
  whether applying would panic, and report it instead.
- `app/lib.rs` – JSON text in and out with `serde_json`.
