# spytial

Relational export of serde values for diagramming, its reverse, and the
decorator model that annotates a diagram, written in Verus. Every function
of the library is proved against its contract, except one trusted wrapper
of `String::push` (`text::push_char`), whose contract Verus takes on trust.

## Layout

- `src/` — the verified library.
  - `jsondata` — the relational instance: atoms and relation records.
  - `relation_id` — the escaped `source.name` id of a relation record.
  - `export` — `Relationalizer`, the state machine that turns the steps of a
    serde walk into atoms and tuples (interning, typed records, type
    summaries), with its invariant and laws.
  - `reify` — the index of an instance, root selection, ordered reads of
    elements, entries and fields, label parsing, and the shape decisions of a
    self-describing read.
  - `round_trip` — what a read of the index gives back of what a walk wrote.
  - `annotations` — constraints, directives, decorator sets, the builder and
    the registry keyed by type name.
  - `attributes` — reading the derive's attribute arguments, key
    validation, and the field-type walk that finds nested decorated types.
  - `text` — integer text in both directions, trimming and splitting.
  - `corpus` — a value that reaches every serde category, and its record.
- `tests/` — tests on concrete values.
- `app/` — what Verus does not see: the serde `Serializer` and
  `Deserializer` over the library, serde and YAML copies of the data types,
  the process-wide registry, and the derive's expansion with `syn` and
  `quote`.
