# vhdl_doc

A verified model of register-level memory map documents: the elements of a map (arrays,
clusters, entries, references), the bit fields of an entry with their types and default
values, the lenient notations the documents use for numbers, and the resolution of a map into
named tables.

Layout:

- `src/` — the library, verified with Verus. `memory_map/field.rs` checks field values against
  their types; `memory_map/serde_helpers.rs` decides the hexadecimal and integer-or-string
  notations and renders enumeration maps; `memory_map/tables.rs` and `memory_map/resolved.rs`
  keep resolved tables in name order; `memory_map.rs` holds access rights, the `Name` trait and
  definition lookup; `memory_map/record.rs` the record form of the model and the size of records in bytes.
- `app/` — serde, JSON schema and table presentation around the library, and the floating
  point range check of fixed point values.
- `tests/` — tests of the library on concrete documents.
