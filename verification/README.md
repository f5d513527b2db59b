# wasm_component_layer — verified value conversion

Conversion of component-model values between a host and a WebAssembly guest:
canonical sizes and alignments, lifting values out of guest memory and flat
arguments, and lowering them back. The library in `src/` is written in Verus;
every public operation carries a contract over a mathematical model, and the
round-trip laws (what a load gives back of a store) are proved.

Layout:

- `src/layout.rs` — alignment arithmetic (`align_to`) and its laws.
- `src/component_type.rs` — the `ComponentType` trait: size, alignment, stride.
- `src/wit.rs` — WIT types, the definition table, and the type cursor.
- `src/value.rs` — host values, their types and their model.
- `src/memory.rs` — a guest memory image and little-endian encoding.
- `src/flat.rs` — flat core-wasm values and a cursor over them.
- `src/lift.rs` — the `Lift` trait: loading from memory and flat values.
- `src/lower.rs` — the `Lower` trait: storing into memory and flat values;
  allocations are answered by the guest through `Realloc`.
- `src/laws.rs`, `src/list_laws.rs` — store-then-load laws. They cover
  `s32` values, strings and lists of `s32` in memory, and additionally
  lists of strings and of lists of `s32` in flat form, and pairs whose
  members round-trip; each needs the allocations made while lowering to
  stay clear of the eight-byte header at the store pointer (and, for lists,
  of the element places and of each other).
- `app/` — glue to `wasm_runtime_layer` and `wit-parser`: type conversion,
  memory copies, and the allocation loop that answers `NeedsAllocation`.
