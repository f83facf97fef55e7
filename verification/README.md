# casserole

Break-down serialization of Rust values into a store. Folding a value with
`Casserole::casserole` gives a small target in which chosen sub-values (the
values of maps, and fields that a type keeps in the store) are replaced by store
keys; `Casserole::decasserole` reads the target back through the store. With a
content-addressed store such as `store::json::JSONMemorySHA1`, equal sub-values
are stored once, under the Ascii85 text of the SHA-1 of their bytes.

Layout:

- `src/` — the library, verified with Verus:
  - `store.rs`, `store/json.rs` — the `Store` trait and the in-memory content-addressed store;
  - `digest.rs` — content keys (SHA-1 through `rust-crypto`, Ascii85 through `ascii85`);
  - `ser.rs` — the `Casserole` and `Encode` traits, stored values, the round-trip law;
  - `encoding.rs` — JSON encodings of plain values through `serde_json`, and in
    `encoding/compound.rs` of tuples and `Result`;
  - `types/` — `Casserole` for plain values, boxes, `Arc`, tuples, `Option`, `Result`, and maps;
    `types/map_text.rs` writes a folded map as JSON and reads it back, and `types/order.rs`
    lists a map's keys in increasing order;
  - `shape.rs` — what `#[derive(Casserole)]` decides about a type: its `#[casserole(..)]`
    attributes, which fields go to the store, and the names and shapes of the generated code.
- `tests/` — tests of the library.
- `app/` — serde on top of the byte store, the example program, and the code
  generator for `#[derive(Casserole)]`, which writes out the plan that `shape.rs` makes.
