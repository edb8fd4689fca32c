# public_api

The public API of a Rust crate, computed from the crate's documented items and
printed as plain text, with the library's behaviour stated in contracts and
proved with Verus.

- `src/model.rs`: the crate description the walk reads (items by id).
- `src/item_iterator.rs`: the walk from the root over contained items, impls
  and re-exports, specified step by step, with the properties every walk keeps
  and a proof that it ends on every crate whose items do not contain each other
  in a cycle.
- `src/intermediate_public_item.rs`, `src/public_item.rs`, `src/tokens.rs`:
  path elements, public items, token streams, and the order of items.
- `src/plain.rs`, `src/diff.rs`, `src/text.rs`: plain-text listings and diff
  reports, optionally highlighted with `yansi`, with token diffs from `diff`.
- `app/`: writing to `std::io::Write` and reading `rustdoc_types` JSON
  crates into the model.
