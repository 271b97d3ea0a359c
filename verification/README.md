# gix_index_ref

Verified pieces of a git implementation, written in Verus:

- `src/entry.rs`: index entries and their on-disk form for index versions 2, 3 and 4,
  including the prefix-compressed paths of version 4.
- `src/resolve_undo.rs`: the resolve-undo (`REUC`) extension, decoded and written, with the
  proof that what is written decodes to the same paths.
- `src/encoding.rs`: big-endian integers, octal numbers and the variable-length offsets
  the index uses, with their read-back proofs.
- `src/transaction/`: the reflog- and lock-configuration steps of a loose-reference
  transaction, and where the loose file of a reference lies (`reference_path.rs`).
- `src/hash.rs`: hash kinds and object ids as plain bytes.

`app/` holds the I/O edge: writing through `std::io::Write`, taking lock files with
`gix-lock`, conversions to the types of `gix-hash` and `gix-object`, and error types with
`thiserror` messages.
