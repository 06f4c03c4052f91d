# lkv

A lightweight embedded key-value store, verified with Verus.

A database is one image: two alternating Superblock pages, an immutable hash
table (the Base) and an append-only log of what was written since (the
Overlay). Keys and values are byte strings.

- `src/format` is the layout of the image: Superblock pages, the segment of a
  Base with its index, records and checksum table, and log records. Encoders
  and decoders are proved against spec functions over byte sequences.
- `src/database` is the engine: recovery, transactions, snapshots, iteration
  and compaction. The main model of a database is `Database::contents`, the map
  from keys to values; `durability.rs` says which files hold which contents,
  and that commits and compactions survive being cut short.
- `src/ffi.rs` is what the C interface decides, without pointers.
- `app` opens, locks, maps and writes files, and exports the C interface.

Whether memory can be had is for the allocator to say. Every function that
reserves memory says when it does, and fails for want of it only there. `Room`
in the options takes the answer out of the allocator's hands: with
`Room::Granted` what a function gives is fixed, and with `Room::Refused` so is
where it stops.

What is taken on trust is marked `external_body` and says so above each item:
the hash tables of `hashbrown` and `rustc-hash`, the checksums of `crc32c` and
`xxhash-rust`, and a few functions of the standard library.
