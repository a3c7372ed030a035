# mini_lsm

The compaction and transaction logic of a small log-structured merge (LSM) storage engine,
written in Rust and verified with Verus.

- `src/` is the library. Everything in it is verified: keys and their order, merging iterators,
  sorted tables, compaction, the watermark of readers, and serializable transactions.
- `app/` is ordinary Rust around it: locks, background threads, the files of tables, and the
  serialized form of compaction tasks.
- `tests/` runs the library on concrete values.

The library does no I/O of its own. What it asks of the disk it asks through the traits
`TableStore` and `TxnStorage`; what a compaction policy decides it asks through `LeveledPolicy`,
`TieredPolicy` and `SimpleLeveledPolicy`. None of these traits promises anything. The disk can be
reached only through `LoggedTables` and `LoggedStorage`, which keep a log of what is asked of it.
The contracts say what is returned, what becomes of the state, and what is asked of the disk, in
which order, for every answer.

Reading may fail midway. A table, and a range of the storage under a transaction, is what can be
read of it together with the error that ends it, if one does; the iterators hand that error on where
they reach it.

The ordered map of a transaction's own writes is `crossbeam_skiplist::SkipMap`, and keys are
hashed with `farmhash`; `src/skip_map.rs` and `src/key_hash.rs` state what is relied on.
