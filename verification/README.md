# lsmkv

An embedded, ordered key-value store that keeps its data in a log-structured merge tree, verified
with Verus.

Rows go into a memory store. When it has reached a threshold it is written to a table, a sorted file
of rows, on level zero. Levels that have too many tables give some of them to the next level, where
they are merged with the tables that they overlap. A log records which tables there are.

- `src/` is the library. It works on the contents of the files, a `Directory`.
  - `store.rs` and `rebalance.rs` hold the operations of a `Store`; `memstore.rs`, `table.rs`,
    `toc.rs`, `log.rs`, `iter.rs`, `interval.rs` and `directory.rs` its parts; `encoding.rs`,
    `order.rs` and `rows.rs` what these are made of.
  - `model.rs` says in mathematical terms what the operations do. `contents.rs` and `merging.rs` show
    that merging tables changes nothing of what they say, and `laws.rs` states what follows for a
    store.
- `tests/` runs it on concrete values.
- `app/` keeps the files of a store in a directory of the file system.
