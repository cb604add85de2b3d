# Chronix

The verified core of the Chronix time-series database: what a cluster agrees on,
and how queries are answered.

- `src/meta` — the cluster metadata that Raft replicates: the state machine and
  its commands, routing, snapshots and their checksum, the log, and what the
  transport and the admin service decide.
- `src/query` — the query operators: planning, pruning, zone maps, filtering,
  deduplication, aggregation, downsampling and window functions.
- `src/text.rs`, `src/hash.rs`, `src/sorted_map.rs`, `src/duplicate.rs`,
  `src/clock.rs` — what both of them need.
- `app` — Arrow record batches in and out of the operators, and the metadata
  behind openraft, redb and tonic.

The functions of `src` state in their contracts what they return and when they
fail; of what a clock says they promise nothing. What holds across functions is
stated by public proof functions: for the metadata mostly in `src/meta/laws.rs`,
`src/meta/store.rs` and `src/meta/routing.rs`; for queries next to what they
speak of, and in `src/query/group_laws.rs` and `src/query/series_laws.rs`.

Floating-point values are carried by their bits and compared by an order on the
bits. Integers are added up as integers, and become the nearest floating-point
value in `src/query/float.rs`. Sums, means and differences of floats are told,
not computed: the library says which values they are made of
(`src/query/totals.rs`, the rows of a time bucket, the bounds of a window), and
`app` folds them.

What an operator hands out is charged to the memory budget of its query. How
much memory that is depends on the allocator, so a contract says how much it is
at least, and what follows for whatever size was measured.

Calls into other crates stand behind small wrappers, each with a comment that
says what its contract claims of the call.
