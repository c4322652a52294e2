# Focal Vector

A vector database whose engine is verified with Verus. The library keeps points (an
ID, a vector, metadata) in collections and finds the nearest ones; it logs every
commit, builds neighbour graphs, replicates shards by a log, and serves requests.

What the functions do is stated in their contracts, over sequences, sets and maps.
What holds of the library as a whole is stated by public proof functions whose names
begin with `law_`: that a written point is read back, that the files of a collection
hold it after any number of commits and flushes, that a log cut at any byte recovers to
a commit, that a damaged record is noticed, that merging the results of shards is exact,
that a settled request changes nothing when it comes again, and so on.

## Layout

- `src/` is the library.
  - `collection`, `metric`, `ranking`, `hits`, `filter`, `metadata`,
    `metadata_index`: points, exact search and what it chooses from.
  - `hnsw`: the neighbour graph, its growth, its search and its binary form.
  - `persistence`: the write-ahead log, segments, manifests and flushing, and what is
    held of a collection when it is opened again.
  - `journal`, `raft_storage`, `raft_state_machine`, `ledger`, `raft_node`: the
    replicated log of a shard and the state that it leads to.
  - `sharding`, `distributed`: which shard a point belongs to, and how the results
    of shards come together.
  - `database`, `concurrent`, `server`, `local`, `client`, `protocol`, `tls`,
    `cuda`, `bench`: the rules around the engine.
  - `text`, `bits`, `bytes`, `checksum`, `parse`, `sort`, `table`, `ids`: what the
    rest is built on.
- `app/` is ordinary Rust around it: files, sockets, HTTP, consensus, GPU, and the
  arithmetic on floats.
- `tests/` runs the library.

Floats are kept as their bit patterns. All arithmetic on them goes through the
`Kernel` trait, which the application implements; the library asks of a kernel only
that its results depend on the vectors alone and that normalising keeps the number of
components.

Reading and writing is handed to the library as closures or as outcomes: a commit is
applied only when the closure that logs it has succeeded. A closure that writes is
required to take only what it is meant to write, so that a request that is refused
provably writes nothing.

Six functions are trusted, because they call what is not verified here:
`text::text_from_bytes` (`String::from_utf8`), `raft_node::parse_node_id`
(`str::parse`), and in `tls` `pem_reader_iter` and `key_from_pem_reader` (the crate
`rustls-pki-types`), `add_parsable_certificates` (the crate `rustls`) and
`identity_from_pem` (the crate `reqwest`). Each says above its contract what is claimed
of the call.
