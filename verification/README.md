# granary

The deterministic core of a runtime for durable, single-activation objects
("grains"), written in Verus: every item of the library carries a contract that the
verifier checks.

A grain has a name, a journal of records and a reply that is held back until its
records are durable. Its storage comes in facets: a key-value map, a workspace
filesystem, an alarm and a disk image. All of a command's records commit as one batch.

## Layout

- `src/`: the library. It performs no I/O, reads no clock and spawns no task.
  - `host`, `facet`, `snapshot`, `stamp`, `wire`: the per-command protocol, records
    and snapshots.
  - `kv`, `alarm`, `disk`, `fs`: the facets.
  - `store`, `segment`, `store_files`, `file_store`, `memory`, `replica_store`: what a
    replica stores and the promises it makes.
  - `gateway`, `grainref`, `routing_cache`, `election`, `alarm_index`: reaching grains
    and waking them.
  - `blobs`, `cdc`, `facet_blobs`: content-addressed blobs and chunking.
  - `config`, `node`, `metrics`, `event`, `error`, `journal`, `grain`: settings and
    vocabulary.
  - `key`, `ordmap`, `text`: ordered collections and text.
- `app/`: the runtime around it: threads, files, clocks and tasks.
- `tests/`: tests on concrete values.

Public proof functions whose names begin with `law_` state what holds of the library
as a whole.

## What is trusted

The digest of `blake3` is named but not described. Integers, strings and byte strings
are encoded by `postcard`, and their encodings are stated where the calls are made
(`src/wire.rs`, `src/blobs.rs`).

## What is left to the caller

The framing and checksums of the logs, the hash that places a name in a shard, and the
consensus that elects a shard's leader are not part of this library: it takes what they
give as arguments. The stamps that name a format's revision are laid out in
`src/stamp.rs`; the records of the manifest and of the facets in the encodings beside
their types. A segment's operations are values here, and their bytes are the log's.
