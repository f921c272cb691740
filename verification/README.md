# tracelog

Log-structured storage of timestamped updates, verified with Verus.

* `wal`, `message`, `endian`: the format of a write-ahead log, and reading and writing it.
* `batch`, `consolidation`: what a stretch of a log comes to, in canonical form.
* `trace`, `names`, `text`, `order`: the batches and log segments of a relation, and the
  names of their files.
* `compaction`, `compacter`: turning segments into batches and many batches into one,
  step by step, and deciding when; `compaction_laws` states what can be read all along.
* `frontier`, `data`, `updates`, `blob`, `blob_trace`: a persistent trace of keyed updates
  whose batches are kept in a blob storage; `blob_laws` states what appending and
  compacting keep.
* `kafka`: what a sink does with the rows that it is given.

The library decides; files, the network and tasks are `app/`. A step of the library takes
what happened and gives what to do next.

Functions that outside crates provide (`byteorder`, `regex`, `timely`,
`differential-dataflow`) are called behind small wrappers whose contracts are believed,
not proved; each wrapper's comment says what it claims.
