# Anka

A vector search engine: an HNSW index with exact brute-force search beside it, snapshots, a
write-ahead log and crash recovery. The library is written in Verus: what each function does is
stated in its contract and proved.

## Layout

- `src/` is the verified library.
  - `vector_store`, `dataset`, `metric`, `candidate`, `bits`: vectors as bit patterns, the files
    they come from, and the order of distances.
  - `brute_force`, `ground_truth`: exact neighbours, and how two lists of them compare.
  - `hnsw`: layers, search, neighbour selection, the index and its invariants.
  - `store`: snapshot format, log format, recovery, and collections that survive a restart.
  - `cli`: what the commands decide and compute.
- `app/` is the command line around it: files, memory mappings, clocks, threads, and the
  floating-point kernels.
- `tests/` runs the library on concrete values.

## How floating point is kept apart

Components and distances are carried as the bits of single-precision numbers. Storing, ordering
and comparing them is integer work. The arithmetic itself comes in through the trait
`metric::Metric`, of which the proofs ask only that a result depend on nothing but the vectors
it is computed from. The distribution of levels and the tolerance between two distances come in
as functions in the same way.

## What is proved beyond single functions

- Inserting keeps the graph sound: degree caps, layer membership, no dangling edge, an entry
  point on the top layer. Built one vector after the other, the topmost layer is the highest level
  and the entry point the first vector that has it.
- A search of a layer finds as many nodes as can be reached or as its beam holds, whichever is
  less, nearest first, and scores no node twice. How many distances a search or an insert computes
  is stated exactly.
- A snapshot reads back as the index it was written from, and so does a log record. Parameters
  that a snapshot has no room for are refused.
- A changed byte in a snapshot's header or body, or in a log record behind its length, is noticed.
- The index of a collection is updated only after the record is in the log and synced as far as
  the policy promises; every step out of that order is refused.
- Every acknowledged insert is there after recovery, wherever the next write was cut off and at
  whatever step a checkpoint was interrupted, and so is everything written after that. Of the
  records in the log, those that the snapshot contains are skipped and the others replayed.
- Building twice from the same seed gives the same graph, and a restored index goes on drawing
  the levels that it would have drawn.

## Durability

A snapshot and a fresh log are put in place by a rename. `store::collection` decides what is
written in which order and refuses anything else; `app/disk.rs` does the writing and the syncing.
