# vault

A small persistent key-value storage engine: an append-only data file
(`data.db`, records `[key_len u32][value_len u32][key][value]`), an index
file (`index.db`, records `[key_len u32][key][offset u64]`), a write-ahead
log for writes (`put.wal`) and a one-byte log for compaction
(`compact.wal`).

- `src/` is the verified library. It works on byte images of the files:
  `codec` (record formats), `index` (loading and extending the index),
  `index_scan` (reading an index file as far as its records are whole),
  `engine` (`put`, `get`, `compact`), `compaction`, `wal` (log records and
  steps), `recovery` (completing an interrupted write) and
  `compact_recovery` (resuming an interrupted compaction). The laws of the
  library are the `law_*` proof functions.
- A compaction records each of its six steps in `compact.wal` before
  taking the next; `compact_recovery` decides each step from the files, and
  its laws show that resuming from any recorded step, after any crash, ends
  in the compacted data and index files with no temporary file left.
- `app/` is the command-line program: argument parsing, configuration,
  logging, and the file I/O that carries out what the library decides, in
  the order that keeps a crash recoverable.
- `tests/` runs the library on concrete inputs.
