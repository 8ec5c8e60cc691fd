# mini_lsm

A log-structured merge tree whose engine is verified with Verus.

- `src/` is the library. `run` and `key` hold the mathematics of sorted entries; `iterators`,
  `mem_table` and `table` the cursors and the sources of entries; `lsm_storage` the engine: reads,
  the write path, flushing, closing and recovery. `laws` states what holds of the store as a whole,
  `recovery_laws` what holds when it is opened again, and `history_laws` that it keeps what was
  written over its whole life.
- `app/` is the store as a service: directories, locks, worker threads. It performs the actions that
  the engine hands out, step by step.
- `tests/` runs the library on concrete values.

Operations that need the disk are cut into steps. A step changes the engine and returns the actions
that have to succeed before the next step; an action that fails ends the operation, and what was
changed before stays changed.

Not proved, but relied on: the contracts in `bytes_spec`, `skip_map_spec` and
`table::fingerprint`, which say what `bytes`, `crossbeam-skiplist` and `farmhash` do, and the
declaration of `std::ops::Bound` in `bound`.
