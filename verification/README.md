# prevayler_rs

System prevalence in Verus: data is kept in memory and changed by transactions only, each of
which is in a redo log before it is executed. When the system restarts, replaying the log
restores the data. A log may also begin with a snapshot.

- `src/` is the verified library. It decides what is read, written and executed; it does no
  I/O itself.
  - `prevayler`, `log`, `json`, `names`: the prevailed data, its log, and the JSON format.
  - `redolog`, `serializer`, `error`: the log with snapshots.
  - `laws`, `snapshot_laws`: what the logs promise as a whole, among it that replaying what was
    written restores the data.
  - `bytes`, `framing`, `order`: numbers and lines in bytes, and stable sorting.
- `app/` runs the library on files, with tokio and with async-std.
- `tests/` runs the library on directories in memory.
