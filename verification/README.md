# mneme_persist

The persistence layer of an embedded vector memory: segments, a write-ahead log and versioned
manifests in one directory.

* `src/` is the verified library. It decides what is written, in which order, and what is made of the
  files when a library is opened: names and paths, the log writer and replay, manifests and the
  switch of `current`, segments and their recovery, flushes, merges, backups, and opening a library
  as a whole. Every function states what it returns and what it changes; laws that span functions are
  public proof functions.
* `app/` is ordinary Rust around it: the backend on the file system, locks, mapped files, threads.
* `tests/` runs the library on its backend in memory, and on one that fails.

A backend is a `Storage`. Its contract is stated over the map from paths to bytes and says what is
left behind when an operation fails. `reliable` marks a backend that fails only where a request is at
fault, `cuts` one that can always cut a file back, and `links` one that can always share a file of
another backend; `failures` is the set of errors that the steps of a backend that is not reliable may
give; `settled` is the set of files that a crash of the system does not take back.

The encodings of files are not part of the library: they are passed in as functions from bytes to
values and back, and contracts hold for every outcome that such a function may have. The same goes
for the graphs of segments, which the library carries but does not build. Vectors, weights, norms and
estimates of recall are carried as the bit patterns of their floating-point numbers.

The modules from the bottom up:

| Modules | Subject |
| --- | --- |
| `error`, `text`, `order`, `tables` | errors, texts and numbers, sorting, tables |
| `layout`, `current` | names of files, the file that names the committed version |
| `storage`, `hook` | backends, refusing writes |
| `crc`, `record`, `state` | checksums, records, the state of a library |
| `wal`, `replay`, `wal_writer`, `log` | the log: frames, replay, writing, transactions |
| `remap`, `segment`, `recover` | segments and their recovery |
| `manifest`, `manifest_io`, `cleanup`, `trash` | manifests, their commit, clearing away |
| `source`, `hidx`, `check` | segment files, graphs, statistics and checks |
| `chunk`, `snapshot`, `commit`, `store` | flushing |
| `compact`, `backup` | merging segments, backups |
| `open`, `load`, `session` | opening, following and closing a library |
