# wedb_object_lsm

An LSM storage engine whose durable state lives in an object store (S3/R2,
a local directory, or memory), written in Verus: the engine's formats,
decisions and maintenance logic carry `requires`/`ensures` contracts that
Verus proves.

Layout:

- `src/` – the verified library.
  - formats: `codec` (little-endian framing), `journal` (record groups),
    `delta` (ALP delta differential decoding of bit-packed integer streams),
    `segment` (block-indexed segment objects), `keys` / `keyorder` (object key
    layout and its listing order), `manifest`, `lease` (writer lease record),
    `r2` (R2 settings, ranged reads, ETags), `file` (safe directory keys);
  - engine state and logic: `state`, `table`, `seqindex`, `cache`, `merge`,
    `scan`, `cursor`, `engine`, `recovery`, `lsm`, `handle`, `supervisor`;
  - `store`: the object-store interface and a verified in-memory store.
- `app/` – the runtime around it: JSON manifests (serde), thread-safe shared
  stores, the directory and R2 backends, lease heartbeats, background workers
  and the failover standby loop.
- `tests/` – executable tests of the library.

Time, threads and network I/O stay in `app/`; the library takes the current
time as a number and the store as a value implementing `store::Store`.

A store may be shared with other writers and change at any time, so the
`Store` trait carries no model of its contents: contracts of functions that
read the store speak of what was read (for example, a replay is the replay of
the groups decoded from the journal objects read, a merged segment describes
the merge of the runs read), not of what the store holds.
