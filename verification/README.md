# entropyfs_store

The storage engine of a content-addressed filesystem, verified with Verus: an
append-only log of records in segment files, copy-on-write B-trees over
content-addressed nodes, an atomic root behind two superblock slots, a mutation
log with an in-memory overlay, snapshots, and garbage collection.

- `src/` is the library:
  - formats: `codec`, `record`, `superblock`, `root`, `inode`, `log`;
  - trees: `tree`, `node`, `index`, `index_edit`, `index_batch`, `patch`, `growth`,
    `directory`, `extent_tree`, `snapshot`;
  - the namespace: `fs`, `namespace`, `links`, `attrs`, `extents`, `paths`, `laws`;
  - the epoch: `epoch`, `epoch_ops`, `epoch_laws`, `epoch_store`, `overlay`,
    `checkpoint`, `replay`;
  - the store: `store`, `commit`, `journal`, `mount`, `reopen`, `ops`, `data_ops`,
    `snap_ops`, `views`, `tried`, `place`, `append`;
  - what survives a crash: `survival`, `acknowledged`, `recovered`, `standing`;
  - collection: `reach`, `gc`, `compact`, `keeping`, `physical`, `ratios`;
  - file windows: `window`, `compose`, `prepare`, `read_plan`, `read_epoch`,
    `read_deps`, `totals`;
  - rules of workers and transfers: `workers`, `transfer`.
- `tests/` runs it, over an in-memory transport.
- `app/` holds what touches the machine: transports over files and io_uring, the
  lock, capacity, clocks, threads, and file data around a chunk codec.

Contracts speak of the payloads that a store holds and of the namespace that its
root describes. They hold where no two payloads share a digest among those that the
store was handed so far: `tried` keeps this set, which grows only by payloads that are
in hand, and each operation says what it grew by.

The transport says what of its files is synced. A durable commit leaves everything that
the store holds synced, and what an operation has logged is on record before it is
acknowledged: `mirrored` says that the log above the root, replayed over the committed
trees, shows what the overlay shows. It holds of a new store and behind a checkpoint,
every logged operation keeps it, and a store that is mounted after a crash and has
replayed its log shows what was acknowledged.
