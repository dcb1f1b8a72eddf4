# Hestia

Hestia indexes the files and folders below watched roots while preserving their
locations and recognizing identical content.

- `src/` is the verified library. Every function there carries a contract that Verus
  proves: entry keys (`paths`), file and folder identities (`identity`), content
  observation (`observation`), stored and observed records (`records`), the
  synchronization of a root with the database and its laws (`sync`, `sync_laws`),
  watcher events (`events`), previews and the video range protocol (`media`), and what
  the interface lists and shows (`catalog`, `display`, `text`).
- `app/` connects the library to the outside world: the filesystem, the SQLite
  database, the filesystem watcher, and the colors that need floating point.
- `tests/` exercise the library on concrete values.
