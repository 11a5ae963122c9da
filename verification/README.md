# s3_storage

A small toolkit around an S3-compatible object store (MinIO, RustFS, Ceph, AWS):
configuration from the environment, a client for buckets and objects, and
three folder tools (download the images under a folder, count the objects
under it, list its keys).

The library in `src/` is verified with Verus; `app/` holds the program and the
calls that go over the network.

- `src/text.rs` — character-level string operations (trim, contains, decimal
  digits, ASCII case) with their mathematical meaning.
- `src/error.rs` — `S3Error`, the classification of error messages, and how a
  failed SDK call becomes an `S3Error`.
- `src/config.rs` — `S3Config` and the settings read from the environment.
- `src/client.rs` — the client handle, the keys kept from a listed page, the
  hand-paged listing that detects a stalled server, and batch-delete chunking.
- `src/download.rs` — image detection, local paths, folder and knob parsing.
- `src/count.rs` — tallies, per-folder grouping, sizes for people and the
  sorted report.
- `app/` — the async client operations, `.env` loading, and the three tools
  (the program acts as `count_objects` or `list_objects_path` when run under
  that name).
