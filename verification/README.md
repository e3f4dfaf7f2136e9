# zenoh_explorer

A native GUI for exploring Zenoh networks: subscribe, publish (files of any
size, chunked above 4 GiB), query, answer queries from locally published
data, and browse the key space as a tree.

The logic is a Verus-verified library (`src/`); the window, the network
sessions and the file dialogs are ordinary Rust around it (`app/`).

## Layout

- `src/transfer.rs`, `src/chunking.rs`, `src/payload_store.rs`: the export
  store with its eviction policy, chunk keys, reassembly of chunked
  transfers, export file names.
- `src/explorer.rs`: the explorer's state and how each event of the worker
  changes it (deduplication, rate limiting, memory and count limits, the
  browse tree, the message list).
- `src/worker.rs`: what the network worker does for each command.
- `src/tree.rs`, `src/queryable.rs`, `src/connection.rs`, `src/preview.rs`,
  `src/hashing.rs`, `src/dedup.rs`, `src/utils.rs`, `src/batching.rs`: the
  browse tree, the local queryable's store and key matching, link plans,
  payload previews, hashes, deduplication, rate limiting, batching.
- `src/text.rs`, `src/bytes.rs`: decimal text and byte search.
- `app/`: the egui front end (`gui.rs`), the Zenoh worker (`worker.rs`) and
  the conversions between them and the library (`convert.rs`).
- `tests/`: tests of the library.

## Dependencies

`Cargo.toml` lists the crates the library and the worker use (zenoh, tokio,
serde_json, chrono, tracing). The GUI crates that `app/gui.rs` and
`app/convert.rs` use (eframe, egui, rfd) are not listed there: the front
end builds only once they are added.
