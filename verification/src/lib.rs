//! Verified core of a Zenoh network explorer: chunked file-transfer
//! bookkeeping, payload export, text previews, rate limiting and the
//! decisions the worker and the GUI take on plain values.

pub mod batching;
pub mod bytes;
pub mod chunking;
pub mod clock;
pub mod colors;
pub mod connection;
pub mod dedup;
pub mod explorer;
pub mod hashing;
pub mod payload_store;
pub mod preview;
pub mod queryable;
pub mod text;
pub mod transfer;
pub mod tree;
pub mod types;
pub mod utils;
pub mod worker;
