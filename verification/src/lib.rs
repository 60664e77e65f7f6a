//! VelocityDB storage core: a log-structured merge engine over byte-string
//! keys and values, with its write-ahead log, memtable, sorted runs, bloom
//! filter, value cache and write-staging queue.
//!
//! The library computes on plain values. Files, threads and clocks belong to
//! the caller: every function that the engine needs from the outside world
//! takes the bytes, the timestamp or the filter geometry as an argument.

pub mod addon;
pub mod bloom;
pub mod cache;
pub mod codec;
pub mod config;
pub mod engine;
pub mod entries;
pub mod error;
pub mod hash;
pub mod laws;
pub mod memtable;
pub mod naming;
pub mod order;
pub mod performance;
pub mod queue;
pub mod server;
pub mod sstable;
pub mod studio;
pub mod wal;

pub use bloom::BloomFilter;
pub use engine::{Velocity, VelocityConfig, VelocityStats};
pub use error::{VeloError, VeloKey, VeloResult, VeloValue};
pub use sstable::SSTable;
pub use wal::{WalIntegrityReport, WalSyncMode};
