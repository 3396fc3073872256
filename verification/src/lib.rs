//! timeseries-db: storage and querying of time-series data.
//!
//! The library holds the verified core of the database: points and their
//! validation, the in-memory write buffer, the write-ahead-log record format,
//! the SSTable file layout, the Gorilla value compression and the query model.
//! Values are carried as the bit patterns of IEEE 754 doubles.

pub mod block;
pub mod compression;
pub mod database;
pub mod error;
pub mod memtable;
pub mod point;
pub mod query;
pub mod sstable;
pub mod wal;

pub use compression::{compress_gorilla, decompress_gorilla};
pub use database::{Config, DatabaseStats};
pub use error::{Error, Result};
pub use memtable::Memtable;
pub use point::{Point, Tags};
pub use query::{Aggregation, Column, Downsample, GroupBy, Query};
pub use sstable::SSTable;
pub use wal::checksum_ieee;
