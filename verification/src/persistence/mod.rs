//! The durable form of mutating commands, and the length-prefixed framing
//! used by the write-ahead log and the replication stream.

pub mod frame;
pub mod record;


pub use frame::{frame, split_frames};
pub use record::{complete_records, RecordModel, WalRecord};
