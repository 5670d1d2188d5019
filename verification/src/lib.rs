//! A Redis-protocol key-value store: the RESP2 wire format, typed commands,
//! the in-memory keyspace with expiry, the durable record format and the
//! framing used by the write-ahead log and the replication stream.

pub mod buffers;
pub mod command;
pub mod conn;
pub mod persistence;
pub mod protocol;
pub mod store;
pub mod text;
