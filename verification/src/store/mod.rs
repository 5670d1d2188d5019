//! The in-memory keyspace with expiry.

pub mod apply;
pub mod entry;
pub mod glob;
pub mod keyspace;
pub mod laws;

pub use glob::{glob_helper, glob_match};
pub use entry::{Entry, EntryModel};
pub use keyspace::Store;
