//! Typed commands parsed from RESP arrays.

pub mod parse;
pub mod types;


pub use parse::{parse_command, parse_i64};
pub use types::{Command, CommandError, CommandFault, CommandModel, SetCond, Ttl};
