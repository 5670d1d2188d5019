//! RESP2 wire protocol: values, encoding and parsing.

pub mod decimal;
pub mod decode;
pub mod encode;
pub mod laws;
pub mod error;
pub mod value;

pub use decode::parse;
pub use encode::encode;
pub use error::{RespError, RespFault};
pub use value::{RespModel, RespValue};
