//! The RESP2 wire protocol: values, the grammar, the incremental parser and
//! the codec.

pub mod codec;
pub mod grammar;
pub mod laws;
pub mod parsers;
pub mod types;

pub use codec::RespParser;
pub use types::{RESPError, RESPValueRef};
