//! A small RESP2 engine: an incremental wire codec and a key-value command
//! executor with passive time-to-live expiry, verified with Verus.
//!
//! Bytes arrive in a receive buffer. [`resp::RespParser::decode`] takes one
//! whole frame off its front, or leaves it alone until the frame is whole.
//! [`commands::RedisCommand::resp_to_command`] reads the frame as a command,
//! [`commands::RedisCommand::execute`] runs the command against a
//! [`store::Store`], and [`resp::RespParser::encode`] writes the reply into a
//! send buffer.
//!
//! What each step does is stated over plain sequences and maps, in
//! [`resp::grammar`] and in [`commands`], and proved of the code. What holds
//! of the grammar as a whole is proved in [`resp::laws`].
//!
//! The buffers are those of the `bytes` crate. What is taken on trust of
//! them, of `memchr` and of a few functions of the standard library stands
//! in [`buffer`], [`text`] and [`clock`].

pub mod ascii;
pub mod buffer;
pub mod clock;
pub mod commands;
pub mod decimal;
pub mod resp;
pub mod store;
pub mod text;
