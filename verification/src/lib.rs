//! A codec for the frame format of the STOMP text messaging protocol.
//!
//! A frame on the wire is a command line, header lines, an empty line, a
//! body and a NUL byte.  This crate reads bytes into a [`Frame`] and writes a
//! [`Frame`] as exactly those bytes.  It works on bytes in memory and does no
//! input or output of its own.
//!
//! Every function carries a contract, and the contracts are proved:
//!
//! - [`wire`] states the format over byte and character sequences: what is
//!   written for a frame and what is read from a stream of bytes.
//! - [`laws`] proves what holds of the format as a whole, above all that
//!   reading undoes writing.
//! - [`trusted`] lists the few functions from outside whose contracts are
//!   taken on trust.

pub mod body;
pub mod command;
pub mod error;
pub mod frame;
pub mod header;
pub mod io;
pub mod laws;
pub mod order;
pub mod scan;
pub mod string;
pub mod text;
pub mod trusted;
pub mod unicode;
pub mod wire;

pub use body::Body;
pub use command::Command;
pub use error::ReadError;
pub use frame::Frame;
pub use header::Header;
pub use io::MemReader;
