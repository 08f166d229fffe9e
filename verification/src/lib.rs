//! Client-side codec and request/response engine for a length-prefixed,
//! text-framed key-value protocol.
//!
//! A *block* is one length-prefixed unit of wire data: the decimal ASCII
//! byte length, a newline, the payload bytes, and a trailing newline.
//! A *frame* is a sequence of blocks closed by an empty length line.
//! The [`client::Client`] owns one buffered stream and drives one full
//! request/response cycle at a time through the codec.

pub mod client;
pub mod codec;
pub mod num;
pub mod stream;

pub use client::Client;
pub use client::SSDBError;
pub use client::SSDBResult;
pub use client::invalid_input;
pub use client::read_status;
