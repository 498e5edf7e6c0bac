//! A codec for the REdis Serialization Protocol (RESP): an encoder from
//! values to their exact bytes on the wire, and a decoder that reads values
//! off a byte stream, one at a call.

pub mod chunked;
pub mod decimal;
pub mod decoder;
pub mod drive;
pub mod encode;
pub mod error;
pub mod frame;
pub mod framer;
pub mod laws;
pub mod parser;
pub mod stream;
pub mod text;
pub mod value;

pub use self::decoder::Decoder;
pub use self::encode::{encode, encode_slice};
pub use self::error::DecodeError;
pub use self::value::Value;
