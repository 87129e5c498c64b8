//! A composable little-endian binary decoder: fixed-width primitives,
//! counted sequences, length-prefixed lists, rectangular grids, packed
//! variable-size record streams with alignment padding, and zlib-framed
//! compressed sections, all read from a forward-only in-memory byte stream.

pub mod composite;
pub mod decode;
pub mod reader;
pub mod records;
pub mod zlib;

pub use reader::ByteReader;
pub use reader::DecodeError;
