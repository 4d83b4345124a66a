//! A bidirectional UTF-8 codec, verified with Verus.
//!
//! [`encode_utf8`] turns a sequence of Unicode scalar values into its UTF-8
//! byte serialization; [`decode_utf8`] turns a UTF-8 byte sequence back into
//! scalar values. Each direction rejects malformed input with a precisely
//! located, precisely classified error, and the two are proved to be exact
//! inverses on all in-range input (see [`laws`]).

pub mod decode;
pub mod encode;
pub mod laws;

pub use decode::decode_utf8;
pub use decode::DecodeUtf8Error;
pub use decode::DecodeUtf8ErrorKind;
pub use encode::encode_utf8;
pub use encode::EncodeUtf8Error;
pub use encode::EncodeUtf8ErrorKind;
