//! Decoder for the Named Binary Tag (NBT) wire format.
//!
//! NBT is a self-describing, tag-prefixed binary tree format: nested
//! associative "compounds", homogeneous length-prefixed lists, primitive
//! scalars and typed numeric arrays, each value preceded by a one-byte type
//! tag. This crate decodes such data from an in-memory slice into a dynamic
//! [`value::Value`] tree, with the behaviour of every decoding routine pinned
//! to a byte-level specification of the format.

pub mod de;
pub mod error;
pub mod laws;
pub mod model;
pub mod value;

pub use de::{Decoder, MapDecoder, Reference, SeqDecoder};
pub use de::{from_gzip_slice, from_slice, from_zlib_slice};
pub use error::{Error, IoKind};
pub use model::MAX_DEPTH;
pub use value::Value;
