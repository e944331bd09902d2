//! The tag and length fields that start every element.

pub mod constants;
pub mod identifier;
pub mod length;

pub use identifier::{Class, DecodeError, Identifier, OutputBufferTooSmall, TagEncoded, PC};
pub use length::{Length, LengthDecodeError};

use vstd::prelude::*;

verus! {

/// `buf` with the bytes from `pos` on overwritten by `data`.
pub open spec fn splice(buf: Seq<u8>, pos: int, data: Seq<u8>) -> Seq<u8> {
    buf.take(pos) + data + buf.skip(pos + data.len())
}

} // verus!
