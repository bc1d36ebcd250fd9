//! A binary codec for a non-self-describing, length-prefixed wire format:
//! structured values (primitives, options, sequences, tuples, maps, and
//! tagged variants) are laid out as compact, position-dependent bytes.
//! The byte layout is canonical: a logical value always encodes to exactly
//! one byte sequence, and decoding requires the caller to supply the
//! expected shape, since the bytes alone never reveal it.

use vstd::prelude::*;

pub mod de;
pub mod error;
pub mod laws;
pub mod prim;
pub mod ser;
pub mod value;

verus! {

/// Tag byte selecting a 1-byte two's-complement payload for a negative integer.
pub const CODE_NEG_INT8: u8 = 0xff;

/// Tag byte selecting a 2-byte little-endian payload.
pub const CODE_INT16: u8 = 0xfe;

/// Tag byte selecting a 4-byte little-endian payload.
pub const CODE_INT32: u8 = 0xfd;

/// Tag byte selecting an 8-byte little-endian payload.
pub const CODE_INT64: u8 = 0xfc;

} // verus!
