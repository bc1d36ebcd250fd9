//! The failure vocabulary shared by the encoder and the decoder.
//!
//! Every failure aborts the current encode or decode call and is surfaced
//! to the caller as a typed result; none are retried or defaulted.

use vstd::prelude::*;

verus! {

/// A failure of one encode or decode operation.
#[derive(Clone, Copy, PartialEq, Eq, Structural, Debug)]
pub enum Error {
    /// A boolean byte was outside `{0, 1}`.
    ExpectedBoolean,
    /// A value that must fit in a single byte (a variant index or a
    /// character code) was 256 or more.
    ExpectedU8,
    /// An option tag byte was outside `{0, 1}`.
    ExpectedOption,
    /// A unit byte was not `0x00`.
    ExpectedNull,
    /// Bytes remained after a top-level decode consumed one whole value.
    TrailingCharacters,
    /// A shape-less decode was requested; the format carries no shape
    /// information, so such a request can never be answered.
    CannotDeserializeAny,
    /// A sequence or map encode was requested without its element count.
    UnknownSeqLength,
    /// A variant index byte named no declared variant of the sum shape.
    Identifier,
    /// The input ended where more bytes of the current value were expected.
    Truncated,
    /// A decoded integer does not fit the requested narrower numeric type.
    OutOfRange,
}

} // verus!
