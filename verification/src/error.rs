use vstd::prelude::*;

verus! {

/// FSE error kinds.
///
/// Low-level error kinds.
/// As a general rule, these should not be matched against.
#[derive(Copy, Clone, Debug, PartialEq, Eq)]
#[non_exhaustive]
pub enum FseErrorKind {
    /// Bad literal bits.
    BadLiteralBits,
    /// Bad literal count.
    BadLiteralCount(u32),
    /// Bad literal payload.
    BadLiteralPayload,
    /// Bad literal state.
    BadLiteralState,
    /// Bad LMD bits.
    BadLmdBits,
    /// Bad LMD count.
    BadLmdCount(u32),
    /// Bad LMD payload.
    BadLmdPayload,
    /// Bad LMD state.
    BadLmdState,
    /// Bad payload count.
    BadPayloadCount,
    /// Bad raw byte count.
    BadRawByteCount,
    /// Bad reader state.
    BadReaderState,
    /// Bad weight payload.
    BadWeightPayload,
    /// Bad weight payload count.
    BadWeightPayloadCount,
    /// Weight payload overflow.
    WeightPayloadOverflow,
    /// Weight payload underflow.
    WeightPayloadUnderflow,
}

/// Decoding errors.
#[derive(Copy, Clone, Debug, PartialEq, Eq)]
#[non_exhaustive]
pub enum Error {
    /// FSE specific errors.
    Fse(FseErrorKind),
    /// Unknown or unsupported block type (magic bytes).
    BadBlock(u32),
    /// Bad bitstream.
    BadBitStream,
    /// Bad LZ distance value.
    BadDValue,
    /// Reader state is invalid, likely the user attempted to use after an error was encountered.
    BadReaderState,
    /// Buffer overflow.
    BufferOverflow,
    /// Input has more bytes than expected.
    PayloadOverflow,
    /// Input has less bytes than expected.
    PayloadUnderflow,
}

/// Decoding error Result.
pub type Result<T> = core::result::Result<T, Error>;

/// The description of `e`.
pub open spec fn fse_error_message(e: FseErrorKind) -> Seq<char> {
    match e {
        FseErrorKind::BadLiteralBits => "bad literal bits"@,
        FseErrorKind::BadLiteralCount(_) => "bad literal count"@,
        FseErrorKind::BadLiteralPayload => "bad literal payload"@,
        FseErrorKind::BadLiteralState => "bad literal state"@,
        FseErrorKind::BadLmdBits => "bad lmd bits"@,
        FseErrorKind::BadLmdCount(_) => "bad lmd count"@,
        FseErrorKind::BadLmdPayload => "bad lmd payload"@,
        FseErrorKind::BadLmdState => "bad lmd state"@,
        FseErrorKind::BadPayloadCount => "bad payload count"@,
        FseErrorKind::BadRawByteCount => "bad raw byte count"@,
        FseErrorKind::BadReaderState => "bad reader state"@,
        FseErrorKind::BadWeightPayload => "bad weight payload"@,
        FseErrorKind::BadWeightPayloadCount => "bad weight payload count"@,
        FseErrorKind::WeightPayloadOverflow => "weight payload overflow"@,
        FseErrorKind::WeightPayloadUnderflow => "weight payload underflow"@,
    }
}

/// The description of `e`.
pub open spec fn error_message(e: Error) -> Seq<char> {
    match e {
        Error::Fse(_) => "FSE"@,
        Error::BadBitStream => "bad bitstream"@,
        Error::BadDValue => "bad D value"@,
        Error::BadBlock(_) => "bad block"@,
        Error::BadReaderState => "bad reader state"@,
        Error::BufferOverflow => "buffer overflow"@,
        Error::PayloadOverflow => "bad payload overflow"@,
        Error::PayloadUnderflow => "bad payload underflow"@,
    }
}

impl FseErrorKind {
    /// Human readable description.
    pub fn message(&self) -> (r: &'static str)
        ensures
            r@ == fse_error_message(*self),
    {
        match self {
            FseErrorKind::BadLiteralBits => "bad literal bits",
            FseErrorKind::BadLiteralCount(_) => "bad literal count",
            FseErrorKind::BadLiteralPayload => "bad literal payload",
            FseErrorKind::BadLiteralState => "bad literal state",
            FseErrorKind::BadLmdBits => "bad lmd bits",
            FseErrorKind::BadLmdCount(_) => "bad lmd count",
            FseErrorKind::BadLmdPayload => "bad lmd payload",
            FseErrorKind::BadLmdState => "bad lmd state",
            FseErrorKind::BadPayloadCount => "bad payload count",
            FseErrorKind::BadRawByteCount => "bad raw byte count",
            FseErrorKind::BadReaderState => "bad reader state",
            FseErrorKind::BadWeightPayload => "bad weight payload",
            FseErrorKind::BadWeightPayloadCount => "bad weight payload count",
            FseErrorKind::WeightPayloadOverflow => "weight payload overflow",
            FseErrorKind::WeightPayloadUnderflow => "weight payload underflow",
        }
    }
}

impl Error {
    /// Human readable description.
    pub fn message(&self) -> (r: &'static str)
        ensures
            r@ == error_message(*self),
    {
        match self {
            Error::Fse(_) => "FSE",
            Error::BadBitStream => "bad bitstream",
            Error::BadDValue => "bad D value",
            Error::BadBlock(_) => "bad block",
            Error::BadReaderState => "bad reader state",
            Error::BufferOverflow => "buffer overflow",
            Error::PayloadOverflow => "bad payload overflow",
            Error::PayloadUnderflow => "bad payload underflow",
        }
    }
}

} // verus!
