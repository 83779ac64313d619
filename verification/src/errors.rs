use vstd::prelude::*;

verus! {

/// The failures shared by the wire codec and the text parsers.
///
/// The codec itself only ever produces `TruncatedBuffer` (from the primitive
/// readers and the varint reader) and `InvalidTransaction` (from whole
/// transaction decoding); `InvalidScript` and `InvalidAmount` are reserved
/// for policies a consumer may layer on top, and `ParseError` carries the
/// human-readable cause of a text parsing failure.
#[derive(Debug)]
pub enum BitcoinError {
    /// Fewer bytes remain than a fixed-width or varint-declared field needs.
    TruncatedBuffer,
    /// A structural violation beyond truncation, such as trailing bytes.
    InvalidTransaction,
    /// Reserved for script-content validation; never produced by the codec.
    InvalidScript,
    /// Reserved for a consumer's value-range policy; never produced here.
    InvalidAmount,
    /// A text parser rejected its input; the payload says why.
    ParseError(String),
}

} // verus!
