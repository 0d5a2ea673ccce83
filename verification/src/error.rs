//! Error conditions surfaced by the codec, parser and authority layers.

use vstd::prelude::*;

verus! {

/// Failure of a wire-format decode; always fatal to the single decode that
/// raised it.
#[derive(Clone, Copy, Debug, PartialEq, Eq, Structural)]
pub enum DecodeError {
    /// The decode ran past the end of the available bytes.
    Truncated,
    /// A domain name had an invalid label length, a compression pointer that
    /// did not point strictly backwards, or exceeded 255 encoded bytes.
    MalformedName,
}

/// Failure of a wire-format encode.
#[derive(Clone, Copy, Debug, PartialEq, Eq, Structural)]
pub enum EncodeError {
    /// A domain name label was empty or longer than 63 bytes.
    MalformedLabel,
    /// A domain name exceeded 255 encoded bytes.
    NameTooLong,
    /// A character-string exceeded 255 bytes.
    CharDataTooLong,
    /// A TXT rdata with no character-string at all.
    MissingData,
    /// An opaque rdata longer than the 16-bit RDLENGTH field can declare.
    RDataTooLong,
}

/// Failure of a zone-text parse; fatal to the whole zone load.
#[derive(Clone, Copy, Debug, PartialEq, Eq, Structural)]
pub enum ParseError {
    /// A token did not fit the grammar expected for the current field.
    UnexpectedToken,
    /// A mandatory token was absent.
    MissingToken,
    /// A numeric literal was not a decimal number in range.
    InvalidNumber,
    /// Unbalanced quotes or parentheses, or a bad escape, in the zone text.
    InvalidText,
    /// A record needed a TTL but none was given, no default TTL directive was
    /// seen, and no SOA minimum was available to inherit.
    MissingTtl,
    /// A second SOA record appeared at the zone origin.
    DuplicateSoa,
}

/// Failure of an authority-level query.
#[derive(Clone, Copy, Debug, PartialEq, Eq, Structural)]
pub enum LookupError {
    /// The zone has no SOA record loaded.
    NotAuthoritative,
}

} // verus!
