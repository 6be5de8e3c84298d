use vstd::prelude::*;

verus! {

/// Why a parse failed.
#[derive(Clone, Copy, Debug, PartialEq, Eq, Structural)]
pub enum ParseError {
    /// No `:` follows the field name, though a line ending shows that the
    /// field's line is complete.
    MissingColon,
    /// The `:` stands right at the start of the field name.
    EmptyKey,
    /// Strict mode: whitespace precedes the field name.
    MalformedLeadingWhitespace,
    /// Strict mode: a line ends in a bare line feed.
    BareLineFeedRejected,
    /// A carriage return is followed by something other than a line feed.
    UnterminatedCrlf,
    /// The buffer ends before a required delimiter; a longer buffer may parse.
    NeedMoreInput,
}

} // verus!
