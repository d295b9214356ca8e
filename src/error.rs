use vstd::prelude::*;

verus! {

/// Why a measurement could not be encoded.
#[derive(Debug, Clone, Copy, PartialEq, Eq)]
pub enum ProtocolError {
    /// An identifier (table name, tag key or field key) holds a character
    /// that names may not contain.
    ForbiddenCharacter(char),
}

} // verus!

verus! {

/// An I/O failure of the sink that a line is written to.
#[verifier::external_type_specification]
#[verifier::external_body]
pub struct ExIoError(std::io::Error);

/// Why a line was not sent.
#[derive(Debug)]
pub enum LineSenderError {
    /// The message could not be turned into a line; holds the reason.
    StringConversionError(String),
    /// The line does not end in a newline; holds the line.
    UnterminatedLine(String),
    /// Writing to the sink failed.
    IOError(std::io::Error),
}

} // verus!
