//! The failures that reading a request and writing a response can end in.
use vstd::prelude::*;

verus! {

/// The I/O error of std, carried through as an opaque value.
#[verifier::external_type_specification]
#[verifier::external_body]
pub struct ExIoError(std::io::Error);

/// A malformed request block.
#[derive(Debug, Clone, Copy, PartialEq, Eq, Structural)]
pub enum ParseError {
    /// The method token is missing or is not one of the nine standard verbs.
    HttpMethod,
    /// The request target or the `HTTP/<version>` token is missing or malformed.
    HttpVersion,
    /// A header line has no colon.
    Headers,
}

impl ParseError {
    /// The text of the message that describes this error.
    pub open spec fn message_spec(self) -> Seq<char> {
        match self {
            ParseError::HttpMethod => "ParseError: Incorrect HTTP method."@,
            ParseError::HttpVersion => "ParseError: Incorrect HTTP version."@,
            ParseError::Headers => "ParseError: Incorrect headers."@,
        }
    }

    /// A human-readable description of the error.
    pub fn message(&self) -> (r: String)
        ensures
            r@ == self.message_spec(),
    {
        match self {
            ParseError::HttpMethod => "ParseError: Incorrect HTTP method.".to_owned(),
            ParseError::HttpVersion => "ParseError: Incorrect HTTP version.".to_owned(),
            ParseError::Headers => "ParseError: Incorrect headers.".to_owned(),
        }
    }
}

/// The error surfaced to the connection handler: a parse failure or a
/// failure of the underlying byte stream.
#[derive(Debug)]
pub enum ServerError {
    ParseError(ParseError),
    IoError(std::io::Error),
}

impl From<ParseError> for ServerError {
    fn from(value: ParseError) -> (r: ServerError)
        ensures
            r == ServerError::ParseError(value),
    {
        ServerError::ParseError(value)
    }
}

impl vstd::std_specs::convert::FromSpecImpl<ParseError> for ServerError {
    open spec fn obeys_from_spec() -> bool {
        true
    }

    open spec fn from_spec(v: ParseError) -> ServerError {
        ServerError::ParseError(v)
    }
}

impl From<std::io::Error> for ServerError {
    fn from(value: std::io::Error) -> (r: ServerError)
        ensures
            r == ServerError::IoError(value),
    {
        ServerError::IoError(value)
    }
}

impl vstd::std_specs::convert::FromSpecImpl<std::io::Error> for ServerError {
    open spec fn obeys_from_spec() -> bool {
        true
    }

    open spec fn from_spec(v: std::io::Error) -> ServerError {
        ServerError::IoError(v)
    }
}

impl ServerError {
    /// The parse error carried, if any.
    pub fn parse_error(&self) -> (r: Option<ParseError>)
        ensures
            r == (match self {
                ServerError::ParseError(e) => Some(*e),
                ServerError::IoError(_) => None::<ParseError>,
            }),
    {
        match self {
            ServerError::ParseError(e) => Some(*e),
            ServerError::IoError(_) => None,
        }
    }
}

} // verus!
