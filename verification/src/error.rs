//! Why a resolution did not complete.
use url::ParseError;
use vstd::prelude::*;

verus! {

/// A failure of resolution. Each is final: the call that met it returns it
/// and leaves the document as it was.
#[derive(Debug, PartialEq, Eq)]
pub enum Error {
    /// `url`, a base location or a reference, could not be read as a URL or
    /// joined with its base.
    UrlParseError { url: String, source: ParseError },
    /// The document that `reference` leads to has nothing at `pointer`.
    JsonPointerNotFound { reference: String, pointer: String },
    /// `location` is not held by the store, and its scheme is none of
    /// `file`, `http` and `https`.
    UnsupportedScheme { location: String },
    /// Expanding `reference` would nest expansions deeper than the limit.
    NestingLimit { reference: String },
}

/// The model of an `Error`.
pub enum Failure {
    UrlParseError { url: Seq<char>, source: ParseError },
    JsonPointerNotFound { reference: Seq<char>, pointer: Seq<char> },
    UnsupportedScheme { location: Seq<char> },
    NestingLimit { reference: Seq<char> },
}

impl View for Error {
    type V = Failure;

    open spec fn view(&self) -> Failure {
        match self {
            Error::UrlParseError { url, source } => Failure::UrlParseError {
                url: url@,
                source: *source,
            },
            Error::JsonPointerNotFound { reference, pointer } => Failure::JsonPointerNotFound {
                reference: reference@,
                pointer: pointer@,
            },
            Error::UnsupportedScheme { location } => Failure::UnsupportedScheme {
                location: location@,
            },
            Error::NestingLimit { reference } => Failure::NestingLimit { reference: reference@ },
        }
    }
}

} // verus!
