//! URI references, as the `url` crate reads them.
//!
//! A URL travels through the library as its text. What the `url` crate
//! makes of a text is not proved here: each function of it that the library
//! calls has a named result, and the contracts of the library speak of those
//! names.
use url::{ParseError, Url};
use vstd::prelude::*;

verus! {

/// `url::ParseError`, the reason for which a text is no URL. Nothing is
/// known of a value of it.
#[verifier::external_type_specification]
#[verifier::external_body]
pub struct ExParseError(ParseError);

/// What `Url::parse` returns for a text: the serialization of the URL, or
/// the error.
pub uninterp spec fn url_parse(text: Seq<char>) -> Result<Seq<char>, ParseError>;

/// What `Url::join` returns for the URL that `base` parses to and a
/// reference: the serialization of the joined URL, or the error. Where
/// `base` does not parse, the error of that.
pub uninterp spec fn url_join(base: Seq<char>, reference: Seq<char>) -> Result<
    Seq<char>,
    ParseError,
>;

/// The serialization of the URL that `text` parses to after
/// `Url::set_fragment(None)`; where `text` does not parse, the error.
pub uninterp spec fn url_without_fragment(text: Seq<char>) -> Result<Seq<char>, ParseError>;

/// What `Url::fragment` returns for the URL that `text` parses to; `None`
/// also where `text` does not parse.
pub uninterp spec fn url_fragment(text: Seq<char>) -> Option<Seq<char>>;

/// What `Url::scheme` returns for the URL that `text` parses to; `None`
/// where `text` does not parse.
pub uninterp spec fn url_scheme(text: Seq<char>) -> Option<Seq<char>>;

/// What `Url::path` returns for the URL that `text` parses to; `None` where
/// `text` does not parse.
pub uninterp spec fn url_path(text: Seq<char>) -> Option<Seq<char>>;

/// Calls `Url::parse`. Claims only that the outcome is the one named
/// `url_parse`: the same text always parses to the same URL or fails with
/// the same error.
#[verifier::external_body]
pub(crate) fn parse_url(text: &str) -> (parsed: Result<String, ParseError>)
    ensures
        match parsed {
            Ok(url) => url_parse(text@) == Ok::<Seq<char>, ParseError>(url@),
            Err(error) => url_parse(text@) == Err::<Seq<char>, ParseError>(error),
        },
{
    Url::parse(text).map(String::from)
}

/// Calls `Url::join` on the URL that `base` parses to. Claims only that the
/// outcome is the one named `url_join`.
#[verifier::external_body]
pub(crate) fn join_url(base: &str, reference: &str) -> (joined: Result<String, ParseError>)
    ensures
        match joined {
            Ok(url) => url_join(base@, reference@) == Ok::<Seq<char>, ParseError>(url@),
            Err(error) => url_join(base@, reference@) == Err::<Seq<char>, ParseError>(error),
        },
{
    Url::parse(base)?.join(reference).map(String::from)
}

/// Calls `Url::set_fragment` with `None` on the URL that `text` parses to.
/// Claims only that the outcome is the one named `url_without_fragment`.
#[verifier::external_body]
pub(crate) fn without_fragment(text: &str) -> (stripped: Result<String, ParseError>)
    ensures
        match stripped {
            Ok(url) => url_without_fragment(text@) == Ok::<Seq<char>, ParseError>(url@),
            Err(error) => url_without_fragment(text@) == Err::<Seq<char>, ParseError>(error),
        },
{
    let mut url = Url::parse(text)?;
    url.set_fragment(None);
    Ok(String::from(url))
}

/// Calls `Url::fragment` on the URL that `text` parses to. Claims only that
/// the outcome is the one named `url_fragment`.
#[verifier::external_body]
pub(crate) fn fragment_of(text: &str) -> (fragment: Option<String>)
    ensures
        match fragment {
            Some(f) => url_fragment(text@) == Some(f@),
            None => url_fragment(text@) is None,
        },
{
    match Url::parse(text) {
        Ok(url) => url.fragment().map(String::from),
        Err(_) => None,
    }
}

/// Calls `Url::scheme` on the URL that `text` parses to. Claims only that
/// the outcome is the one named `url_scheme`.
#[verifier::external_body]
pub(crate) fn scheme_of(text: &str) -> (scheme: Option<String>)
    ensures
        match scheme {
            Some(s) => url_scheme(text@) == Some(s@),
            None => url_scheme(text@) is None,
        },
{
    match Url::parse(text) {
        Ok(url) => Some(String::from(url.scheme())),
        Err(_) => None,
    }
}

/// Calls `Url::path` on the URL that `text` parses to. Claims only that the
/// outcome is the one named `url_path`.
#[verifier::external_body]
pub(crate) fn path_of(text: &str) -> (path: Option<String>)
    ensures
        match path {
            Some(p) => url_path(text@) == Some(p@),
            None => url_path(text@) is None,
        },
{
    match Url::parse(text) {
        Ok(url) => Some(String::from(url.path())),
        Err(_) => None,
    }
}

} // verus!
