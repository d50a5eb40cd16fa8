//! Where a reference leads, and how a document that is not at hand is to be
//! fetched.
use crate::error::{Error, Failure};
use crate::text::{chars_of, spells};
use crate::uri::{
    fragment_of, join_url, parse_url, path_of, scheme_of, url_fragment, url_join, url_parse,
    url_path, url_scheme, url_without_fragment, without_fragment,
};
use vstd::prelude::*;

verus! {

/// A reference resolved against a base.
#[derive(Debug, PartialEq, Eq)]
pub struct Target {
    /// The reference as an absolute URL, fragment included.
    pub url: String,
    /// That URL without its fragment: the document it names.
    pub location: String,
    /// The fragment, if the URL has one: a JSON Pointer into the document.
    pub fragment: Option<String>,
}

/// The model of a `Target`.
pub struct Place {
    pub url: Seq<char>,
    pub location: Seq<char>,
    pub fragment: Option<Seq<char>>,
}

impl View for Target {
    type V = Place;

    open spec fn view(&self) -> Place {
        Place {
            url: self.url@,
            location: self.location@,
            fragment: match self.fragment {
                Some(f) => Some(f@),
                None => None,
            },
        }
    }
}

/// Where `reference` leads from `base`. The base must be a URL by itself;
/// the reference is joined with it.
pub open spec fn target_of(base: Seq<char>, reference: Seq<char>) -> Result<Place, Failure> {
    match url_parse(base) {
        Err(source) => Err(Failure::UrlParseError { url: base, source }),
        Ok(_) => match url_join(base, reference) {
            Err(source) => Err(Failure::UrlParseError { url: reference, source }),
            Ok(url) => match url_without_fragment(url) {
                Err(source) => Err(Failure::UrlParseError { url, source }),
                Ok(location) => Ok(Place { url, location, fragment: url_fragment(url) }),
            },
        },
    }
}

/// Resolves a reference against a base.
pub fn locate(base: &str, reference: &str) -> (target: Result<Target, Error>)
    ensures
        match target {
            Ok(t) => target_of(base@, reference@) == Ok::<Place, Failure>(t@),
            Err(e) => target_of(base@, reference@) == Err::<Place, Failure>(e@),
        },
{
    match parse_url(base) {
        Err(source) => Err(Error::UrlParseError { url: base.to_owned(), source }),
        Ok(_) => match join_url(base, reference) {
            Err(source) => Err(Error::UrlParseError { url: reference.to_owned(), source }),
            Ok(url) => match without_fragment(url.as_str()) {
                Err(source) => Err(Error::UrlParseError { url, source }),
                Ok(location) => {
                    let fragment = fragment_of(url.as_str());
                    Ok(Target { url, location, fragment })
                },
            },
        },
    }
}

/// How to get the document at a location.
#[derive(Debug, PartialEq, Eq)]
pub enum Fetch {
    /// Read the file at `path`.
    File { location: String, path: String },
    /// Get `location` over HTTP.
    Http { location: String },
}

/// The model of a `Fetch`.
pub enum Request {
    File { location: Seq<char>, path: Seq<char> },
    Http { location: Seq<char> },
}

impl View for Fetch {
    type V = Request;

    open spec fn view(&self) -> Request {
        match self {
            Fetch::File { location, path } => Request::File { location: location@, path: path@ },
            Fetch::Http { location } => Request::Http { location: location@ },
        }
    }
}

impl Fetch {
    /// The location that the fetched document is to be stored under.
    pub fn location(&self) -> (location: &String)
        ensures
            location@ == request_location(self@),
    {
        match self {
            Fetch::File { location, .. } => location,
            Fetch::Http { location } => location,
        }
    }
}

/// The location that a request asks for.
pub open spec fn request_location(request: Request) -> Seq<char> {
    match request {
        Request::File { location, .. } => location,
        Request::Http { location } => location,
    }
}

/// How the document at `location` is fetched: by its scheme, which has to be
/// `http`, `https` or `file`.
pub open spec fn fetch_of(location: Seq<char>) -> Result<Request, Failure> {
    match url_scheme(location) {
        Some(scheme) => if scheme == "http"@ || scheme == "https"@ {
            Ok(Request::Http { location })
        } else if scheme == "file"@ {
            match url_path(location) {
                Some(path) => Ok(Request::File { location, path }),
                None => Err(Failure::UnsupportedScheme { location }),
            }
        } else {
            Err(Failure::UnsupportedScheme { location })
        },
        None => Err(Failure::UnsupportedScheme { location }),
    }
}

/// Says how the document at `location` is to be fetched.
pub fn fetch_for(location: &str) -> (fetch: Result<Fetch, Error>)
    ensures
        match fetch {
            Ok(f) => fetch_of(location@) == Ok::<Request, Failure>(f@),
            Err(e) => fetch_of(location@) == Err::<Request, Failure>(e@),
        },
{
    match scheme_of(location) {
        Some(scheme) => {
            if spells(scheme.as_str(), &chars_of("http")) || spells(
                scheme.as_str(),
                &chars_of("https"),
            ) {
                Ok(Fetch::Http { location: location.to_owned() })
            } else if spells(scheme.as_str(), &chars_of("file")) {
                match path_of(location) {
                    Some(path) => Ok(Fetch::File { location: location.to_owned(), path }),
                    None => Err(Error::UnsupportedScheme { location: location.to_owned() }),
                }
            } else {
                Err(Error::UnsupportedScheme { location: location.to_owned() })
            }
        },
        None => Err(Error::UnsupportedScheme { location: location.to_owned() }),
    }
}

} // verus!
