use jsonref::reference::{fetch_for, locate};
use jsonref::text::{chars_of, spells};
use jsonref::{DocumentStore, Document, Error, Fetch};

#[test]
fn relative_reference_is_joined_with_the_base() {
    let target = locate("http://example.com/a/b.json", "c.json#/x/y").unwrap();
    assert_eq!(target.url, "http://example.com/a/c.json#/x/y");
    assert_eq!(target.location, "http://example.com/a/c.json");
    assert_eq!(target.fragment, Some("/x/y".to_string()));
}

#[test]
fn fragment_reference_keeps_the_base() {
    let target = locate("file:///work/anon.json", "#/properties/prop1").unwrap();
    assert_eq!(target.url, "file:///work/anon.json#/properties/prop1");
    assert_eq!(target.location, "file:///work/anon.json");
    assert_eq!(target.fragment, Some("/properties/prop1".to_string()));
}

#[test]
fn empty_fragment_is_a_fragment() {
    let target = locate("file:///work/anon.json", "#").unwrap();
    assert_eq!(target.url, "file:///work/anon.json#");
    assert_eq!(target.location, "file:///work/anon.json");
    assert_eq!(target.fragment, Some(String::new()));
}

#[test]
fn absolute_reference_replaces_the_base() {
    let target = locate("file:///work/anon.json", "https://example.com/s.json").unwrap();
    assert_eq!(target.url, "https://example.com/s.json");
    assert_eq!(target.location, "https://example.com/s.json");
    assert_eq!(target.fragment, None);
}

#[test]
fn fragment_of_the_base_is_not_inherited() {
    let target = locate("http://example.com/a.json#/old", "b.json").unwrap();
    assert_eq!(target.url, "http://example.com/b.json");
    assert_eq!(target.fragment, None);
    let target = locate("http://example.com/a.json#/old", "").unwrap();
    assert_eq!(target.url, "http://example.com/a.json");
    assert_eq!(target.location, "http://example.com/a.json");
}

#[test]
fn base_is_normalised_by_the_join() {
    let target = locate("HTTP://EXAMPLE.com/a/../b/./c.json", "#/x").unwrap();
    assert_eq!(target.url, "http://example.com/b/c.json#/x");
    assert_eq!(target.location, "http://example.com/b/c.json");
}

#[test]
fn unparsable_base_names_the_base() {
    match locate("nowhere", "http://example.com/ok.json") {
        Err(Error::UrlParseError { url, source }) => {
            assert_eq!(url, "nowhere");
            assert_eq!(source, url::ParseError::RelativeUrlWithoutBase);
        }
        other => panic!("{:?}", other),
    }
}

#[test]
fn unjoinable_reference_names_the_reference() {
    match locate("http://example.com/a.json", "https://example.com:99999/") {
        Err(Error::UrlParseError { url, source }) => {
            assert_eq!(url, "https://example.com:99999/");
            assert_eq!(source, url::ParseError::InvalidPort);
        }
        other => panic!("{:?}", other),
    }
    match locate("mailto:someone@example.com", "relative.json") {
        Err(Error::UrlParseError { url, source }) => {
            assert_eq!(url, "relative.json");
            assert_eq!(source, url::ParseError::RelativeUrlWithCannotBeABaseBase);
        }
        other => panic!("{:?}", other),
    }
}

#[test]
fn http_locations_are_fetched_over_http() {
    match fetch_for("http://example.com/a.json").unwrap() {
        Fetch::Http { location } => assert_eq!(location, "http://example.com/a.json"),
        other => panic!("{:?}", other),
    }
    match fetch_for("https://example.com/a.json").unwrap() {
        Fetch::Http { location } => assert_eq!(location, "https://example.com/a.json"),
        other => panic!("{:?}", other),
    }
}

#[test]
fn file_locations_are_read_at_their_path() {
    match fetch_for("file:///tmp/dir/a%20b.json").unwrap() {
        Fetch::File { location, path } => {
            assert_eq!(location, "file:///tmp/dir/a%20b.json");
            assert_eq!(path, "/tmp/dir/a%20b.json");
        }
        other => panic!("{:?}", other),
    }
}

#[test]
fn fetch_names_its_location() {
    assert_eq!(fetch_for("file:///tmp/a.json").unwrap().location(), "file:///tmp/a.json");
    assert_eq!(fetch_for("http://h/a.json").unwrap().location(), "http://h/a.json");
}

#[test]
fn other_locations_cannot_be_fetched() {
    for location in ["ftp://example.com/a.json", "httpx://example.com/", "files:///tmp/a", "urn:x:y", "no scheme", ""] {
        match fetch_for(location) {
            Err(Error::UnsupportedScheme { location: named }) => assert_eq!(named, location),
            other => panic!("{:?}", other),
        }
    }
}

#[test]
fn store_keeps_the_first_document_of_a_location() {
    let mut store = DocumentStore::new();
    assert!(!store.contains("a"));
    assert_eq!(store.get("a"), None);
    assert!(store.put("a", Document::Bool(true)));
    assert!(store.contains("a"));
    assert!(!store.put("a", Document::Bool(false)));
    assert_eq!(store.get("a"), Some(&Document::Bool(true)));
    assert!(store.put("b", Document::Null));
    assert_eq!(store.get("b"), Some(&Document::Null));
    assert_eq!(store.get("A"), None);
}

#[test]
fn store_replaces_on_request() {
    let mut store = DocumentStore::new();
    store.replace("a", Document::Bool(true));
    store.replace("a", Document::Bool(false));
    assert_eq!(store.get("a"), Some(&Document::Bool(false)));
}

#[test]
fn characters_of_a_string() {
    assert_eq!(chars_of("a/é~"), vec!['a', '/', 'é', '~']);
    assert_eq!(chars_of(""), Vec::<char>::new());
}

#[test]
fn string_spells_its_characters_only() {
    assert!(spells("$ref", &vec!['$', 'r', 'e', 'f']));
    assert!(spells("", &vec![]));
    assert!(!spells("$ref", &vec!['$', 'r', 'e']));
    assert!(!spells("$re", &vec!['$', 'r', 'e', 'f']));
    assert!(!spells("$ref", &vec!['$', 'r', 'e', 'g']));
    assert!(!spells("", &vec!['x']));
    assert!(spells("é", &vec!['é']));
}
