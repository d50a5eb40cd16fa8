use jsonref::{Document, Fetch, JsonRef, Number, Progress};

fn number_of(n: &serde_json::Number) -> Number {
    if let Some(u) = n.as_u64() {
        Number::Unsigned(u)
    } else if let Some(i) = n.as_i64() {
        Number::Signed(i)
    } else {
        Number::Double { bits: n.as_f64().unwrap().to_bits() }
    }
}

fn document_of(value: &serde_json::Value) -> Document {
    match value {
        serde_json::Value::Null => Document::Null,
        serde_json::Value::Bool(b) => Document::Bool(*b),
        serde_json::Value::Number(n) => Document::Number(number_of(n)),
        serde_json::Value::String(s) => Document::String(s.clone()),
        serde_json::Value::Array(items) => Document::Array(items.iter().map(document_of).collect()),
        serde_json::Value::Object(members) => {
            Document::Object(members.iter().map(|(k, v)| (k.clone(), document_of(v))).collect())
        }
    }
}

fn value_of(document: &Document) -> serde_json::Value {
    match document {
        Document::Null => serde_json::Value::Null,
        Document::Bool(b) => serde_json::Value::Bool(*b),
        Document::Number(Number::Unsigned(u)) => serde_json::Value::from(*u),
        Document::Number(Number::Signed(i)) => serde_json::Value::from(*i),
        Document::Number(Number::Double { bits }) => serde_json::Value::from(f64::from_bits(*bits)),
        Document::String(s) => serde_json::Value::String(s.clone()),
        Document::Array(items) => serde_json::Value::Array(items.iter().map(value_of).collect()),
        Document::Object(members) => serde_json::Value::Object(
            members.iter().map(|(k, v)| (k.clone(), value_of(v))).collect(),
        ),
    }
}

fn json(text: &str) -> serde_json::Value {
    serde_json::from_str(text).unwrap()
}

/// Resolves a value as a document without a location of its own, handing the
/// engine what `remote` says a URL returns whenever it asks for one.
fn deref_value(
    jsonref: &mut JsonRef,
    value: &mut serde_json::Value,
    remote: &dyn Fn(&str) -> serde_json::Value,
) {
    let mut document = document_of(value);
    loop {
        match jsonref.deref_value(&mut document, "/work").unwrap() {
            Progress::Complete => break,
            Progress::Fetch(Fetch::Http { location }) => {
                assert!(jsonref.supply(&location, document_of(&remote(&location))));
            }
            Progress::Fetch(Fetch::File { location, .. }) => panic!("no file at {}", location),
        }
    }
    *value = value_of(&document);
}

fn nothing_remote(url: &str) -> serde_json::Value {
    panic!("nothing at {}", url)
}

const TEST_JSON: &str = "https://gist.githubusercontent.com/kindly/35a631d33792413ed8e34548abaa9d61/raw/b43dc7a76cc2a04fde2a2087f0eb389099b952fb/test.json";

const TEST_NESTED_JSON: &str = "https://gist.githubusercontent.com/kindly/35a631d33792413ed8e34548abaa9d61/raw/0a691c035251f742e8710f71ba92ead307823385/test_nested.json";

fn gist(url: &str) -> serde_json::Value {
    if url == TEST_JSON {
        json(r#"{"title": "title from url"}"#)
    } else if url == TEST_NESTED_JSON {
        json(
            r##"{"title": "title from url",
                 "properties": {"prop1": {"title": "sub property title in url"},
                                "prop2": {"$ref": "#/properties/prop1"}}}"##,
        )
    } else {
        panic!("nothing at {}", url)
    }
}

fn no_refs() {
    let no_ref_example = json(r#"{"properties": {"prop1": {"title": "proptitle"}}}"#);

    let mut jsonref = JsonRef::new();

    let mut input = no_ref_example.clone();

    deref_value(&mut jsonref, &mut input, &nothing_remote);

    assert_eq!(input, no_ref_example)
}

#[test]
fn lib_json_no_refs() {
    no_refs()
}

#[test]
fn test_jsonref_json_no_refs() {
    no_refs()
}

fn with_recursion() {
    let mut simple_refs_example = json(r##"{"properties": {"prop1": {"$ref": "#"}}}"##);

    let simple_refs_expected = json(r#"{"properties": {"prop1": {"properties": {"prop1": {}}}}}"#);

    let mut jsonref = JsonRef::new();
    deref_value(&mut jsonref, &mut simple_refs_example, &nothing_remote);
    jsonref.set_reference_key("__reference__");

    println!("{}", serde_json::to_string_pretty(&simple_refs_example).unwrap());

    assert_eq!(simple_refs_example, simple_refs_expected)
}

#[test]
fn lib_json_with_recursion() {
    with_recursion()
}

#[test]
fn test_jsonref_json_with_recursion() {
    with_recursion()
}

#[test]
fn json_with_multiple_recursion() {
    let mut simple_refs_example = json(
        r##"{"properties": {
            "prop0": {"$ref": "#"},
            "prop1": {"$ref": "#/properties/prop0"},
            "prop2": 5
        }}"##,
    );

    let simple_refs_expected = json(
        r#"{
      "properties": {
        "prop0": {
          "properties": {
            "prop0": {},
            "prop1": {},
            "prop2": 5
          }
        },
        "prop1": {
          "properties": {
            "prop0": {},
            "prop1": {},
            "prop2": 5
          }
        },
        "prop2": 5
      }
    }"#,
    );

    let mut jsonref = JsonRef::new();
    deref_value(&mut jsonref, &mut simple_refs_example, &nothing_remote);
    jsonref.set_reference_key("__reference__");

    println!("{}", serde_json::to_string_pretty(&simple_refs_example).unwrap());

    assert_eq!(simple_refs_example, simple_refs_expected)
}

fn from_url() {
    let mut simple_refs_example = json(
        r#"{"properties": {"prop1": {"title": "name"},
                           "prop2": {"$ref": "https://gist.githubusercontent.com/kindly/35a631d33792413ed8e34548abaa9d61/raw/b43dc7a76cc2a04fde2a2087f0eb389099b952fb/test.json", "title": "old_title"}}
           }"#,
    );

    let simple_refs_expected = json(
        r#"{"properties": {"prop1": {"title": "name"},
                           "prop2": {"title": "title from url", "__reference__": {"title": "old_title"}}}
           }"#,
    );

    let mut jsonref = JsonRef::new();
    jsonref.set_reference_key("__reference__");
    deref_value(&mut jsonref, &mut simple_refs_example, &gist);

    assert_eq!(simple_refs_example, simple_refs_expected)
}

#[test]
fn lib_simple_from_url() {
    from_url()
}

#[test]
fn test_jsonref_simple_from_url() {
    from_url()
}

fn nested_from_url() {
    let mut simple_refs_example = json(
        r#"{"properties": {"prop1": {"title": "name"},
                           "prop2": {"$ref": "https://gist.githubusercontent.com/kindly/35a631d33792413ed8e34548abaa9d61/raw/0a691c035251f742e8710f71ba92ead307823385/test_nested.json"}}
           }"#,
    );

    let simple_refs_expected = json(
        r#"{"properties": {"prop1": {"title": "name"},
                           "prop2": {"__reference__": {},
                                     "title": "title from url",
                                     "properties": {"prop1": {"title": "sub property title in url"},
                                                    "prop2": {"__reference__": {}, "title": "sub property title in url"}}
                           }}
           }"#,
    );

    let mut jsonref = JsonRef::new();
    jsonref.set_reference_key("__reference__");
    deref_value(&mut jsonref, &mut simple_refs_example, &gist);

    assert_eq!(simple_refs_example, simple_refs_expected)
}

#[test]
fn lib_nested_with_ref_from_url() {
    nested_from_url()
}

#[test]
fn test_jsonref_nested_with_ref_from_url() {
    nested_from_url()
}
