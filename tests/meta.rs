use asyncapi_rust::{extract_asyncapi_spec_meta, ArgValue, AttrArg, AttrModel};

fn string_arg(key: &str, value: &str) -> AttrArg {
    AttrArg { key: key.to_string(), value: ArgValue::Str(value.to_string()) }
}

fn attr(path: &str, args: Vec<AttrArg>) -> AttrModel {
    AttrModel { path: Some(path.to_string()), args }
}

#[test]
fn test_extract_title_and_version() {
    let attrs = vec![attr(
        "asyncapi",
        vec![string_arg("title", "Chat API"), string_arg("version", "1.0.0")],
    )];

    let meta = extract_asyncapi_spec_meta(&attrs);
    assert_eq!(meta.title, Some("Chat API".to_string()));
    assert_eq!(meta.version, Some("1.0.0".to_string()));
    assert_eq!(meta.description, None);
}

#[test]
fn test_extract_with_description() {
    let attrs = vec![attr(
        "asyncapi",
        vec![
            string_arg("title", "My API"),
            string_arg("version", "2.0.0"),
            string_arg("description", "A great API"),
        ],
    )];

    let meta = extract_asyncapi_spec_meta(&attrs);
    assert_eq!(meta.title, Some("My API".to_string()));
    assert_eq!(meta.version, Some("2.0.0".to_string()));
    assert_eq!(meta.description, Some("A great API".to_string()));
}

#[test]
fn test_extract_none() {
    let attrs = vec![attr(
        "derive",
        vec![AttrArg { key: "Debug".to_string(), value: ArgValue::Absent }],
    )];

    let meta = extract_asyncapi_spec_meta(&attrs);
    assert_eq!(meta.title, None);
    assert_eq!(meta.version, None);
    assert_eq!(meta.description, None);
}

#[test]
fn later_attribute_overrides_earlier() {
    let attrs = vec![
        attr("asyncapi", vec![string_arg("title", "First"), string_arg("version", "1.0.0")]),
        attr("serde", vec![string_arg("title", "Ignored")]),
        attr("asyncapi", vec![string_arg("title", "Second")]),
    ];
    let meta = extract_asyncapi_spec_meta(&attrs);
    assert_eq!(meta.title, Some("Second".to_string()));
    assert_eq!(meta.version, Some("1.0.0".to_string()));
}

#[test]
fn non_string_value_stops_the_attribute() {
    let attrs = vec![attr(
        "asyncapi",
        vec![
            string_arg("title", "Kept"),
            AttrArg { key: "version".to_string(), value: ArgValue::Other },
            string_arg("description", "Never read"),
        ],
    )];
    let meta = extract_asyncapi_spec_meta(&attrs);
    assert_eq!(meta.title, Some("Kept".to_string()));
    assert_eq!(meta.version, None);
    assert_eq!(meta.description, None);
}

#[test]
fn unknown_key_with_value_stops_but_bare_key_does_not() {
    let attrs = vec![
        attr(
            "asyncapi",
            vec![
                AttrArg { key: "flag".to_string(), value: ArgValue::Absent },
                string_arg("title", "T"),
                string_arg("other", "x"),
                string_arg("version", "9"),
            ],
        ),
        AttrModel { path: None, args: vec![string_arg("description", "no path")] },
    ];
    let meta = extract_asyncapi_spec_meta(&attrs);
    assert_eq!(meta.title, Some("T".to_string()));
    assert_eq!(meta.version, None);
    assert_eq!(meta.description, None);
}
