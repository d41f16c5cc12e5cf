use rough::yaml::parse;

#[test]
fn front_matter_deserializes_to_a_mapping() {
    let (value, body) = parse("---\ntitle: Home\ncount: 3\n---\nbody text\n").unwrap();
    assert_eq!(value.get("title").and_then(|v| v.as_str()), Some("Home"));
    assert_eq!(value.get("count").and_then(|v| v.as_i64()), Some(3));
    assert_eq!(body, "body text\n");
}

#[test]
fn missing_front_matter_deserializes_to_null() {
    let (value, body) = parse("just body\n").unwrap();
    assert!(value.is_null());
    assert_eq!(body, "just body\n");
}

#[test]
fn broken_yaml_in_front_matter_is_an_error() {
    let r = parse("---\nkey: [unclosed\n---\nbody\n");
    assert!(r.is_err());
}

#[test]
fn body_is_untouched_by_deserialization() {
    let (_, body) = parse("---\na: 1\n---\nline one\n\nline two\n").unwrap();
    assert_eq!(body, "line one\n\nline two\n");
}
