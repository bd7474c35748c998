use quill::{ParseError, Topic};

#[test]
fn parse_happy_path() {
    let t = Topic::parse("sensors/kitchen/temp").unwrap();
    assert_eq!(t.segments(), &["sensors", "kitchen", "temp"]);
    assert_eq!(t.delimiter(), '/');
    assert_eq!(t.to_string(), "sensors/kitchen/temp");
}

#[test]
fn parse_single_segment() {
    let t = Topic::parse("sensors").unwrap();
    assert_eq!(t.segments(), &["sensors"]);
}

#[test]
fn parse_custom_delimiter() {
    let t = Topic::parse_with("a.b.c", '.').unwrap();
    assert_eq!(t.segments(), &["a", "b", "c"]);
    assert_eq!(t.delimiter(), '.');
    assert_eq!(t.to_string(), "a.b.c");
}

#[test]
fn reject_empty() {
    assert_eq!(Topic::parse(""), Err(ParseError::Empty));
}

#[test]
fn reject_leading_delimiter() {
    assert_eq!(Topic::parse("/a"), Err(ParseError::EmptySegment));
}

#[test]
fn reject_trailing_delimiter() {
    assert_eq!(Topic::parse("a/"), Err(ParseError::EmptySegment));
}

#[test]
fn reject_doubled_delimiter() {
    assert_eq!(Topic::parse("a//b"), Err(ParseError::EmptySegment));
}

#[test]
fn try_from_str() {
    let t = Topic::try_from("x/y").unwrap();
    assert_eq!(t.segments(), &["x", "y"]);
}

// Further cases.

#[test]
fn reject_lone_delimiter() {
    assert_eq!(Topic::parse("/"), Err(ParseError::EmptySegment));
}

#[test]
fn other_delimiter_is_part_of_level() {
    let t = Topic::parse("a.b/c").unwrap();
    assert_eq!(t.segments(), &["a.b", "c"]);
}

#[test]
fn custom_delimiter_keeps_slashes() {
    let t = Topic::parse_with("a/b.c", '.').unwrap();
    assert_eq!(t.segments(), &["a/b", "c"]);
    assert_eq!(Topic::parse_with("a..c", '.'), Err(ParseError::EmptySegment));
}

#[test]
fn non_ascii_levels() {
    let t = Topic::parse("küche/temp°").unwrap();
    assert_eq!(t.segments(), &["küche", "temp°"]);
    assert_eq!(t.to_string(), "küche/temp°");
    let t = Topic::parse_with("aéb", 'é').unwrap();
    assert_eq!(t.segments(), &["a", "b"]);
}

#[test]
fn text_round_trip() {
    for text in ["a", "a/b/c", "sensors/+/x", "x y/z"] {
        let t = Topic::parse(text).unwrap();
        assert_eq!(t.to_string(), text);
        let again = Topic::parse_with(&t.to_string(), t.delimiter()).unwrap();
        assert_eq!(again, t);
    }
}

#[test]
fn clone_is_equal() {
    let t = Topic::parse("a/b").unwrap();
    assert_eq!(t.clone(), t);
}

#[test]
fn error_messages() {
    assert_eq!(ParseError::Empty.message(), "topic or pattern must not be empty");
    assert_eq!(
        ParseError::EmptySegment.message(),
        "empty segment (leading, trailing, or doubled delimiter)"
    );
    assert_eq!(
        ParseError::MultiLevelNotFinal.message(),
        "multi-level wildcard '#' must be the final segment"
    );
}
