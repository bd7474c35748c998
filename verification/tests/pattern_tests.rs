use quill::{ParseError, Pattern, Segment, Topic};

fn topic(s: &str) -> Topic {
    Topic::parse(s).unwrap()
}

fn pattern(s: &str) -> Pattern {
    Pattern::parse(s).unwrap()
}

#[test]
fn parse_literals_and_wildcards() {
    let p = pattern("sensors/+/temp/#");
    assert_eq!(
        p.segments(),
        &[
            Segment::Literal("sensors".into()),
            Segment::Single,
            Segment::Literal("temp".into()),
            Segment::Multi,
        ]
    );
}

#[test]
fn parse_hash_alone() {
    let p = pattern("#");
    assert_eq!(p.segments(), &[Segment::Multi]);
}

#[test]
fn reject_multi_not_final() {
    assert_eq!(
        Pattern::parse("sensors/#/temp"),
        Err(ParseError::MultiLevelNotFinal)
    );
}

#[test]
fn reject_empty_and_bad_segments() {
    assert_eq!(Pattern::parse(""), Err(ParseError::Empty));
    assert_eq!(Pattern::parse("/a"), Err(ParseError::EmptySegment));
    assert_eq!(Pattern::parse("a/"), Err(ParseError::EmptySegment));
    assert_eq!(Pattern::parse("a//b"), Err(ParseError::EmptySegment));
}

#[test]
fn plus_is_only_whole_segment() {
    // "foo+" is a literal, not a wildcard.
    let p = pattern("foo+");
    assert_eq!(p.segments(), &[Segment::Literal("foo+".into())]);
    assert!(p.matches(&topic("foo+")));
    assert!(!p.matches(&topic("foo")));
}

#[test]
fn exact_match() {
    let p = pattern("sensors/kitchen/temp");
    assert!(p.matches(&topic("sensors/kitchen/temp")));
    assert!(!p.matches(&topic("sensors/kitchen/humidity")));
    assert!(!p.matches(&topic("sensors/kitchen")));
}

#[test]
fn single_level_wildcard() {
    let p = pattern("sensors/+/temp");
    assert!(p.matches(&topic("sensors/kitchen/temp")));
    assert!(p.matches(&topic("sensors/garage/temp")));
    assert!(!p.matches(&topic("sensors/kitchen/humidity")));
    assert!(!p.matches(&topic("sensors/kitchen/pantry/temp")));
    assert!(!p.matches(&topic("sensors/temp")));
}

#[test]
fn multi_level_wildcard() {
    let p = pattern("sensors/#");
    assert!(p.matches(&topic("sensors")));
    assert!(p.matches(&topic("sensors/kitchen")));
    assert!(p.matches(&topic("sensors/kitchen/temp")));
    assert!(!p.matches(&topic("actuators/relay")));
}

#[test]
fn hash_matches_everything() {
    let p = pattern("#");
    assert!(p.matches(&topic("a")));
    assert!(p.matches(&topic("a/b/c")));
}

#[test]
fn mixed_wildcards() {
    let p = pattern("+/+/temp/#");
    assert!(p.matches(&topic("sensors/kitchen/temp")));
    assert!(p.matches(&topic("sensors/kitchen/temp/celsius")));
    assert!(!p.matches(&topic("sensors/kitchen/humidity")));
}

#[test]
fn display_round_trip_shape() {
    let p = pattern("a/+/b/#");
    assert_eq!(p.to_string(), "a/+/b/#");
}

#[test]
fn custom_delimiter() {
    let p = Pattern::parse_with("a.+.b", '.').unwrap();
    let t = Topic::parse_with("a.x.b", '.').unwrap();
    assert!(p.matches(&t));
}

// Further cases.

#[test]
fn pattern_try_from_and_delimiter() {
    let p = Pattern::try_from("a/+").unwrap();
    assert_eq!(p.delimiter(), '/');
    assert_eq!(p.segments(), &[Segment::Literal("a".into()), Segment::Single]);
}

#[test]
fn hash_is_only_whole_segment() {
    let p = pattern("a/b#");
    assert_eq!(
        p.segments(),
        &[Segment::Literal("a".into()), Segment::Literal("b#".into())]
    );
    assert!(!p.matches(&topic("a/b/c")));
    assert!(p.matches(&topic("a/b#")));
}

#[test]
fn plus_does_not_match_zero_levels() {
    let p = pattern("a/+");
    assert!(!p.matches(&topic("a")));
    assert!(p.matches(&topic("a/b")));
    assert!(!p.matches(&topic("a/b/c")));
}

#[test]
fn hash_after_plus() {
    let p = pattern("+/#");
    assert!(p.matches(&topic("a")));
    assert!(p.matches(&topic("a/b/c")));
}

#[test]
fn matching_ignores_delimiters() {
    let p = Pattern::parse_with("a.b", '.').unwrap();
    assert!(p.matches(&topic("a/b")));
}

#[test]
fn pattern_text_round_trip() {
    for text in ["#", "+", "a/+/b/#", "x/y", "+/+"] {
        let p = pattern(text);
        assert_eq!(p.to_string(), text);
        assert_eq!(Pattern::parse(&p.to_string()).unwrap(), p);
    }
}

#[test]
fn segment_texts() {
    assert_eq!(Segment::Single.to_string(), "+");
    assert_eq!(Segment::Multi.to_string(), "#");
    assert_eq!(Segment::Literal("abc".into()).to_string(), "abc");
}

#[test]
fn hash_in_middle_after_other_errors() {
    assert_eq!(Pattern::parse("#/"), Err(ParseError::EmptySegment));
    assert_eq!(Pattern::parse("#/#"), Err(ParseError::MultiLevelNotFinal));
}

#[test]
fn pattern_clone_is_equal() {
    let p = pattern("a/+/#");
    assert_eq!(p.clone(), p);
}
