use vector_event::path::{ParseError, Path, Segment};

#[test]
fn parses_fields_indices_and_quotes() {
    let p = Path::parse(".arr[0]").unwrap();
    assert_eq!(p.len(), 2);
    assert_eq!(p.segment(0), &Segment::Field("arr".to_string()));
    assert_eq!(p.segment(1), &Segment::Index(0));

    let p = Path::parse("a.\"b c\"[-1]").unwrap();
    assert_eq!(p.segment(1), &Segment::Field("b c".to_string()));
    assert_eq!(p.segment(2), &Segment::Index(-1));

    let p = Path::parse("\"q\\\"x\"").unwrap();
    assert_eq!(p.segment(0), &Segment::Field("q\"x".to_string()));

    assert_eq!(Path::parse("zork"), Path::parse(".zork"));
    assert!(Path::parse(".").unwrap().is_root());
    assert!(Path::parse("").unwrap().is_root());
}

#[test]
fn refuses_malformed_paths() {
    assert!(Path::parse("a..b").is_err());
    assert!(Path::parse("a.").is_err());
    assert!(Path::parse("\"open").is_err());
    assert!(Path::parse("[x]").is_err());
    assert!(Path::parse("[]").is_err());
    assert!(Path::parse("a b").is_err());
    assert!(Path::parse("[99999999999999999999]").is_err());
    assert_eq!(Path::parse("a.b c"), Err(ParseError { offset: 3 }));
}

#[test]
fn writes_paths_back() {
    assert_eq!(Path::parse("tags.foo.flork").unwrap().to_text(), "tags.foo.flork");
    assert_eq!(Path::parse(".a[12].b[-3]").unwrap().to_text(), "a[12].b[-3]");
    assert_eq!(Path::parse("\"x y\".\"q\\\"\"").unwrap().to_text(), "\"x y\".\"q\\\"\"");
    assert_eq!(Path::root().to_text(), "");
}

#[test]
fn parse_errors_point_at_the_offending_segment() {
    assert_eq!(Path::parse("a..b"), Err(ParseError { offset: 2 }));
    assert_eq!(Path::parse("\"open"), Err(ParseError { offset: 0 }));
    assert_eq!(Path::parse(".a[x]"), Err(ParseError { offset: 2 }));
    assert_eq!(Path::parse("a."), Err(ParseError { offset: 2 }));
}

#[test]
fn written_paths_read_back() {
    for text in ["a.b", "a[3].\"x y\"", "tags.thing", "\"q\\\"\"[-2]"] {
        let p = Path::parse(text).unwrap();
        assert_eq!(Path::parse(&p.to_text()), Ok(p));
    }
}
