use chrono::{TimeZone, Utc};
use vector_event::error::{Access, TargetError, ValueKind};
use vector_event::metric::{Metric, MetricKind, MetricTags, MetricValue};
use vector_event::metric_target::Target;
use vector_event::path::Path;
use vector_event::value::{SortedMap, Timestamp, Value};

fn at(y: i32, mo: u32, d: u32, h: u32) -> Timestamp {
    let t = Utc.with_ymd_and_hms(y, mo, d, h, 0, 0).unwrap();
    Timestamp { seconds: t.timestamp(), nanos: t.timestamp_subsec_nanos() }
}

fn counter() -> MetricValue {
    MetricValue::Counter { bits: 1.23f64.to_bits() }
}

fn tig_tog() -> MetricTags {
    let mut map = MetricTags::new();
    map.insert("tig".to_string(), "tog".to_string());
    map
}

fn path(s: &str) -> Path {
    Path::parse(s).unwrap()
}

#[test]
fn metric_metric_all_fields() {
    let metric = Metric::new("zub", MetricKind::Absolute, counter())
        .with_namespace(Some("zoob"))
        .with_tags(Some(tig_tog()))
        .with_timestamp(Some(at(2020, 12, 10, 12)));

    let target = Target::Event(metric);

    let mut tags = SortedMap::new();
    tags.insert("tig".to_string(), Value::text("tog"));
    let mut expected = SortedMap::new();
    expected.insert("name".to_string(), Value::text("zub"));
    expected.insert("namespace".to_string(), Value::text("zoob"));
    expected.insert("timestamp".to_string(), Value::Timestamp(at(2020, 12, 10, 12)));
    expected.insert("tags".to_string(), Value::Object(tags));
    expected.insert("kind".to_string(), Value::text("absolute"));
    expected.insert("type".to_string(), Value::text("counter"));

    assert_eq!(Ok(Some(Value::Object(expected))), target.get(&Path::root()));
}

#[test]
fn metric_metric_fields() {
    let metric = Metric::new("name", MetricKind::Absolute, counter()).with_tags(Some(tig_tog()));

    let cases = vec![
        ("name", Some(Value::text("name")), Value::text("namefoo"), false),
        ("namespace", None, Value::text("namespacefoo"), true),
        ("timestamp", None, Value::Timestamp(at(2020, 12, 8, 12)), true),
        ("kind", Some(Value::text("absolute")), Value::text("incremental"), false),
        ("tags.thing", None, Value::text("footag"), true),
    ];

    let mut target = Target::Event(metric);

    for (p, current, new, delete) in cases {
        let p = path(p);

        assert_eq!(Ok(current), target.get(&p));
        assert_eq!(Ok(()), target.insert(&p, new.clone()));
        assert_eq!(Ok(Some(new.clone())), target.get(&p));

        if delete {
            assert_eq!(Ok(Some(new)), target.remove(&p, true));
            assert_eq!(Ok(None), target.get(&p));
        }
    }
}

#[test]
fn metric_metric_invalid_paths() {
    let metric = Metric::new("name", MetricKind::Absolute, counter());

    let validpaths_get = vec![".name", ".namespace", ".timestamp", ".kind", ".tags", ".type"];
    let validpaths_set = vec![".name", ".namespace", ".timestamp", ".kind", ".tags"];

    let mut target = Target::Event(metric);

    assert_eq!(
        Err(format!("invalid path zork: expected one of {}", validpaths_get.join(", "))),
        target.get(&path("zork")).map_err(|e| e.message())
    );

    assert_eq!(
        Err(format!("invalid path zork: expected one of {}", validpaths_set.join(", "))),
        target.insert(&path("zork"), Value::text("thing")).map_err(|e| e.message())
    );

    assert_eq!(
        Err(format!("invalid path zork: expected one of {}", validpaths_set.join(", "))),
        target.remove(&path("zork"), true).map_err(|e| e.message())
    );

    assert_eq!(
        Err(format!("invalid path tags.foo.flork: expected one of {}", validpaths_get.join(", "))),
        target.get(&path("tags.foo.flork")).map_err(|e| e.message())
    );
}

#[test]
fn metric_type_is_read_only_and_root_is_refused() {
    let mut target = Target::Event(Metric::new("n", MetricKind::Incremental, counter()));
    assert_eq!(target.get(&path("type")), Ok(Some(Value::text("counter"))));
    assert_eq!(
        target.insert(&path("type"), Value::text("gauge")),
        Err(TargetError::InvalidPath { path: "type".to_string(), accepted: Access::Write })
    );
    assert_eq!(target.insert(&Path::root(), Value::Null), Err(TargetError::MetricRoot));
    assert_eq!(target.remove(&Path::root(), false), Err(TargetError::MetricRoot));
    assert_eq!(
        target.remove(&path("name"), false),
        Err(TargetError::InvalidPath { path: "name".to_string(), accepted: Access::Write })
    );
    assert_eq!(target.insert(&Path::root(), Value::Null).unwrap_err().message(), "cannot set root path");
}

#[test]
fn metric_values_of_the_wrong_kind_are_refused() {
    let mut target = Target::Event(Metric::new("n", MetricKind::Incremental, counter()));
    assert_eq!(
        target.insert(&path("kind"), Value::text("sideways")),
        Err(TargetError::WrongKind { expected: ValueKind::MetricKind })
    );
    assert_eq!(
        target.insert(&path("timestamp"), Value::Integer(3)),
        Err(TargetError::WrongKind { expected: ValueKind::Timestamp })
    );
    assert_eq!(
        target.insert(&path("name"), Value::Integer(3)),
        Err(TargetError::WrongKind { expected: ValueKind::Bytes })
    );
    assert_eq!(
        target.insert(&path("tags"), Value::Integer(3)),
        Err(TargetError::WrongKind { expected: ValueKind::Object })
    );
    let mut bad = SortedMap::new();
    bad.insert("a".to_string(), Value::text("ok"));
    bad.insert("b".to_string(), Value::Integer(1));
    assert_eq!(
        target.insert(&path("tags"), Value::Object(bad)),
        Err(TargetError::WrongKind { expected: ValueKind::Bytes })
    );
    assert_eq!(target.get(&path("tags")), Ok(None));
    assert_eq!(target.get(&path("kind")), Ok(Some(Value::text("incremental"))));
}

#[test]
fn metric_tags_are_upserted_and_cleared() {
    let mut target = Target::Event(Metric::new("n", MetricKind::Absolute, counter()).with_tags(Some(tig_tog())));
    let mut more = SortedMap::new();
    more.insert("tig".to_string(), Value::text("tag"));
    more.insert("new".to_string(), Value::text("one"));
    assert_eq!(target.insert(&path("tags"), Value::Object(more)), Ok(()));
    assert_eq!(target.get(&path("tags.tig")), Ok(Some(Value::text("tag"))));
    assert_eq!(target.get(&path("tags.new")), Ok(Some(Value::text("one"))));

    let mut expected = SortedMap::new();
    expected.insert("new".to_string(), Value::text("one"));
    expected.insert("tig".to_string(), Value::text("tag"));
    assert_eq!(target.remove(&path("tags"), false), Ok(Some(Value::Object(expected))));
    assert_eq!(target.get(&path("tags")), Ok(None));
}

#[test]
fn metric_names_are_read_lossily_from_bytes() {
    let mut target = Target::Event(Metric::new("n", MetricKind::Absolute, counter()));
    assert_eq!(target.insert(&path("name"), Value::Bytes(vec![0x66, 0xff])), Ok(()));
    assert_eq!(target.get(&path("name")), Ok(Some(Value::text("f\u{FFFD}"))));
    assert_eq!(target.insert(&path("name"), Value::text("plain")), Ok(()));
    assert_eq!(target.into_metric().name(), "plain");
}
