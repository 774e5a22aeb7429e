use chrono::{TimeZone, Utc};
use vector_event::log_event::{EventMetadata, LogEvent};
use vector_event::log_target::Target as LogTarget;
use vector_event::error::TargetError;
use vector_event::metric::{Metric, MetricKind, MetricTags, MetricValue};
use vector_event::path::Path;
use vector_event::value::{SortedMap, Timestamp, Value};
use vector_event::vrl_target::{value_into_events, Event, LogSchema, VrlTarget};

fn at(y: i32, mo: u32, d: u32, h: u32) -> Timestamp {
    let t = Utc.with_ymd_and_hms(y, mo, d, h, 0, 0).unwrap();
    Timestamp { seconds: t.timestamp(), nanos: t.timestamp_subsec_nanos() }
}

fn counter() -> MetricValue {
    MetricValue::Counter { bits: 1.23f64.to_bits() }
}

fn tig_tog() -> MetricTags {
    let mut map = MetricTags::new();
    map.insert("tig".to_string(), "tog".to_string());
    map
}

fn path(s: &str) -> Path {
    Path::parse(s).unwrap()
}

#[test]
fn vrl_target_metric_all_fields() {
    let metric = Metric::new("zub", MetricKind::Absolute, counter())
        .with_namespace(Some("zoob"))
        .with_tags(Some(tig_tog()))
        .with_timestamp(Some(at(2020, 12, 10, 12)));

    let target = VrlTarget::new(Event::Metric(metric));

    let mut tags = SortedMap::new();
    tags.insert("tig".to_string(), Value::text("tog"));
    let mut expected = SortedMap::new();
    expected.insert("name".to_string(), Value::text("zub"));
    expected.insert("namespace".to_string(), Value::text("zoob"));
    expected.insert("timestamp".to_string(), Value::Timestamp(at(2020, 12, 10, 12)));
    expected.insert("tags".to_string(), Value::Object(tags));
    expected.insert("kind".to_string(), Value::text("absolute"));
    expected.insert("type".to_string(), Value::text("counter"));

    assert_eq!(Ok(Some(Value::Object(expected))), target.get(&path(".")));
}

#[test]
fn vrl_target_metric_fields() {
    let metric = Metric::new("name", MetricKind::Absolute, counter()).with_tags(Some(tig_tog()));

    let cases = vec![
        ("name", Some(Value::text("name")), Value::text("namefoo"), false),
        ("namespace", None, Value::text("namespacefoo"), true),
        ("timestamp", None, Value::Timestamp(at(2020, 12, 8, 12)), true),
        ("kind", Some(Value::text("absolute")), Value::text("incremental"), false),
        ("tags.thing", None, Value::text("footag"), true),
    ];

    let mut target = VrlTarget::new(Event::Metric(metric));

    for (p, current, new, delete) in cases {
        let p = path(p);

        assert_eq!(Ok(current), target.get(&p));
        assert_eq!(Ok(()), target.insert(&p, new.clone()));
        assert_eq!(Ok(Some(new.clone())), target.get(&p));

        if delete {
            assert_eq!(Ok(Some(new)), target.remove(&p, true));
            assert_eq!(Ok(None), target.get(&p));
        }
    }
}

#[test]
fn vrl_target_metric_invalid_paths() {
    let metric = Metric::new("name", MetricKind::Absolute, counter());

    let validpaths_get = vec![".name", ".namespace", ".timestamp", ".kind", ".tags", ".type"];
    let validpaths_set = vec![".name", ".namespace", ".timestamp", ".kind", ".tags"];

    let mut target = VrlTarget::new(Event::Metric(metric));

    assert_eq!(
        Err(format!("invalid path .zork: expected one of {}", validpaths_get.join(", "))),
        target.get(&path("zork"))
    );

    assert_eq!(
        Err(format!("invalid path .zork: expected one of {}", validpaths_set.join(", "))),
        target.insert(&path("zork"), Value::text("thing"))
    );

    assert_eq!(
        Err(format!("invalid path .zork: expected one of {}", validpaths_set.join(", "))),
        target.remove(&path("zork"), true)
    );

    assert_eq!(
        Err(format!("invalid path .tags.foo.flork: expected one of {}", validpaths_get.join(", "))),
        target.get(&path("tags.foo.flork"))
    );
}

#[test]
fn root_array_fans_out_into_one_event_per_element() {
    let mut log = LogEvent::new_with_metadata(EventMetadata);
    log.insert("original", Value::Integer(1));
    let mut target = VrlTarget::new(Event::Log(log));
    let items = vec![Value::text("a"), Value::Integer(2), Value::Boolean(true)];
    assert_eq!(target.insert(&Path::root(), Value::Array(items.clone())), Ok(()));

    let events = target.into_events(&LogSchema::standard());
    assert_eq!(events.len(), 3);
    for (event, item) in events.iter().zip(items.iter()) {
        match event {
            Event::Log(log) => {
                assert_eq!(log.get("message"), Some(item));
                assert_eq!(log.get("original"), None);
                assert_eq!(*log.metadata(), EventMetadata);
            }
            other => panic!("expected a log, got {:?}", other),
        }
    }
}

#[test]
fn map_root_gives_one_event_and_scalar_root_a_message() {
    let schema = LogSchema::new("msg".to_string(), "ts".to_string());
    let mut fields = SortedMap::new();
    fields.insert("k".to_string(), Value::Integer(1));
    let events = value_into_events(Value::Object(fields), EventMetadata, &schema);
    assert_eq!(events.len(), 1);
    match &events[0] {
        Event::Log(log) => assert_eq!(log.get("k"), Some(&Value::Integer(1))),
        other => panic!("expected a log, got {:?}", other),
    }

    let events = value_into_events(Value::Integer(9), EventMetadata, &schema);
    assert_eq!(events.len(), 1);
    match &events[0] {
        Event::Log(log) => assert_eq!(log.get("msg"), Some(&Value::Integer(9))),
        other => panic!("expected a log, got {:?}", other),
    }
    assert_eq!(value_into_events(Value::Array(vec![]), EventMetadata, &schema).len(), 0);
}

#[test]
fn metric_target_gives_back_one_metric() {
    let metric = Metric::new("m", MetricKind::Absolute, counter());
    let target = VrlTarget::new(Event::Metric(metric.clone()));
    let events = target.into_events(&LogSchema::standard());
    assert_eq!(events, vec![Event::Metric(metric)]);
}

#[test]
fn log_target_root_needs_a_map() {
    let mut target = LogTarget::Event(LogEvent::new());
    assert_eq!(target.insert(&Path::root(), Value::Integer(1)), Err(TargetError::RootNotMap));
    assert_eq!(
        target.insert(&Path::root(), Value::Integer(1)).unwrap_err().message(),
        "Cannot insert as root of Event unless it is a map."
    );
    let mut m = SortedMap::new();
    m.insert("a".to_string(), Value::Integer(1));
    assert_eq!(target.insert(&Path::root(), Value::Object(m.clone())), Ok(()));
    assert_eq!(target.get(&Path::root()), Ok(Some(Value::Object(m.clone()))));
    assert_eq!(target.insert(&path("b.c"), Value::Null), Ok(()));
    assert_eq!(target.get(&path("b.c")), Ok(Some(Value::Null)));
    let whole = target.remove(&Path::root(), false).unwrap().unwrap();
    assert!(matches!(whole, Value::Object(_)));
    assert_eq!(target.get(&path("a")), Ok(None));
}

#[test]
fn log_value_target_reads_and_removes() {
    let mut log = LogEvent::new();
    log.insert("a.b", Value::Integer(1));
    let mut target = VrlTarget::new(Event::Log(log));
    assert_eq!(target.get(&path(".a.b")), Ok(Some(Value::Integer(1))));
    assert_eq!(target.remove(&path(".a.b"), true), Ok(Some(Value::Integer(1))));
    assert_eq!(target.get(&path(".a")), Ok(None));
    assert_eq!(target.remove(&path(".a.b"), true), Ok(None));
}
