use vector_event::log_event::{EventMetadata, LogEvent, TraversalError};
use vector_event::path::Path;
use vector_event::value::{SortedMap, Timestamp, Value};
use vector_event::vrl_target::LogSchema;

fn text(s: &str) -> Value {
    Value::text(s)
}

fn object(entries: Vec<(&str, Value)>) -> Value {
    let mut m = SortedMap::new();
    for (k, v) in entries {
        m.insert(k.to_string(), v);
    }
    Value::Object(m)
}

fn assert_merge_value(current: Value, incoming: Value, expected: Value) {
    let mut merged = current;
    merged.merge(incoming);
    assert_eq!(merged, expected);
}

#[test]
fn merge_value_works_correctly() {
    assert_merge_value(text("hello "), text("world"), text("hello world"));

    assert_merge_value(Value::Boolean(true), Value::Boolean(false), Value::Boolean(false));
    assert_merge_value(Value::Boolean(false), Value::Boolean(true), Value::Boolean(true));

    assert_merge_value(text("my_val"), Value::Boolean(true), Value::Boolean(true));
    assert_merge_value(Value::Boolean(true), text("my_val"), text("my_val"));

    assert_merge_value(Value::Integer(1), Value::Integer(2), Value::Integer(2));
}

#[test]
fn merge_event_combines_values_accordingly() {
    let fields_to_merge = vec![
        "merge".to_string(),
        "merge_a".to_string(),
        "merge_b".to_string(),
        "merge_c".to_string(),
    ];

    let current = {
        let mut log = LogEvent::new();
        log.insert("merge", text("hello "));
        log.insert("do_not_merge", text("my_first_value"));
        log.insert("merge_a", Value::Boolean(true));
        log.insert("merge_b", Value::Integer(123));
        log.insert("a", Value::Boolean(true));
        log.insert("b", Value::Integer(123));
        log
    };

    let incoming = {
        let mut log = LogEvent::new();
        log.insert("merge", text("world"));
        log.insert("do_not_merge", text("my_second_value"));
        log.insert("merge_b", Value::Integer(456));
        log.insert("merge_c", Value::Boolean(false));
        log.insert("b", Value::Integer(456));
        log.insert("c", Value::Boolean(true));
        log
    };

    let mut merged = current;
    merged.merge(incoming, &fields_to_merge);

    let expected = {
        let mut log = LogEvent::new();
        log.insert("merge", text("hello world"));
        log.insert("do_not_merge", text("my_first_value"));
        log.insert("a", Value::Boolean(true));
        log.insert("b", Value::Integer(123));
        log.insert("merge_a", Value::Boolean(true));
        log.insert("merge_b", Value::Integer(456));
        log.insert("merge_c", Value::Boolean(false));
        log
    };

    assert_eq!(merged, expected);
}

fn motivatingly_complex() -> LogEvent {
    let fields = object(vec![
        ("nulled", Value::Null),
        (
            "map",
            object(vec![
                ("basic", Value::Boolean(true)),
                ("map", object(vec![("buddy", Value::Integer(-1))])),
            ]),
        ),
    ]);
    LogEvent::try_from_value(fields).unwrap()
}

#[test]
fn entry() {
    let mut event = motivatingly_complex();

    let fallback = text("If you don't see this, the `LogEvent::entry` API is not working on non-existing lookups.");
    event.entry(&Path::parse("non-existing").unwrap(), fallback.clone()).unwrap();
    assert_eq!(event.get("non-existing"), Some(&fallback));

    let fallback = text("If you see this, the `LogEvent::entry` API is not working on existing, single segment lookups.");
    event.entry(&Path::parse("nulled").unwrap(), fallback).unwrap();
    assert_eq!(event.get("nulled"), Some(&Value::Null));

    let fallback = text("If you see this, the `LogEvent::entry` API is not working on existing, double segment lookups.");
    event.entry(&Path::parse("map.basic").unwrap(), fallback).unwrap();
    assert_eq!(event.get("map.basic"), Some(&Value::Boolean(true)));

    let fallback = text("If you see this, the `LogEvent::entry` API is not working on existing, multi-segment lookups.");
    event.entry(&Path::parse("map.map.buddy").unwrap(), fallback).unwrap();
    assert_eq!(event.get("map.map.buddy"), Some(&Value::Integer(-1)));

    let fallback = text("If you don't see this, the `LogEvent::entry` API is not working on non-existing multi-segment lookups.");
    event.entry(&Path::parse("map.map.non-existing").unwrap(), fallback.clone()).unwrap();
    assert_eq!(event.get("map.map.non-existing"), Some(&fallback));
}

#[test]
fn entry_refuses_arrays_missing_fields_and_scalars() {
    let mut event = motivatingly_complex();
    event.insert("list", Value::Array(vec![object(vec![])]));
    let before = event.clone().into_value();

    assert_eq!(
        event.entry(&Path::parse("list[0].x").unwrap(), Value::Null),
        Err(TraversalError { segment: 1 })
    );
    assert_eq!(
        event.entry(&Path::parse("missing.x").unwrap(), Value::Null),
        Err(TraversalError { segment: 1 })
    );
    assert_eq!(
        event.entry(&Path::parse("map.basic.x").unwrap(), Value::Null),
        Err(TraversalError { segment: 2 })
    );
    assert_eq!(event.entry(&Path::root(), Value::Null), Err(TraversalError { segment: 0 }));
    assert_eq!(event.clone().into_value(), before);
}

#[test]
fn round_trip_through_record_is_lossless() {
    let original = object(vec![
        ("a", Value::Array(vec![Value::Integer(1), object(vec![("b", Value::Null)]), text("x")])),
        ("c", object(vec![("d", object(vec![("e", Value::Boolean(false))]))])),
        ("t", Value::Timestamp(Timestamp { seconds: 1_607_601_600, nanos: 5 })),
        ("r", Value::Regex("^a+$".to_string())),
    ]);
    let log = LogEvent::try_from_value(original.clone()).unwrap();
    assert_eq!(log.into_value(), original);
    assert!(LogEvent::try_from_value(Value::Integer(3)).is_err());
    assert!(LogEvent::try_from_value(Value::Array(vec![])).is_err());
}

#[test]
fn removing_twice_finds_nothing_the_second_time() {
    let mut log = motivatingly_complex();
    assert_eq!(log.remove("map.map.buddy"), Some(Value::Integer(-1)));
    let after_first = log.clone().into_value();
    assert_eq!(log.remove("map.map.buddy"), None);
    assert_eq!(log.clone().into_value(), after_first);
}

#[test]
fn insert_creates_missing_maps() {
    let mut log = LogEvent::try_from_value(object(vec![("a", object(vec![("d", Value::Integer(2))]))])).unwrap();
    assert_eq!(log.insert("a.b.c", Value::Integer(1)), None);
    let expected = object(vec![(
        "a",
        object(vec![("d", Value::Integer(2)), ("b", object(vec![("c", Value::Integer(1))]))]),
    )]);
    assert_eq!(log.into_value(), expected);
}

#[test]
fn insert_replaces_a_scalar_on_the_way_and_pads_arrays() {
    let mut log = LogEvent::new();
    log.insert("a", Value::Integer(5));
    assert_eq!(log.insert("a.b", Value::Integer(1)), None);
    assert_eq!(log.get("a"), Some(&object(vec![("b", Value::Integer(1))])));
    log.insert("arr[2]", text("z"));
    assert_eq!(
        log.get("arr"),
        Some(&Value::Array(vec![Value::Null, Value::Null, text("z")]))
    );
    assert_eq!(log.get("arr[-1]"), Some(&text("z")));
    assert_eq!(log.insert("arr[-1]", text("y")), Some(text("z")));
    log.insert("neg[-2]", Value::Integer(7));
    assert_eq!(log.get("neg"), Some(&Value::Array(vec![Value::Integer(7), Value::Null])));
}

#[test]
fn remove_with_and_without_compaction() {
    let nested = object(vec![("a", object(vec![("b", object(vec![("c", Value::Integer(1))]))]))]);

    let mut kept = LogEvent::try_from_value(nested.clone()).unwrap();
    assert_eq!(kept.remove_prune("a.b.c", false), Some(Value::Integer(1)));
    assert_eq!(kept.get("a.b"), Some(&object(vec![])));

    let mut compacted = LogEvent::try_from_value(nested).unwrap();
    assert_eq!(compacted.remove_prune("a.b.c", true), Some(Value::Integer(1)));
    assert!(compacted.is_empty());

    let in_array = object(vec![("l", Value::Array(vec![object(vec![("x", Value::Integer(1))])]))]);
    let mut arr = LogEvent::try_from_value(in_array).unwrap();
    assert_eq!(arr.remove_prune("l[0].x", true), Some(Value::Integer(1)));
    assert_eq!(arr.get("l"), Some(&Value::Array(vec![object(vec![])])));
}

#[test]
fn flat_access_does_not_read_paths() {
    let mut log = LogEvent::new();
    log.insert_flat("a.b".to_string(), Value::Integer(1));
    assert_eq!(log.get_flat("a.b"), Some(&Value::Integer(1)));
    assert_eq!(log.get("a.b"), None);
    assert!(log.contains("\"a.b\""));
    assert!(!log.contains("a"));
}

#[test]
fn try_insert_keeps_what_is_there() {
    let mut log = LogEvent::new();
    log.try_insert("k", Value::Integer(1));
    log.try_insert("k", Value::Integer(2));
    assert_eq!(log.get("k"), Some(&Value::Integer(1)));
}

#[test]
fn bad_keys_change_nothing() {
    let mut log = LogEvent::new();
    assert_eq!(log.insert("a..b", Value::Integer(1)), None);
    assert_eq!(log.insert("[0]", Value::Integer(1)), None);
    assert_eq!(log.insert("", Value::Integer(1)), None);
    assert!(log.is_empty());
    assert_eq!(log.get(""), None);
}

#[test]
fn record_from_bytes_holds_message_and_time() {
    let schema = LogSchema::standard();
    let now = Timestamp { seconds: 1_607_601_600, nanos: 0 };
    let log = LogEvent::from_bytes_at(b"hello".to_vec(), now, &schema);
    assert_eq!(log.get("message"), Some(&Value::Bytes(b"hello".to_vec())));
    assert_eq!(log.get("timestamp"), Some(&Value::Timestamp(now)));

    let stamped = LogEvent::from_bytes(b"hi".to_vec(), &schema);
    assert_eq!(stamped.get("message"), Some(&Value::Bytes(b"hi".to_vec())));
    match stamped.get("timestamp") {
        Some(Value::Timestamp(t)) => assert!(t.seconds > 1_600_000_000),
        other => panic!("no timestamp: {:?}", other),
    }
}

#[test]
fn metadata_survives_field_operations() {
    let mut log = LogEvent::new_with_metadata(EventMetadata);
    log.insert("x", Value::Integer(1));
    let (fields, metadata) = log.into_parts();
    assert_eq!(metadata, EventMetadata);
    assert_eq!(fields.len(), 1);
}

#[test]
fn keys_are_the_written_leaf_paths() {
    let log = LogEvent::try_from_value(object(vec![
        ("a", object(vec![("b", Value::Integer(1))])),
        ("c", Value::Array(vec![Value::Integer(1), object(vec![("d", Value::Boolean(true))])])),
        ("e", object(vec![])),
        ("odd key", Value::Null),
    ]))
    .unwrap();
    assert_eq!(
        log.keys(),
        vec![
            "a.b".to_string(),
            "c[0]".to_string(),
            "c[1].d".to_string(),
            "\"odd key\"".to_string()
        ]
    );
    assert!(LogEvent::new().keys().is_empty());
}

#[test]
fn fields_can_be_changed_through_the_map() {
    let mut log = LogEvent::new();
    log.as_map_mut().insert("direct".to_string(), Value::Integer(4));
    assert_eq!(log.get("direct"), Some(&Value::Integer(4)));
    assert_eq!(log.as_map().len(), 1);
}

#[test]
fn all_fields_pairs_each_leaf_path_with_its_value() {
    let log = LogEvent::try_from_value(object(vec![
        ("a", object(vec![("b", Value::Integer(1))])),
        ("c", Value::Array(vec![text("x"), object(vec![])])),
    ]))
    .unwrap();
    assert_eq!(
        log.all_fields(),
        vec![("a.b".to_string(), Value::Integer(1)), ("c[0]".to_string(), text("x"))]
    );
}

#[test]
fn every_key_names_a_present_field() {
    let log = LogEvent::try_from_value(object(vec![
        ("odd key", object(vec![("in", Value::Integer(1))])),
        ("z", Value::Array(vec![Value::Null, Value::Null])),
    ]))
    .unwrap();
    let keys = log.keys();
    assert_eq!(keys.len(), 3);
    for k in &keys {
        assert!(log.contains(k), "{} is not found", k);
    }
}
