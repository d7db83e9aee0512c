//! Tests of the loader pieces through their direct interfaces, without
//! going through JSON text.

use tracer::ingest::load_records;
use tracer::loader::{ThreadLoader, TraceLoader};
use tracer::record::{get_str, get_u64, EventRecord, FieldValue, RawEntry};
use tracer::text::u64_to_string;
use tracer::trace_types::{TraceError, TraceEvent, TraceEventClass, TraceEventType};

fn record(fields: Vec<(&str, FieldValue)>) -> EventRecord {
    EventRecord {
        fields: fields.into_iter().map(|(k, v)| (k.to_owned(), v)).collect(),
    }
}

fn standalone_record(tid: u64, ts: u64, name: &str) -> RawEntry {
    RawEntry::Object(record(vec![
        ("tid", FieldValue::Unsigned(tid)),
        ("ph", FieldValue::Text("X".to_owned())),
        ("ts", FieldValue::Unsigned(ts)),
        ("name", FieldValue::Text(name.to_owned())),
    ]))
}

#[test]
fn test_u64_rendering() {
    assert_eq!(u64_to_string(0), "0");
    assert_eq!(u64_to_string(7), "7");
    assert_eq!(u64_to_string(1234567890), "1234567890");
    assert_eq!(u64_to_string(u64::MAX), "18446744073709551615");
}

#[test]
fn test_error_message() {
    let e = TraceError::new("boom");
    assert_eq!(e.message(), "boom");
    assert_eq!(TraceError::from(String::from("late")), TraceError::new("late"));
}

#[test]
fn test_record_accessors() {
    let rec = record(vec![
        ("tid", FieldValue::Unsigned(5)),
        ("name", FieldValue::Text("thing".to_owned())),
        ("flag", FieldValue::Other),
    ]);
    assert_eq!(get_u64(&rec, "tid").unwrap(), 5);
    assert_eq!(get_str(&rec, "name").unwrap(), "thing");
    assert_eq!(
        get_str(&rec, "missing").err().unwrap(),
        TraceError::new("Missing 'missing' field")
    );
    assert_eq!(
        get_u64(&rec, "name").err().unwrap(),
        TraceError::new("Wrong type for 'name' field")
    );
    assert_eq!(
        get_str(&rec, "flag").err().unwrap(),
        TraceError::new("Wrong type for 'flag' field")
    );
}

#[test]
fn test_load_records_single() {
    let trace_file = load_records(vec![standalone_record(123, 456, "eventA")]).unwrap();
    assert_eq!(trace_file.threads.len(), 1);
    assert_eq!(trace_file.threads[0].name, "123");
    assert_eq!(trace_file.threads[0].events.len(), 1);
    assert_eq!(trace_file.threads[0].events[0].ts, 456);
    assert_eq!(trace_file.threads[0].events[0].dur, 0);
    assert_eq!(trace_file.threads[0].events[0].depth, 0);
    assert_eq!(trace_file.event_types.len(), 1);
    assert_eq!(trace_file.event_types[0].name, "eventA");
    assert_eq!(trace_file.event_types[0].count, 1);
}

#[test]
fn test_load_records_non_object() {
    let result = load_records(vec![RawEntry::NonObject]);
    assert_eq!(result.err().unwrap(), TraceError::new("non-object event"));
}

#[test]
fn test_loader_api_pair() {
    let mut loader = TraceLoader::new();
    let ti = loader
        .get_event_type("eventA", TraceEventClass::BeginEnd)
        .unwrap();
    loader
        .add_event(
            123,
            TraceEvent { ts: 456, dur: 0, tdur: 0, finished: false, depth: 0, event_type: ti },
        )
        .unwrap();
    let ti2 = loader
        .get_event_type("eventA", TraceEventClass::BeginEnd)
        .unwrap();
    assert_eq!(ti, ti2);
    loader
        .add_event(
            123,
            TraceEvent { ts: 656, dur: 0, tdur: 0, finished: true, depth: 0, event_type: ti2 },
        )
        .unwrap();
    let mismatch = loader.get_event_type("eventA", TraceEventClass::Standalone);
    assert_eq!(
        mismatch.err().unwrap(),
        TraceError::new("Mismatched class for type eventA, Standalone != BeginEnd")
    );
    let trace_file = loader.trace_file().unwrap();
    assert_eq!(trace_file.threads.len(), 1);
    assert_eq!(trace_file.threads[0].name, "123");
    assert_eq!(trace_file.threads[0].events.len(), 1);
    assert_eq!(trace_file.threads[0].events[0].dur, 200);
    assert!(trace_file.threads[0].events[0].finished);
    assert_eq!(trace_file.event_types[0].count, 1);
}

#[test]
fn test_set_depth_direct() {
    let types = vec![TraceEventType::new(TraceEventClass::BeginEnd, "a".to_owned())];
    // arrival order deliberately unsorted by timestamp
    let events = vec![
        TraceEvent { ts: 300, dur: 0, tdur: 0, finished: true, depth: 0, event_type: 0 },
        TraceEvent { ts: 100, dur: 0, tdur: 0, finished: false, depth: 0, event_type: 0 },
    ];
    let out = tracer::depth::set_depth(events, &types).unwrap();
    assert_eq!(out.len(), 1);
    assert_eq!(out[0].ts, 100);
    assert_eq!(out[0].dur, 200);
    assert_eq!(out[0].depth, 0);
    assert!(out[0].finished);
}

#[test]
fn test_set_depth_underflow() {
    let types = vec![TraceEventType::new(TraceEventClass::BeginEnd, "a".to_owned())];
    let events = vec![
        TraceEvent { ts: 300, dur: 0, tdur: 0, finished: true, depth: 0, event_type: 0 },
    ];
    let result = tracer::depth::set_depth(events, &types);
    assert_eq!(result.err().unwrap(), TraceError::new("No matching open event"));
}

#[test]
fn test_thread_loader_finalize() {
    let types = vec![TraceEventType::new(TraceEventClass::Standalone, "a".to_owned())];
    let mut tl = ThreadLoader::new("worker".to_owned());
    tl.add_event(TraceEvent { ts: 9, dur: 3, tdur: 0, finished: true, depth: 0, event_type: 0 });
    let thread = tl.get_thread(&types).unwrap();
    assert_eq!(thread.name, "worker");
    assert_eq!(thread.events.len(), 1);
    assert_eq!(thread.events[0].ts, 9);
    assert_eq!(thread.events[0].dur, 3);
    assert_eq!(thread.events[0].depth, 0);
}

#[test]
fn test_standalone_count_matches_records() {
    // three standalone records on one thread, one on another
    let entries = vec![
        standalone_record(1, 10, "a"),
        standalone_record(1, 20, "b"),
        standalone_record(2, 15, "a"),
        standalone_record(1, 30, "a"),
    ];
    let trace_file = load_records(entries).unwrap();
    assert_eq!(trace_file.threads.len(), 2);
    let t1 = trace_file.threads.iter().find(|t| t.name == "1").unwrap();
    let t2 = trace_file.threads.iter().find(|t| t.name == "2").unwrap();
    assert_eq!(t1.events.len(), 3);
    assert_eq!(t2.events.len(), 1);
    assert!(t1.events.iter().all(|e| e.finished));
    let type_a = trace_file.event_types.iter().find(|t| t.name == "a").unwrap();
    assert_eq!(type_a.count, 3);
    let type_b = trace_file.event_types.iter().find(|t| t.name == "b").unwrap();
    assert_eq!(type_b.count, 1);
}
