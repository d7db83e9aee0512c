//! Tests of the trace loader through its JSON entry point.

use tracer::google_trace::load_json;
use tracer::trace_types::TraceError;

static NOT_ARRAY: &str = "Value isn't 'array'";

#[test]
fn test_malformed() {
    let json = "{}";
    assert_eq!(load_json(json).err().unwrap(), TraceError::new(NOT_ARRAY));
    let json = "[{}]";
    assert_eq!(
        load_json(json).err().unwrap(),
        TraceError::new("Missing 'tid' field")
    );
}

#[test]
fn test_empty() {
    let json = "[]";
    let result = load_json(json);
    assert!(result.is_ok());
    let trace_file = result.ok().unwrap();
    assert_eq!(trace_file.async_events.len(), 0);
    assert_eq!(trace_file.threads.len(), 0);
}

#[test]
fn test_single_event() {
    let json = "[{\"tid\": 123, \"ph\": \"X\", \"ts\":456, \"name\": \"eventA\"}]";
    let result = load_json(json);
    if result.is_err() {
        println!("result {:?}", result);
    }
    assert!(result.is_ok());
    let trace_file = result.ok().unwrap();
    assert_eq!(trace_file.async_events.len(), 0);
    assert_eq!(trace_file.threads.len(), 1);
    assert_eq!(trace_file.event_types.len(), 1);
    let thread = &trace_file.threads[0];
    assert_eq!(thread.name, "123");
    assert_eq!(thread.events.len(), 1);
    let event = &thread.events[0];
    assert_eq!(event.ts, 456);
    assert_eq!(event.dur, 0);
    assert_eq!(event.tdur, 0);
    assert_eq!(event.depth, 0);
    let event_type = &trace_file.event_types[0];
    assert_eq!(event_type.name, "eventA");
    assert_eq!(event_type.count, 1);
}

#[test]
fn test_event_pair() {
    let json =
        "[{\"tid\": 123, \"ph\": \"B\", \"ts\":456, \"name\": \"eventA\"}, {\"tid\": 123, \"ph\": \"E\", \"ts\":656, \"name\": \"eventA\"}]";
    let result = load_json(json);
    if result.is_err() {
        println!("result {:?}", result);
    }
    assert!(result.is_ok());
    let trace_file = result.ok().unwrap();
    assert_eq!(trace_file.async_events.len(), 0);
    assert_eq!(trace_file.threads.len(), 1);
    let thread = &trace_file.threads[0];
    assert_eq!(thread.name, "123");
    assert_eq!(thread.events.len(), 1);
    let event = &thread.events[0];
    assert_eq!(event.ts, 456);
    assert_eq!(event.dur, 200);
    assert_eq!(event.tdur, 0);
    assert_eq!(event.depth, 0);
    assert_eq!(trace_file.event_types.len(), 1);
    let event_type = &trace_file.event_types[0];
    assert_eq!(event_type.name, "eventA");
    assert_eq!(event_type.count, 1);
}

#[test]
fn test_nested_event_pair() {
    let json = "[\
                {\"tid\": 123, \"ph\": \"B\", \"ts\":456, \"name\": \"eventA\"}, \
                {\"tid\": 123, \"ph\": \"B\", \"ts\":556, \"name\": \"eventB\"}, \
                {\"tid\": 123, \"ph\": \"E\", \"ts\":600, \"name\": \"eventB\"}, \
                {\"tid\": 123, \"ph\": \"E\", \"ts\":656, \"name\": \"eventA\"}, \
                {\"tid\": 123, \"ph\": \"X\", \"ts\":580, \"name\": \"eventC\", \"dur\": 10} \
                ]";
    let result = load_json(json);
    if result.is_err() {
        println!("result {:?}", result);
    }
    assert!(result.is_ok());
    let trace_file = result.ok().unwrap();
    assert_eq!(trace_file.async_events.len(), 0);
    assert_eq!(trace_file.threads.len(), 1);
    let thread = &trace_file.threads[0];
    assert_eq!(thread.name, "123");
    assert_eq!(thread.events.len(), 3);
    let event_a = &thread.events[0];
    assert_eq!(event_a.ts, 456);
    assert_eq!(event_a.dur, 200);
    assert_eq!(event_a.tdur, 0);
    assert_eq!(event_a.depth, 0);
    let event_b = &thread.events[1];
    assert_eq!(event_b.ts, 556);
    assert_eq!(event_b.dur, 44);
    assert_eq!(event_b.tdur, 0);
    assert_eq!(event_b.depth, 1);
    let event_c = &thread.events[2];
    assert_eq!(event_c.ts, 580);
    assert_eq!(event_c.dur, 10);
    assert_eq!(event_c.tdur, 0);
    assert_eq!(event_c.depth, 2);
    assert_eq!(trace_file.event_types.len(), 3);
    let event_type_a = trace_file
        .event_types
        .iter()
        .find(|&x| x.name == "eventA")
        .unwrap();
    assert_eq!(event_type_a.name, "eventA");
    assert_eq!(event_type_a.count, 1);
    let event_type_b = trace_file
        .event_types
        .iter()
        .find(|&x| x.name == "eventB")
        .unwrap();
    assert_eq!(event_type_b.name, "eventB");
    assert_eq!(event_type_b.count, 1);
    let event_type_c = trace_file
        .event_types
        .iter()
        .find(|&x| x.name == "eventC")
        .unwrap();
    assert_eq!(event_type_c.name, "eventC");
    assert_eq!(event_type_c.count, 1);
}

#[test]
fn test_empty_has_no_event_types() {
    let trace_file = load_json("[]").unwrap();
    assert_eq!(trace_file.threads.len(), 0);
    assert_eq!(trace_file.async_events.len(), 0);
    assert_eq!(trace_file.event_types.len(), 0);
}

#[test]
fn test_non_object_entry() {
    let result = load_json("[3]");
    assert_eq!(result.err().unwrap(), TraceError::new("non-object event"));
}

#[test]
fn test_field_type_mismatch() {
    let json = "[{\"tid\": \"abc\", \"ph\": \"X\", \"ts\": 1, \"name\": \"a\"}]";
    let result = load_json(json);
    assert_eq!(
        result.err().unwrap(),
        TraceError::new("Wrong type for 'tid' field")
    );
}

#[test]
fn test_bad_duration_field() {
    let json = "[{\"tid\": 1, \"ph\": \"X\", \"ts\": 1, \"name\": \"a\", \"dur\": \"soon\"}]";
    let result = load_json(json);
    assert_eq!(
        result.err().unwrap(),
        TraceError::new("Wrong type for 'dur' field")
    );
}

#[test]
fn test_missing_ts() {
    let json = "[{\"tid\": 1, \"ph\": \"B\", \"name\": \"a\"}]";
    let result = load_json(json);
    assert_eq!(result.err().unwrap(), TraceError::new("Missing 'ts' field"));
}

#[test]
fn test_class_mismatch() {
    let json = "[\
        {\"tid\": 1, \"ph\": \"B\", \"ts\": 1, \"name\": \"eventA\"}, \
        {\"tid\": 1, \"ph\": \"X\", \"ts\": 2, \"name\": \"eventA\"} \
        ]";
    let result = load_json(json);
    assert_eq!(
        result.err().unwrap(),
        TraceError::new("Mismatched class for type eventA, Standalone != BeginEnd")
    );
}

#[test]
fn test_stack_underflow() {
    let json = "[{\"tid\": 1, \"ph\": \"E\", \"ts\": 5, \"name\": \"eventA\"}]";
    let result = load_json(json);
    assert_eq!(
        result.err().unwrap(),
        TraceError::new("No matching open event")
    );
}

#[test]
fn test_unknown_phase_ignored() {
    let json = "[{\"tid\": 1, \"ph\": \"Q\", \"ts\": 5, \"name\": \"eventA\"}]";
    let trace_file = load_json(json).unwrap();
    assert_eq!(trace_file.threads.len(), 0);
    assert_eq!(trace_file.event_types.len(), 0);
    assert_eq!(trace_file.async_events.len(), 0);
}

#[test]
fn test_async_events_counted_not_stored() {
    let json = "[\
        {\"tid\": 1, \"ph\": \"S\", \"ts\": 5, \"name\": \"eventA\", \"id\": \"k\"}, \
        {\"tid\": 1, \"ph\": \"F\", \"ts\": 9, \"name\": \"eventA\", \"id\": \"k\"} \
        ]";
    let trace_file = load_json(json).unwrap();
    assert_eq!(trace_file.threads.len(), 0);
    assert_eq!(trace_file.async_events.len(), 0);
    assert_eq!(trace_file.event_types.len(), 1);
    assert_eq!(trace_file.event_types[0].name, "eventA");
    assert_eq!(trace_file.event_types[0].count, 2);
}

#[test]
fn test_async_missing_id() {
    let json = "[{\"tid\": 1, \"ph\": \"S\", \"ts\": 5, \"name\": \"eventA\"}]";
    let result = load_json(json);
    assert_eq!(result.err().unwrap(), TraceError::new("Missing 'id' field"));
}

#[test]
fn test_begin_end_counted_on_close() {
    // two begin markers, one end marker: the pair is counted once, on
    // its closing marker, so the count is 1, not 2
    let json = "[\
        {\"tid\": 1, \"ph\": \"B\", \"ts\": 1, \"name\": \"eventA\"}, \
        {\"tid\": 1, \"ph\": \"B\", \"ts\": 2, \"name\": \"eventA\"}, \
        {\"tid\": 1, \"ph\": \"E\", \"ts\": 3, \"name\": \"eventA\"} \
        ]";
    let trace_file = load_json(json).unwrap();
    assert_eq!(trace_file.event_types.len(), 1);
    assert_eq!(trace_file.event_types[0].count, 1);
    let thread = &trace_file.threads[0];
    assert_eq!(thread.events.len(), 2);
    // the end marker closes the innermost begin marker
    assert_eq!(thread.events[0].ts, 1);
    assert_eq!(thread.events[0].depth, 0);
    assert!(!thread.events[0].finished);
    assert_eq!(thread.events[1].ts, 2);
    assert_eq!(thread.events[1].depth, 1);
    assert!(thread.events[1].finished);
    assert_eq!(thread.events[1].dur, 1);
}

#[test]
fn test_two_pairs_counted_twice() {
    let json = "[\
        {\"tid\": 1, \"ph\": \"B\", \"ts\": 1, \"name\": \"eventA\"}, \
        {\"tid\": 1, \"ph\": \"E\", \"ts\": 2, \"name\": \"eventA\"}, \
        {\"tid\": 1, \"ph\": \"B\", \"ts\": 3, \"name\": \"eventA\"}, \
        {\"tid\": 1, \"ph\": \"E\", \"ts\": 7, \"name\": \"eventA\"} \
        ]";
    let trace_file = load_json(json).unwrap();
    assert_eq!(trace_file.event_types.len(), 1);
    assert_eq!(trace_file.event_types[0].count, 2);
    let thread = &trace_file.threads[0];
    assert_eq!(thread.events.len(), 2);
    assert_eq!(thread.events[0].dur, 1);
    assert_eq!(thread.events[1].dur, 4);
}

#[test]
fn test_equal_timestamps_keep_arrival_order() {
    // the sort is stable: the begin marker at ts 100 stays before the
    // standalone record at ts 100, which therefore nests inside it
    let json = "[\
        {\"tid\": 1, \"ph\": \"B\", \"ts\": 100, \"name\": \"outer\"}, \
        {\"tid\": 1, \"ph\": \"X\", \"ts\": 100, \"name\": \"inner\"}, \
        {\"tid\": 1, \"ph\": \"E\", \"ts\": 200, \"name\": \"outer\"} \
        ]";
    let trace_file = load_json(json).unwrap();
    let thread = &trace_file.threads[0];
    assert_eq!(thread.events.len(), 2);
    assert_eq!(thread.events[0].ts, 100);
    assert_eq!(thread.events[0].depth, 0);
    assert_eq!(thread.events[0].dur, 100);
    assert_eq!(thread.events[1].ts, 100);
    assert_eq!(thread.events[1].depth, 1);
}

#[test]
fn test_two_threads() {
    let json = "[\
        {\"tid\": 7, \"ph\": \"X\", \"ts\": 1, \"name\": \"a\"}, \
        {\"tid\": 9, \"ph\": \"X\", \"ts\": 2, \"name\": \"a\"} \
        ]";
    let trace_file = load_json(json).unwrap();
    assert_eq!(trace_file.threads.len(), 2);
    // thread order is not part of the contract: compare as a set
    let names: Vec<&str> = trace_file.threads.iter().map(|t| t.name.as_str()).collect();
    assert!(names.contains(&"7"));
    assert!(names.contains(&"9"));
    assert_eq!(trace_file.event_types.len(), 1);
    assert_eq!(trace_file.event_types[0].count, 2);
}

#[test]
fn test_tdur_field_kept() {
    let json = "[{\"tid\": 1, \"ph\": \"X\", \"ts\": 5, \"name\": \"a\", \"dur\": 4, \"tdur\": 3}]";
    let trace_file = load_json(json).unwrap();
    let event = &trace_file.threads[0].events[0];
    assert_eq!(event.dur, 4);
    assert_eq!(event.tdur, 3);
}

#[test]
fn test_close_overwrites_recorded_duration() {
    // a begin marker may carry a duration field; the matching end marker
    // replaces it with the timestamp difference
    let json = "[\
        {\"tid\": 1, \"ph\": \"B\", \"ts\": 10, \"name\": \"a\", \"dur\": 99}, \
        {\"tid\": 1, \"ph\": \"E\", \"ts\": 25, \"name\": \"a\"} \
        ]";
    let trace_file = load_json(json).unwrap();
    let event = &trace_file.threads[0].events[0];
    assert_eq!(event.dur, 15);
    assert!(event.finished);
}

#[test]
fn test_async_id_wrong_type() {
    let json = "[{\"tid\": 1, \"ph\": \"F\", \"ts\": 5, \"name\": \"a\", \"id\": 4}]";
    let result = load_json(json);
    assert_eq!(
        result.err().unwrap(),
        TraceError::new("Wrong type for 'id' field")
    );
}

#[test]
fn test_parse_error_message() {
    let result = load_json("[");
    assert_eq!(
        result.err().unwrap(),
        TraceError::new("Unexpected end of JSON")
    );
}

#[test]
fn test_large_thread_id_name() {
    let json = "[{\"tid\": 18446744073709551615, \"ph\": \"X\", \"ts\": 1, \"name\": \"a\"}]";
    let trace_file = load_json(json).unwrap();
    assert_eq!(trace_file.threads[0].name, "18446744073709551615");
}
