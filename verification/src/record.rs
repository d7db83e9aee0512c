//! Decoded input records and their typed field accessors.
//!
//! A record arrives as a structured object whose fields have already been
//! decoded into plain values; the accessors here answer the typed field
//! queries that the loader's dispatch makes, and report a typed failure
//! when a field is absent or of the wrong shape.

use vstd::prelude::*;

use crate::trace_types::{message_of, ErrKind, TraceError, TraceEvent};

verus! {

/// A decoded field value: a string, an unsigned 64-bit number, or any
/// other shape (which no query accepts).
pub enum FieldValue {
    Text(String),
    Unsigned(u64),
    Other,
}

/// One decoded record: the fields of a structured object, in order of
/// appearance. A query reads the first field with its key.
pub struct EventRecord {
    pub fields: Vec<(String, FieldValue)>,
}

/// One element of the decoded top-level array: a structured object, or
/// anything else.
pub enum RawEntry {
    Object(EventRecord),
    NonObject,
}

/// The first field with the given key, if any.
pub open spec fn lookup_spec(fields: Seq<(String, FieldValue)>, name: Seq<char>) -> Option<
    FieldValue,
>
    decreases fields.len(),
{
    if fields.len() == 0 {
        Option::None
    } else if fields[0].0@ == name {
        Option::Some(fields[0].1)
    } else {
        lookup_spec(fields.drop_first(), name)
    }
}

/// What reading a required string field yields: the text, or the exact
/// failure — naming the field — when it is absent or not a string.
pub open spec fn get_str_spec(rec: EventRecord, name: Seq<char>) -> Result<Seq<char>, ErrKind> {
    match lookup_spec(rec.fields@, name) {
        Option::None => Result::Err(ErrKind::Missing { field: name }),
        Option::Some(FieldValue::Text(s)) => Result::Ok(s@),
        Option::Some(_) => Result::Err(ErrKind::WrongType { field: name }),
    }
}

/// What reading a required unsigned 64-bit field yields.
pub open spec fn get_u64_spec(rec: EventRecord, name: Seq<char>) -> Result<u64, ErrKind> {
    match lookup_spec(rec.fields@, name) {
        Option::None => Result::Err(ErrKind::Missing { field: name }),
        Option::Some(FieldValue::Unsigned(n)) => Result::Ok(n),
        Option::Some(_) => Result::Err(ErrKind::WrongType { field: name }),
    }
}

/// What reading an optional duration field yields: zero when absent, the
/// number when present as one, and a failure — naming the field — when it
/// is present in any other shape.
pub open spec fn opt_u64_spec(rec: EventRecord, name: Seq<char>) -> Result<u64, ErrKind> {
    match lookup_spec(rec.fields@, name) {
        Option::None => Result::Ok(0u64),
        Option::Some(FieldValue::Unsigned(n)) => Result::Ok(n),
        Option::Some(_) => Result::Err(ErrKind::WrongType { field: name }),
    }
}

proof fn lemma_lookup_skip(fields: Seq<(String, FieldValue)>, name: Seq<char>, i: int)
    requires
        0 <= i < fields.len(),
        fields[i].0@ != name,
    ensures
        lookup_spec(fields.skip(i), name) == lookup_spec(fields.skip(i + 1), name),
{
    assert(fields.skip(i).drop_first() =~= fields.skip(i + 1));
    assert(fields.skip(i)[0] == fields[i]);
}

/// Find the first field with the given key.
fn lookup<'a>(rec: &'a EventRecord, name: &str) -> (r: Option<&'a FieldValue>)
    ensures
        match lookup_spec(rec.fields@, name@) {
            Option::None => r is None,
            Option::Some(v) => r is Some && *r->Some_0 == v,
        },
{
    let name_owned: String = name.to_owned();
    let mut i: usize = 0;
    proof {
        assert(rec.fields@.skip(0) =~= rec.fields@);
    }
    while i < rec.fields.len()
        invariant
            name_owned@ == name@,
            0 <= i <= rec.fields@.len(),
            lookup_spec(rec.fields@, name@) == lookup_spec(rec.fields@.skip(i as int), name@),
        decreases rec.fields@.len() - i,
    {
        if rec.fields[i].0 == name_owned {
            proof {
                assert(rec.fields@.skip(i as int)[0] == rec.fields@[i as int]);
            }
            return Some(&rec.fields[i].1);
        }
        proof {
            lemma_lookup_skip(rec.fields@, name@, i as int);
        }
        i = i + 1;
    }
    proof {
        assert(rec.fields@.skip(i as int) =~= Seq::<(String, FieldValue)>::empty());
    }
    None
}

/// Read a required string field of a record.
pub fn get_str(rec: &EventRecord, name: &str) -> (r: Result<String, TraceError>)
    ensures
        match get_str_spec(*rec, name@) {
            Result::Ok(s) => r is Ok && r->Ok_0@ == s,
            Result::Err(k) => r is Err && r->Err_0.spec_message() == message_of(k),
        },
{
    match lookup(rec, name) {
        None => Err(TraceError::missing_field(name)),
        Some(FieldValue::Text(s)) => Ok(s.clone()),
        Some(_) => Err(TraceError::wrong_type(name)),
    }
}

/// Read a required unsigned 64-bit field of a record.
pub fn get_u64(rec: &EventRecord, name: &str) -> (r: Result<u64, TraceError>)
    ensures
        match get_u64_spec(*rec, name@) {
            Result::Ok(n) => r is Ok && r->Ok_0 == n,
            Result::Err(k) => r is Err && r->Err_0.spec_message() == message_of(k),
        },
{
    match lookup(rec, name) {
        None => Err(TraceError::missing_field(name)),
        Some(FieldValue::Unsigned(n)) => Ok(*n),
        Some(_) => Err(TraceError::wrong_type(name)),
    }
}

/// Read an optional duration field of a record, zero when absent.
pub fn opt_u64(rec: &EventRecord, name: &str) -> (r: Result<u64, TraceError>)
    ensures
        match opt_u64_spec(*rec, name@) {
            Result::Ok(n) => r is Ok && r->Ok_0 == n,
            Result::Err(k) => r is Err && r->Err_0.spec_message() == message_of(k),
        },
{
    match lookup(rec, name) {
        None => Ok(0),
        Some(FieldValue::Unsigned(n)) => Ok(*n),
        Some(_) => Err(TraceError::wrong_type(name)),
    }
}

/// What building an interval from a record yields: its timestamp and
/// durations read from the record, depth unassigned, tied to the given
/// descriptor index.
pub open spec fn make_event_spec(rec: EventRecord, type_index: usize, finished: bool) -> Result<
    TraceEvent,
    ErrKind,
> {
    match get_u64_spec(rec, "ts"@) {
        Result::Err(k) => Result::Err(k),
        Result::Ok(ts) => match opt_u64_spec(rec, "dur"@) {
            Result::Err(k) => Result::Err(k),
            Result::Ok(dur) => match opt_u64_spec(rec, "tdur"@) {
                Result::Err(k) => Result::Err(k),
                Result::Ok(tdur) => Result::Ok(
                    TraceEvent { ts, dur, tdur, finished, depth: 0, event_type: type_index },
                ),
            },
        },
    }
}

/// Build one interval from a record: required `ts`, optional `dur` and
/// `tdur` defaulting to zero.
pub fn make_trace_event(rec: &EventRecord, type_index: usize, finished: bool) -> (r: Result<
    TraceEvent,
    TraceError,
>)
    ensures
        match make_event_spec(*rec, type_index, finished) {
            Result::Ok(ev) => r is Ok && r->Ok_0 == ev,
            Result::Err(k) => r is Err && r->Err_0.spec_message() == message_of(k),
        },
{
    let ts = match get_u64(rec, "ts") {
        Ok(n) => n,
        Err(e) => {
            return Err(e);
        },
    };
    let dur = match opt_u64(rec, "dur") {
        Ok(n) => n,
        Err(e) => {
            return Err(e);
        },
    };
    let tdur = match opt_u64(rec, "tdur") {
        Ok(n) => n,
        Err(e) => {
            return Err(e);
        },
    };
    Ok(TraceEvent { ts, dur, tdur, finished, depth: 0, event_type: type_index })
}

} // verus!
