//! Core data model: event classes, intervals, event-type descriptors,
//! threads, and the loader error type.

use vstd::prelude::*;

verus! {

/// Structural class of an event name, fixed by the first record that
/// introduces the name.
#[derive(Debug, Clone, Copy, PartialEq, Eq, Structural)]
pub enum TraceEventClass {
    /// Self-contained interval whose duration is known at creation.
    Standalone,
    /// Interval split across a begin marker and an end marker, paired by
    /// stack order within one thread.
    BeginEnd,
    /// Interval paired by an explicit identifier rather than stack order.
    Async,
}

/// One reconstructed interval: a start time, a duration, and a nesting
/// depth, tied to a descriptor in the event-type registry by index.
#[derive(Debug, Clone, Copy, PartialEq, Eq, Structural)]
pub struct TraceEvent {
    /// Start timestamp of the interval.
    pub ts: u64,
    /// Duration; resolved during depth assignment for begin/end pairs.
    pub dur: u64,
    /// Secondary duration metric; zero when the record omits it.
    pub tdur: u64,
    /// Whether an end marker or explicit duration has been resolved.
    pub finished: bool,
    /// Nesting level, zero for an outermost interval.
    pub depth: u64,
    /// Index of this interval's descriptor in the registry.
    pub event_type: usize,
}

/// Deduplicated descriptor for one event name: its class and how many
/// completed intervals have referenced it.
#[derive(Debug)]
pub struct TraceEventType {
    pub name: String,
    pub class: TraceEventClass,
    pub count: u64,
}

impl TraceEventType {
    /// A fresh descriptor with an occurrence count of zero.
    pub fn new(class: TraceEventClass, name: String) -> (r: TraceEventType)
        ensures
            r.name == name,
            r.class == class,
            r.count == 0,
    {
        TraceEventType { class, name, count: 0 }
    }
}

/// The taxonomy of terminal loader failures. Every failure aborts the
/// whole ingest; none is retried.
pub enum ErrKind {
    /// An array element was not a structured object.
    NonObject,
    /// A required field was absent on a record.
    Missing { field: Seq<char> },
    /// A field was present but not of its expected type.
    WrongType { field: Seq<char> },
    /// An event name was reused under a different structural class.
    ClassMismatch { name: Seq<char>, requested: TraceEventClass, stored: TraceEventClass },
    /// An end marker arrived with no open begin marker on its thread.
    Underflow,
}

/// The display label of an event class.
pub open spec fn class_label(c: TraceEventClass) -> Seq<char> {
    match c {
        TraceEventClass::Standalone => "Standalone"@,
        TraceEventClass::BeginEnd => "BeginEnd"@,
        TraceEventClass::Async => "Async"@,
    }
}

/// The message that each failure kind carries.
pub open spec fn message_of(k: ErrKind) -> Seq<char> {
    match k {
        ErrKind::NonObject => "non-object event"@,
        ErrKind::Missing { field } => "Missing '"@ + field + "' field"@,
        ErrKind::WrongType { field } => "Wrong type for '"@ + field + "' field"@,
        ErrKind::ClassMismatch { name, requested, stored } => "Mismatched class for type "@ + name
            + ", "@ + class_label(requested) + " != "@ + class_label(stored),
        ErrKind::Underflow => "No matching open event"@,
    }
}

/// Terminal loader failure, carrying a human-readable message.
#[derive(Debug)]
pub struct TraceError {
    details: String,
}

impl TraceError {
    /// The failure message.
    pub closed spec fn spec_message(&self) -> Seq<char> {
        self.details@
    }

    pub fn new(msg: &str) -> (r: TraceError)
        ensures
            r.spec_message() == msg@,
    {
        TraceError { details: msg.to_owned() }
    }

    /// Read back the failure message.
    pub fn message(&self) -> (r: &str)
        ensures
            r@ == self.spec_message(),
    {
        self.details.as_str()
    }

    /// A failure from an already-built message.
    pub fn from_message(msg: String) -> (r: TraceError)
        ensures
            r.spec_message() == msg@,
    {
        TraceError { details: msg }
    }

    /// The failure for a required field that a record does not carry.
    pub fn missing_field(field: &str) -> (r: TraceError)
        ensures
            r.spec_message() == message_of(ErrKind::Missing { field: field@ }),
    {
        let mut msg = "Missing '".to_owned();
        msg.append(field);
        msg.append("' field");
        TraceError { details: msg }
    }

    /// The failure for a field present but not of its expected type.
    pub fn wrong_type(field: &str) -> (r: TraceError)
        ensures
            r.spec_message() == message_of(ErrKind::WrongType { field: field@ }),
    {
        let mut msg = "Wrong type for '".to_owned();
        msg.append(field);
        msg.append("' field");
        TraceError { details: msg }
    }

    /// The failure for an event name reused under a different class.
    pub fn class_mismatch(name: &str, requested: TraceEventClass, stored: TraceEventClass) -> (r:
        TraceError)
        ensures
            r.spec_message() == message_of(ErrKind::ClassMismatch { name: name@, requested, stored }),
    {
        let mut msg = "Mismatched class for type ".to_owned();
        msg.append(name);
        msg.append(", ");
        msg.append(class_label_str(requested));
        msg.append(" != ");
        msg.append(class_label_str(stored));
        TraceError { details: msg }
    }
}

/// The display label of an event class, as executable text.
pub fn class_label_str(c: TraceEventClass) -> (r: &'static str)
    ensures
        r@ == class_label(c),
{
    match c {
        TraceEventClass::Standalone => "Standalone",
        TraceEventClass::BeginEnd => "BeginEnd",
        TraceEventClass::Async => "Async",
    }
}

impl PartialEq for TraceError {
    fn eq(&self, other: &TraceError) -> (r: bool) {
        self.details == other.details
    }
}

impl vstd::std_specs::cmp::PartialEqSpecImpl for TraceError {
    open spec fn obeys_eq_spec() -> bool {
        true
    }

    open spec fn eq_spec(&self, other: &TraceError) -> bool {
        self.spec_message() == other.spec_message()
    }
}

impl From<String> for TraceError {
    fn from(err: String) -> (r: TraceError) {
        TraceError { details: err }
    }
}

impl vstd::std_specs::convert::FromSpecImpl<String> for TraceError {
    open spec fn obeys_from_spec() -> bool {
        true
    }

    closed spec fn from_spec(err: String) -> TraceError {
        TraceError { details: err }
    }
}

/// One finalized thread: its display name and the depth-annotated,
/// time-ordered intervals reconstructed for it.
#[derive(Debug, Clone)]
pub struct TraceThread {
    pub name: String,
    pub events: Vec<TraceEvent>,
}

impl TraceThread {
    pub fn new(name: String) -> (r: TraceThread)
        ensures
            r.name == name,
            r.events@ == Seq::<TraceEvent>::empty(),
    {
        TraceThread { name, events: Vec::new() }
    }
}

/// The assembled result of one ingest: the finalized threads, the async
/// intervals (none are ever paired or stored), and the full registry of
/// event-type descriptors.
#[derive(Debug)]
pub struct TraceFile {
    pub threads: Vec<TraceThread>,
    pub async_events: Vec<TraceEvent>,
    pub event_types: Vec<TraceEventType>,
}

} // verus!
