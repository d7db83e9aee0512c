//! Trace-event loader: consumes a flat, time-ordered log of
//! instrumentation records and reconstructs, per execution thread, a
//! properly nested call-stack representation — each interval with a start
//! time, duration and nesting depth — together with a deduplicated,
//! class-checked registry of event types carrying occurrence counts.
//!
//! The reducer's behaviour is specified by the model in [`loader`] and
//! [`ingest`] and proved against it; [`laws`] states and proves the
//! loader's global properties. Raw text decoding sits behind trusted
//! declarations over the `json` crate in [`google_trace`].

pub mod depth;
pub mod google_trace;
pub mod ingest;
pub mod laws;
pub mod loader;
pub mod record;
pub mod text;
pub mod trace_types;
