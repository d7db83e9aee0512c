//! The top-level reducer: a single pass over the decoded record sequence,
//! dispatching each record by phase code to the registry and the
//! per-thread accumulators, then assembling the final result. Fails fast
//! on the first error; no partial results survive a failure.

use vstd::prelude::*;

use crate::loader::{add_event_spec, async_step, bump_count, counted, file_of, file_view,
    ingest_init, resolve_spec, FileModel, LoaderModel, TraceLoader};
use crate::record::{get_str, get_str_spec, get_u64, get_u64_spec, make_event_spec,
    make_trace_event, EventRecord, RawEntry};
use crate::trace_types::{message_of, ErrKind, TraceError, TraceEventClass, TraceFile};

verus! {

/// What one begin, end or standalone marker does to the loader state:
/// resolve the name under the phase's class, build the interval from the
/// record, then count and route it.
pub open spec fn marker_step(
    m: LoaderModel,
    rec: EventRecord,
    tid: u64,
    name: Seq<char>,
    class: TraceEventClass,
    finished: bool,
) -> Result<LoaderModel, ErrKind> {
    match resolve_spec(m.types, name, class) {
        Result::Err(k) => Result::Err(k),
        Result::Ok(pair) => match make_event_spec(rec, pair.1 as usize, finished) {
            Result::Err(k) => Result::Err(k),
            Result::Ok(ev) => Result::Ok(
                add_event_spec(LoaderModel { threads: m.threads, types: pair.0 }, tid, ev),
            ),
        },
    }
}

/// What one async marker does: its identifier is required and its name is
/// resolved under the async class and counted, but nothing is paired or
/// stored.
pub open spec fn async_marker_step(
    m: LoaderModel,
    rec: EventRecord,
    name: Seq<char>,
    finished: bool,
) -> Result<LoaderModel, ErrKind> {
    match get_str_spec(rec, "id"@) {
        Result::Err(k) => Result::Err(k),
        Result::Ok(id) => match resolve_spec(m.types, name, TraceEventClass::Async) {
            Result::Err(k) => Result::Err(k),
            Result::Ok(pair) => match make_event_spec(rec, pair.1 as usize, finished) {
                Result::Err(k) => Result::Err(k),
                Result::Ok(ev) => Result::Ok(
                    async_step(LoaderModel { threads: m.threads, types: pair.0 }, pair.1),
                ),
            },
        },
    }
}

/// The dispatch by phase code: begin and end markers carry the begin/end
/// class, standalone markers their own, async start and finish markers
/// the async class; any other phase code is silently ignored.
pub open spec fn dispatch_step(
    m: LoaderModel,
    rec: EventRecord,
    tid: u64,
    ph: Seq<char>,
    name: Seq<char>,
) -> Result<LoaderModel, ErrKind> {
    if ph == "B"@ {
        marker_step(m, rec, tid, name, TraceEventClass::BeginEnd, false)
    } else if ph == "E"@ {
        marker_step(m, rec, tid, name, TraceEventClass::BeginEnd, true)
    } else if ph == "S"@ {
        async_marker_step(m, rec, name, false)
    } else if ph == "F"@ {
        async_marker_step(m, rec, name, true)
    } else if ph == "X"@ {
        marker_step(m, rec, tid, name, TraceEventClass::Standalone, true)
    } else {
        Result::Ok(m)
    }
}

/// What one decoded record does to the loader state: it must be an
/// object, its thread id, phase and name are read in that order, and the
/// phase dispatches it.
pub open spec fn record_step(m: LoaderModel, e: RawEntry) -> Result<LoaderModel, ErrKind> {
    match e {
        RawEntry::NonObject => Result::Err(ErrKind::NonObject),
        RawEntry::Object(rec) => match get_u64_spec(rec, "tid"@) {
            Result::Err(k) => Result::Err(k),
            Result::Ok(tid) => match get_str_spec(rec, "ph"@) {
                Result::Err(k) => Result::Err(k),
                Result::Ok(ph) => match get_str_spec(rec, "name"@) {
                    Result::Err(k) => Result::Err(k),
                    Result::Ok(name) => dispatch_step(m, rec, tid, ph, name),
                },
            },
        },
    }
}

/// The loader state after consuming a record sequence, or the first
/// failure.
pub open spec fn ingest_fold(entries: Seq<RawEntry>) -> Result<LoaderModel, ErrKind>
    decreases entries.len(),
{
    if entries.len() == 0 {
        Result::Ok(ingest_init())
    } else {
        match ingest_fold(entries.drop_last()) {
            Result::Err(k) => Result::Err(k),
            Result::Ok(m) => record_step(m, entries.last()),
        }
    }
}

/// What the whole ingest yields on a decoded record sequence: the
/// assembled result, or the first failure.
pub open spec fn trace_spec(entries: Seq<RawEntry>) -> Result<FileModel, ErrKind> {
    match ingest_fold(entries) {
        Result::Err(k) => Result::Err(k),
        Result::Ok(m) => file_of(m),
    }
}

/// Once the fold has failed on a prefix, it fails on the whole sequence
/// with the same failure.
pub proof fn lemma_ingest_fold_error(entries: Seq<RawEntry>, j: int)
    requires
        0 <= j <= entries.len(),
        ingest_fold(entries.take(j)) is Err,
    ensures
        ingest_fold(entries) == ingest_fold(entries.take(j)),
    decreases entries.len() - j,
{
    if j < entries.len() {
        assert(entries.take(j + 1).drop_last() =~= entries.take(j));
        lemma_ingest_fold_error(entries, j + 1);
    } else {
        assert(entries.take(j) =~= entries);
    }
}

/// Resolving a name never raises an existing occurrence count.
proof fn lemma_resolve_counts(
    types: Seq<crate::loader::TypeModel>,
    name: Seq<char>,
    class: TraceEventClass,
    b: nat,
)
    requires
        forall|t: int| 0 <= t < types.len() ==> #[trigger] types[t].count <= b,
        resolve_spec(types, name, class) is Ok,
    ensures
        forall|t: int|
            0 <= t < resolve_spec(types, name, class)->Ok_0.0.len()
                ==> #[trigger] resolve_spec(types, name, class)->Ok_0.0[t].count <= b,
{
}

/// One marker raises each occurrence count by at most one.
proof fn lemma_marker_counts(
    m: LoaderModel,
    rec: EventRecord,
    tid: u64,
    name: Seq<char>,
    class: TraceEventClass,
    finished: bool,
    b: nat,
)
    requires
        forall|t: int| 0 <= t < m.types.len() ==> #[trigger] m.types[t].count <= b,
        marker_step(m, rec, tid, name, class, finished) is Ok,
    ensures
        forall|t: int|
            0 <= t < marker_step(m, rec, tid, name, class, finished)->Ok_0.types.len()
                ==> #[trigger] marker_step(m, rec, tid, name, class, finished)->Ok_0.types[t].count
                <= b + 1,
{
    let pair = resolve_spec(m.types, name, class)->Ok_0;
    lemma_resolve_counts(m.types, name, class, b);
    let ev = make_event_spec(rec, pair.1 as usize, finished)->Ok_0;
    let mm = LoaderModel { threads: m.threads, types: pair.0 };
    let m2 = add_event_spec(mm, tid, ev);
    assert(marker_step(m, rec, tid, name, class, finished)->Ok_0 == m2);
    assert forall|t: int| 0 <= t < m2.types.len() implies #[trigger] m2.types[t].count <= b
        + 1 by {
        if counted(pair.0[ev.event_type as int].class, ev.finished) {
            assert(m2.types == bump_count(pair.0, ev.event_type as int));
            if t != ev.event_type as int {
                assert(m2.types[t] == pair.0[t]);
            }
        } else {
            assert(m2.types == pair.0);
        }
    }
}

/// One async marker raises each occurrence count by at most one.
proof fn lemma_async_counts(
    m: LoaderModel,
    rec: EventRecord,
    name: Seq<char>,
    finished: bool,
    b: nat,
)
    requires
        forall|t: int| 0 <= t < m.types.len() ==> #[trigger] m.types[t].count <= b,
        async_marker_step(m, rec, name, finished) is Ok,
    ensures
        forall|t: int|
            0 <= t < async_marker_step(m, rec, name, finished)->Ok_0.types.len()
                ==> #[trigger] async_marker_step(m, rec, name, finished)->Ok_0.types[t].count <= b
                + 1,
{
    let pair = resolve_spec(m.types, name, TraceEventClass::Async)->Ok_0;
    lemma_resolve_counts(m.types, name, TraceEventClass::Async, b);
    let m2 = async_step(LoaderModel { threads: m.threads, types: pair.0 }, pair.1);
    assert(async_marker_step(m, rec, name, finished)->Ok_0 == m2);
    assert forall|t: int| 0 <= t < m2.types.len() implies #[trigger] m2.types[t].count <= b
        + 1 by {
        assert(m2.types == bump_count(pair.0, pair.1));
        if t != pair.1 {
            assert(m2.types[t] == pair.0[t]);
        }
    }
}

/// One record raises each occurrence count by at most one.
proof fn lemma_step_counts(m: LoaderModel, e: RawEntry, b: nat)
    requires
        forall|t: int| 0 <= t < m.types.len() ==> #[trigger] m.types[t].count <= b,
        record_step(m, e) is Ok,
    ensures
        forall|t: int|
            0 <= t < record_step(m, e)->Ok_0.types.len() ==> #[trigger] record_step(
                m,
                e,
            )->Ok_0.types[t].count <= b + 1,
{
    match e {
        RawEntry::NonObject => {},
        RawEntry::Object(rec) => {
            if get_u64_spec(rec, "tid"@) is Ok && get_str_spec(rec, "ph"@) is Ok && get_str_spec(
                rec,
                "name"@,
            ) is Ok {
                let tid = get_u64_spec(rec, "tid"@)->Ok_0;
                let ph = get_str_spec(rec, "ph"@)->Ok_0;
                let name = get_str_spec(rec, "name"@)->Ok_0;
                if ph == "B"@ {
                    lemma_marker_counts(m, rec, tid, name, TraceEventClass::BeginEnd, false, b);
                } else if ph == "E"@ {
                    lemma_marker_counts(m, rec, tid, name, TraceEventClass::BeginEnd, true, b);
                } else if ph == "S"@ {
                    lemma_async_counts(m, rec, name, false, b);
                } else if ph == "F"@ {
                    lemma_async_counts(m, rec, name, true, b);
                } else if ph == "X"@ {
                    lemma_marker_counts(m, rec, tid, name, TraceEventClass::Standalone, true, b);
                } else {
                }
            }
        },
    }
}

/// Every occurrence count after a fold is bounded by the number of
/// records consumed.
pub proof fn lemma_fold_counts(entries: Seq<RawEntry>)
    requires
        ingest_fold(entries) is Ok,
    ensures
        forall|t: int|
            0 <= t < ingest_fold(entries)->Ok_0.types.len() ==> #[trigger] ingest_fold(
                entries,
            )->Ok_0.types[t].count <= entries.len(),
    decreases entries.len(),
{
    if entries.len() != 0 {
        lemma_fold_counts(entries.drop_last());
        lemma_step_counts(
            ingest_fold(entries.drop_last())->Ok_0,
            entries.last(),
            (entries.len() - 1) as nat,
        );
    }
}

/// Process one begin, end or standalone marker.
fn process_marker(
    loader: &mut TraceLoader,
    rec: &EventRecord,
    tid: u64,
    name: &String,
    class: TraceEventClass,
    finished: bool,
) -> (r: Result<(), TraceError>)
    requires
        old(loader).wf(),
        forall|t: int|
            0 <= t < old(loader)@.types.len() ==> #[trigger] old(loader)@.types[t].count
                < u64::MAX,
    ensures
        final(loader).wf(),
        match marker_step(old(loader)@, *rec, tid, name@, class, finished) {
            Result::Ok(m2) => r is Ok && final(loader)@ == m2,
            Result::Err(k) => r is Err && r->Err_0.spec_message() == message_of(k),
        },
{
    let ghost m0 = loader@;
    let ti = match loader.get_event_type(name.as_str(), class) {
        Ok(v) => v,
        Err(e) => {
            return Err(e);
        },
    };
    proof {
        let pair = resolve_spec(m0.types, name@, class)->Ok_0;
        assert(loader@.types == pair.0);
        assert(ti as int == pair.1);
        assert(ti == pair.1 as usize);
    }
    let ev = match make_trace_event(rec, ti, finished) {
        Ok(v) => v,
        Err(e) => {
            return Err(e);
        },
    };
    proof {
        let pair = resolve_spec(m0.types, name@, class)->Ok_0;
        assert forall|t: int| 0 <= t < pair.0.len() implies #[trigger] pair.0[t].count
            < u64::MAX by {
            if t < m0.types.len() {
                assert(pair.0[t] == m0.types[t]);
            }
        }
        assert(ev.event_type == ti);
        assert(loader@.types[ev.event_type as int].count < u64::MAX);
    }
    match loader.add_event(tid, ev) {
        Ok(u) => Ok(u),
        Err(e) => Err(e),
    }
}

/// Process one async start or finish marker: its identifier is required,
/// its name resolved and counted; pairing is unimplemented, so nothing is
/// stored.
fn process_async(
    loader: &mut TraceLoader,
    rec: &EventRecord,
    tid: u64,
    name: &String,
    finished: bool,
) -> (r: Result<(), TraceError>)
    requires
        old(loader).wf(),
        forall|t: int|
            0 <= t < old(loader)@.types.len() ==> #[trigger] old(loader)@.types[t].count
                < u64::MAX,
    ensures
        final(loader).wf(),
        match async_marker_step(old(loader)@, *rec, name@, finished) {
            Result::Ok(m2) => r is Ok && final(loader)@ == m2,
            Result::Err(k) => r is Err && r->Err_0.spec_message() == message_of(k),
        },
{
    let ghost m0 = loader@;
    let id = match get_str(rec, "id") {
        Ok(v) => v,
        Err(e) => {
            return Err(e);
        },
    };
    let ti = match loader.get_event_type(name.as_str(), TraceEventClass::Async) {
        Ok(v) => v,
        Err(e) => {
            return Err(e);
        },
    };
    proof {
        let pair = resolve_spec(m0.types, name@, TraceEventClass::Async)->Ok_0;
        assert(loader@.types == pair.0);
        assert(ti as int == pair.1);
        assert(ti == pair.1 as usize);
        assert(pair.0[pair.1].class == TraceEventClass::Async);
    }
    let ev = match make_trace_event(rec, ti, finished) {
        Ok(v) => v,
        Err(e) => {
            return Err(e);
        },
    };
    match loader.add_async_event(tid, TraceEventClass::Async, name.as_str(), id.as_str(), ev) {
        Ok(_u) => {},
        Err(e) => {
            return Err(e);
        },
    };
    proof {
        let pair = resolve_spec(m0.types, name@, TraceEventClass::Async)->Ok_0;
        assert forall|t: int| 0 <= t < pair.0.len() implies #[trigger] pair.0[t].count
            < u64::MAX by {
            if t < m0.types.len() {
                assert(pair.0[t] == m0.types[t]);
            }
        }
        assert(loader@.types[ti as int].count < u64::MAX);
        assert(counted(loader@.types[ti as int].class, finished));
    }
    loader.record_occurrence(ti, finished);
    proof {
        let pair = resolve_spec(m0.types, name@, TraceEventClass::Async)->Ok_0;
        let m2 = async_marker_step(m0, *rec, name@, finished)->Ok_0;
        assert(m2 == async_step(LoaderModel { threads: m0.threads, types: pair.0 }, pair.1));
        assert(loader@ == m2);
    }
    Ok(())
}

/// Process one decoded record: require it to be an object, read its
/// thread id, phase code and event name in that order, and dispatch by
/// phase; unknown phase codes are silently ignored.
fn process_record(loader: &mut TraceLoader, entry: &RawEntry) -> (r: Result<(), TraceError>)
    requires
        old(loader).wf(),
        forall|t: int|
            0 <= t < old(loader)@.types.len() ==> #[trigger] old(loader)@.types[t].count
                < u64::MAX,
    ensures
        final(loader).wf(),
        match record_step(old(loader)@, *entry) {
            Result::Ok(m2) => r is Ok && final(loader)@ == m2,
            Result::Err(k) => r is Err && r->Err_0.spec_message() == message_of(k),
        },
{
    match entry {
        RawEntry::NonObject => Err(TraceError::new("non-object event")),
        RawEntry::Object(rec) => {
            let tid = match get_u64(rec, "tid") {
                Ok(v) => v,
                Err(e) => {
                    return Err(e);
                },
            };
            let phase = match get_str(rec, "ph") {
                Ok(v) => v,
                Err(e) => {
                    return Err(e);
                },
            };
            let name = match get_str(rec, "name") {
                Ok(v) => v,
                Err(e) => {
                    return Err(e);
                },
            };
            if phase == "B".to_owned() {
                process_marker(loader, rec, tid, &name, TraceEventClass::BeginEnd, false)
            } else if phase == "E".to_owned() {
                process_marker(loader, rec, tid, &name, TraceEventClass::BeginEnd, true)
            } else if phase == "S".to_owned() {
                process_async(loader, rec, tid, &name, false)
            } else if phase == "F".to_owned() {
                process_async(loader, rec, tid, &name, true)
            } else if phase == "X".to_owned() {
                process_marker(loader, rec, tid, &name, TraceEventClass::Standalone, true)
            } else {
                Ok(())
            }
        },
    }
}

/// Consume a decoded record sequence in one pass and assemble the result.
///
/// The pass fails fast: registry and accumulator changes are applied per
/// record as it is processed, and the first failure aborts the whole
/// ingest with that failure's message.
pub fn load_records(entries: Vec<RawEntry>) -> (r: Result<TraceFile, TraceError>)
    ensures
        match trace_spec(entries@) {
            Result::Ok(fm) => r is Ok && file_view(r->Ok_0) == fm && r->Ok_0.async_events@
                =~= Seq::<crate::trace_types::TraceEvent>::empty(),
            Result::Err(k) => r is Err && r->Err_0.spec_message() == message_of(k),
        },
{
    let mut loader = TraceLoader::new();
    let n = entries.len();
    let mut i: usize = 0;
    proof {
        assert(entries@.take(0) =~= Seq::<RawEntry>::empty());
    }
    while i < n
        invariant
            n == entries@.len(),
            0 <= i <= n,
            loader.wf(),
            ingest_fold(entries@.take(i as int)) == Result::<LoaderModel, ErrKind>::Ok(loader@),
        decreases n - i,
    {
        proof {
            lemma_fold_counts(entries@.take(i as int));
            assert(entries@.take(i as int).len() == i);
            assert(usize::MAX <= u64::MAX);
            assert forall|t: int| 0 <= t < loader@.types.len() implies #[trigger] loader@.types[t].count
                < u64::MAX by {
                assert(loader@.types[t].count <= i);
            }
        }
        let entry = &entries[i];
        let ghost pre = loader@;
        proof {
            assert(entries@.take(i as int + 1).drop_last() =~= entries@.take(i as int));
            assert(entries@.take(i as int + 1).last() == entries@[i as int]);
        }
        match process_record(&mut loader, entry) {
            Ok(_u) => {},
            Err(e) => {
                proof {
                    assert(ingest_fold(entries@.take(i as int + 1)) == record_step(
                        pre,
                        entries@[i as int],
                    ));
                    lemma_ingest_fold_error(entries@, i as int + 1);
                }
                return Err(e);
            },
        }
        i = i + 1;
    }
    proof {
        assert(entries@.take(n as int) =~= entries@);
    }
    loader.trace_file()
}

} // verus!
