//! The trace loader: per-thread accumulation, the event-type registry with
//! class-consistency enforcement and occurrence counts, and final assembly
//! of the per-thread results.

use vstd::prelude::*;

use crate::depth::{classes_of, depth_pass_spec, set_depth};
use crate::record::{get_str_spec, get_u64_spec, make_event_spec, EventRecord, RawEntry};
use crate::text::{dec_str, u64_to_string};
use crate::trace_types::{message_of, ErrKind, TraceError, TraceEvent, TraceEventClass,
    TraceEventType, TraceFile, TraceThread};

verus! {

/// The model of one registry descriptor: an event name, its class, and
/// its occurrence count.
#[verifier::ext_equal]
pub struct TypeModel {
    pub name: Seq<char>,
    pub class: TraceEventClass,
    pub count: nat,
}

/// The model of one thread's accumulator: its id, the intervals seen so
/// far in arrival order, and the stack of indices of open begin markers.
#[verifier::ext_equal]
pub struct ThreadModel {
    pub tid: u64,
    pub events: Seq<TraceEvent>,
    pub open: Seq<int>,
}

/// The model of the whole loader state.
#[verifier::ext_equal]
pub struct LoaderModel {
    pub threads: Seq<ThreadModel>,
    pub types: Seq<TypeModel>,
}

/// The model of one finalized thread.
#[verifier::ext_equal]
pub struct ThreadOut {
    pub name: Seq<char>,
    pub events: Seq<TraceEvent>,
}

/// The model of the assembled result.
#[verifier::ext_equal]
pub struct FileModel {
    pub threads: Seq<ThreadOut>,
    pub types: Seq<TypeModel>,
}

/// Whether the registry holds a descriptor with this name.
pub open spec fn has_type(types: Seq<TypeModel>, name: Seq<char>) -> bool {
    exists|i: int| 0 <= i < types.len() && types[i].name == name
}

/// The index of the descriptor with this name.
pub open spec fn type_index(types: Seq<TypeModel>, name: Seq<char>) -> int {
    choose|i: int| 0 <= i < types.len() && types[i].name == name
}

/// Registry names are distinct.
pub open spec fn types_wf(types: Seq<TypeModel>) -> bool {
    forall|i: int, j: int| 0 <= i < j < types.len() ==> types[i].name != types[j].name
}

/// Whether a loader already has an accumulator for this thread id.
pub open spec fn has_thread(threads: Seq<ThreadModel>, tid: u64) -> bool {
    exists|i: int| 0 <= i < threads.len() && threads[i].tid == tid
}

/// The index of the accumulator for this thread id.
pub open spec fn thread_index(threads: Seq<ThreadModel>, tid: u64) -> int {
    choose|i: int| 0 <= i < threads.len() && threads[i].tid == tid
}

/// Thread ids are distinct.
pub open spec fn threads_wf(threads: Seq<ThreadModel>) -> bool {
    forall|i: int, j: int| 0 <= i < j < threads.len() ==> threads[i].tid != threads[j].tid
}

/// Every interval's descriptor index stays within the registry, and keys
/// are distinct.
pub open spec fn model_wf(m: LoaderModel) -> bool {
    &&& types_wf(m.types)
    &&& threads_wf(m.threads)
    &&& forall|i: int, k: int|
        0 <= i < m.threads.len() && 0 <= k < m.threads[i].events.len()
            ==> #[trigger] m.threads[i].events[k].event_type < m.types.len()
}

/// What resolving a name against the registry yields: the updated
/// registry and the descriptor's index, or the class-mismatch failure.
///
/// An unseen name creates a descriptor with the requested class and a
/// count of zero; a known name resolves only under its established class.
pub open spec fn resolve_spec(
    types: Seq<TypeModel>,
    name: Seq<char>,
    class: TraceEventClass,
) -> Result<(Seq<TypeModel>, int), ErrKind> {
    if has_type(types, name) {
        let i = type_index(types, name);
        if types[i].class == class {
            Result::Ok((types, i))
        } else {
            Result::Err(ErrKind::ClassMismatch { name, requested: class, stored: types[i].class })
        }
    } else {
        Result::Ok((types.push(TypeModel { name, class, count: 0 }), types.len() as int))
    }
}

/// Whether a marker of this class and closing state is counted: a
/// begin/end pair is counted once, on its closing marker; standalone and
/// async markers always count.
pub open spec fn counted(class: TraceEventClass, finished: bool) -> bool {
    !(class is BeginEnd && !finished)
}

/// The registry with one descriptor's count incremented.
pub open spec fn bump_count(types: Seq<TypeModel>, i: int) -> Seq<TypeModel> {
    types.update(i, TypeModel { count: (types[i].count + 1) as nat, ..types[i] })
}

/// What routing one marker to its thread's accumulator yields: the count
/// recorded when the marker is counted, the accumulator created on first
/// reference, the interval appended, and a begin marker's index pushed
/// onto the accumulator's open-stack.
pub open spec fn add_event_spec(m: LoaderModel, tid: u64, ev: TraceEvent) -> LoaderModel {
    let class = m.types[ev.event_type as int].class;
    let types2 = if counted(class, ev.finished) {
        bump_count(m.types, ev.event_type as int)
    } else {
        m.types
    };
    let ti = if has_thread(m.threads, tid) {
        thread_index(m.threads, tid)
    } else {
        m.threads.len() as int
    };
    let threads1 = if has_thread(m.threads, tid) {
        m.threads
    } else {
        m.threads.push(ThreadModel { tid, events: Seq::empty(), open: Seq::empty() })
    };
    let t = threads1[ti];
    let open2 = if class is BeginEnd && !ev.finished {
        t.open.push(t.events.len() as int)
    } else {
        t.open
    };
    LoaderModel {
        threads: threads1.update(ti, ThreadModel { tid: t.tid, events: t.events.push(ev), open: open2 }),
        types: types2,
    }
}

/// What recording an async marker yields: its occurrence is counted, but
/// nothing is paired or stored.
pub open spec fn async_step(m: LoaderModel, ti: int) -> LoaderModel {
    LoaderModel { threads: m.threads, types: bump_count(m.types, ti) }
}

/// Per-thread accumulator: the raw intervals seen for one thread in
/// arrival order, a scratch stack of indices of still-open begin markers,
/// and the thread being built.
#[derive(Debug)]
pub struct ThreadLoader {
    pub open_events: Vec<usize>,
    pub events: Vec<TraceEvent>,
    pub thread: TraceThread,
}

impl ThreadLoader {
    /// A fresh accumulator for a thread with the given display name.
    pub fn new(name: String) -> (r: ThreadLoader)
        ensures
            r.open_events@ == Seq::<usize>::empty(),
            r.events@ == Seq::<TraceEvent>::empty(),
            r.thread.name == name,
            r.thread.events@ == Seq::<TraceEvent>::empty(),
    {
        ThreadLoader { open_events: Vec::new(), events: Vec::new(), thread: TraceThread::new(name) }
    }

    /// Append one raw interval in arrival order.
    pub fn add_event(&mut self, event: TraceEvent)
        ensures
            final(self).events@ == old(self).events@.push(event),
            final(self).open_events == old(self).open_events,
            final(self).thread == old(self).thread,
    {
        self.events.push(event);
    }

    /// Finalize this accumulator into a thread: run the depth-assignment
    /// pass over everything accumulated.
    pub fn get_thread(self, types: &Vec<TraceEventType>) -> (r: Result<TraceThread, TraceError>)
        requires
            forall|k: int|
                0 <= k < self.events@.len() ==> #[trigger] self.events@[k].event_type
                    < types@.len(),
        ensures
            match depth_pass_spec(self.events@, classes_of(types@)) {
                Result::Ok(out) => r is Ok && r->Ok_0.name == self.thread.name && r->Ok_0.events@
                    == out,
                Result::Err(k) => r is Err && r->Err_0.spec_message() == message_of(k),
            },
    {
        let mut thread = self.thread;
        match set_depth(self.events, types) {
            Ok(evs) => {
                thread.events = evs;
                Ok(thread)
            },
            Err(e) => Err(e),
        }
    }
}

/// Top-level reducer state: one accumulator per thread id, a stub
/// accumulator for async markers, and the event-type registry.
pub struct TraceLoader {
    pub thread_ids: Vec<u64>,
    pub threads: Vec<ThreadLoader>,
    pub async_thread_loader: ThreadLoader,
    pub event_types: Vec<TraceEventType>,
}

impl View for TraceLoader {
    type V = LoaderModel;

    open spec fn view(&self) -> LoaderModel {
        LoaderModel {
            threads: Seq::new(
                self.threads@.len(),
                |i: int|
                    ThreadModel {
                        tid: self.thread_ids@[i],
                        events: self.threads@[i].events@,
                        open: self.threads@[i].open_events@.map_values(|u: usize| u as int),
                    },
            ),
            types: self.event_types@.map_values(
                |t: TraceEventType|
                    TypeModel { name: t.name@, class: t.class, count: t.count as nat },
            ),
        }
    }
}

impl TraceLoader {
    /// The loader's representation invariant: ids and accumulators are
    /// kept in step, names and ids are unique, every interval's
    /// descriptor index stays within the registry, and each accumulator's
    /// display name is its thread id rendered in decimal.
    pub open spec fn wf(&self) -> bool {
        &&& self.thread_ids@.len() == self.threads@.len()
        &&& model_wf(self@)
        &&& forall|i: int|
            0 <= i < self.threads@.len() ==> #[trigger] self.threads@[i].thread.name@ == dec_str(
                self.thread_ids@[i] as nat,
            )
    }

    /// A fresh loader with no threads, an empty registry, and an empty
    /// stub accumulator for async markers named `__async__`. The
    /// registry's state is scoped to this loader — one ingest — and is
    /// shared with nothing else.
    pub fn new() -> (r: TraceLoader)
        ensures
            r.wf(),
            r@ == ingest_init(),
            r.async_thread_loader.thread.name@ == "__async__"@,
            r.async_thread_loader.thread.events@ == Seq::<TraceEvent>::empty(),
            r.async_thread_loader.events@ == Seq::<TraceEvent>::empty(),
            r.async_thread_loader.open_events@ == Seq::<usize>::empty(),
    {
        let r = TraceLoader {
            thread_ids: Vec::new(),
            threads: Vec::new(),
            async_thread_loader: ThreadLoader::new("__async__".to_owned()),
            event_types: Vec::new(),
        };
        proof {
            assert(r@.threads =~= ingest_init().threads);
            assert(r@.types =~= ingest_init().types);
        }
        r
    }

    /// Resolve an event name to its registry descriptor under the class
    /// implied by the record's phase.
    ///
    /// An unseen name registers a fresh descriptor with the requested
    /// class; a known name resolves only if its established class equals
    /// the requested one, and otherwise fails with the class-mismatch
    /// error — class identity per name is an invariant of the whole
    /// trace.
    pub fn get_event_type(&mut self, event_name: &str, event_class: TraceEventClass) -> (r: Result<
        usize,
        TraceError,
    >)
        requires
            old(self).wf(),
        ensures
            final(self).wf(),
            final(self).thread_ids == old(self).thread_ids,
            final(self).threads == old(self).threads,
            match resolve_spec(old(self)@.types, event_name@, event_class) {
                Result::Ok(pair) => r is Ok && r->Ok_0 as int == pair.1 && r->Ok_0
                    < final(self).event_types@.len() && final(self)@ == (LoaderModel {
                    threads: old(self)@.threads,
                    types: pair.0,
                }),
                Result::Err(k) => r is Err && r->Err_0.spec_message() == message_of(k)
                    && final(self)@ == old(self)@,
            },
    {
        let ghost types0 = self@.types;
        let name_owned: String = event_name.to_owned();
        let mut i: usize = 0;
        while i < self.event_types.len()
            invariant
                *self == *old(self),
                old(self).wf(),
                0 <= i <= self.event_types@.len(),
                name_owned@ == event_name@,
                types0 == self@.types,
                forall|j: int| 0 <= j < i ==> #[trigger] types0[j].name != event_name@,
            decreases self.event_types@.len() - i,
        {
            if self.event_types[i].name == name_owned {
                proof {
                    assert(types0[i as int].name == event_name@);
                    assert(has_type(types0, event_name@));
                    assert(types_wf(types0));
                    let j = type_index(types0, event_name@);
                    if j != i as int {
                        assert(types0[j].name == types0[i as int].name);
                        assert(false);
                    }
                }
                if self.event_types[i].class == event_class {
                    return Ok(i);
                } else {
                    return Err(
                        TraceError::class_mismatch(
                            event_name,
                            event_class,
                            self.event_types[i].class,
                        ),
                    );
                }
            }
            i = i + 1;
        }
        proof {
            assert(!has_type(types0, event_name@));
        }
        let idx = self.event_types.len();
        self.event_types.push(TraceEventType::new(event_class, name_owned));
        proof {
            assert(self@.types =~= types0.push(
                TypeModel { name: event_name@, class: event_class, count: 0 },
            ));
            assert(self@.threads =~= old(self)@.threads);
            assert(types_wf(self@.types));
        }
        Ok(idx)
    }
}

/// The model of an empty loader.
pub open spec fn ingest_init() -> LoaderModel {
    LoaderModel { threads: Seq::empty(), types: Seq::empty() }
}

impl TraceLoader {
    /// Find the accumulator for a thread id; its position, or the number
    /// of accumulators when there is none.
    fn find_thread(&self, tid: u64) -> (r: usize)
        requires
            self.wf(),
        ensures
            has_thread(self@.threads, tid) ==> r as int == thread_index(self@.threads, tid) && r
                < self.threads@.len(),
            !has_thread(self@.threads, tid) ==> r == self.threads@.len(),
    {
        let mut i: usize = 0;
        while i < self.thread_ids.len()
            invariant
                self.wf(),
                0 <= i <= self.thread_ids@.len(),
                forall|j: int| 0 <= j < i ==> #[trigger] self@.threads[j].tid != tid,
            decreases self.thread_ids@.len() - i,
        {
            if self.thread_ids[i] == tid {
                proof {
                    assert(self@.threads[i as int].tid == tid);
                    assert(has_thread(self@.threads, tid));
                    let j = thread_index(self@.threads, tid);
                    if j != i as int {
                        assert(self@.threads[j].tid == self@.threads[i as int].tid);
                        assert(false);
                    }
                }
                return i;
            }
            i = i + 1;
        }
        proof {
            assert(!has_thread(self@.threads, tid));
        }
        i
    }

    /// Record one occurrence against a registry descriptor: the counter
    /// is incremented unless the marker is a non-closing begin/end
    /// marker — a begin/end pair is counted exactly once, on its closing
    /// marker, while standalone and async markers always count.
    pub fn record_occurrence(&mut self, type_index: usize, is_closing: bool)
        requires
            old(self).wf(),
            type_index < old(self).event_types@.len(),
            old(self)@.types[type_index as int].count < u64::MAX,
        ensures
            final(self).wf(),
            final(self).thread_ids == old(self).thread_ids,
            final(self).threads == old(self).threads,
            final(self).event_types@.len() == old(self).event_types@.len(),
            final(self)@ == if counted(old(self)@.types[type_index as int].class, is_closing) {
                LoaderModel {
                    threads: old(self)@.threads,
                    types: bump_count(old(self)@.types, type_index as int),
                }
            } else {
                old(self)@
            },
    {
        let class = self.event_types[type_index].class;
        if !(class == TraceEventClass::BeginEnd && !is_closing) {
            let name2 = self.event_types[type_index].name.clone();
            let c = self.event_types[type_index].count;
            self.event_types[type_index] = TraceEventType { name: name2, class, count: c + 1 };
            proof {
                assert(self@.types =~~= bump_count(old(self)@.types, type_index as int));
                assert(self@.threads =~~= old(self)@.threads);
                assert(self@ =~~= LoaderModel {
                    threads: old(self)@.threads,
                    types: bump_count(old(self)@.types, type_index as int),
                });
            }
        } else {
            proof {
                assert(self@ =~~= old(self)@);
            }
        }
    }

    /// Route one marker: record its occurrence, then append it to its
    /// thread's accumulator, creating the accumulator on first reference
    /// (named by the thread id rendered in decimal) and pushing a begin
    /// marker's index onto the accumulator's open-stack.
    pub fn add_event(&mut self, tid: u64, event: TraceEvent) -> (r: Result<(), TraceError>)
        requires
            old(self).wf(),
            event.event_type < old(self).event_types@.len(),
            old(self)@.types[event.event_type as int].count < u64::MAX,
        ensures
            final(self).wf(),
            r is Ok,
            final(self).event_types@.len() == old(self).event_types@.len(),
            final(self)@ == add_event_spec(old(self)@, tid, event),
    {
        let ghost m0 = self@;
        let class = self.event_types[event.event_type].class;
        self.record_occurrence(event.event_type, event.finished);
        let ti = self.find_thread(tid);
        let is_begin = class == TraceEventClass::BeginEnd && !event.finished;
        if ti == self.threads.len() {
            self.thread_ids.push(tid);
            self.threads.push(ThreadLoader::new(u64_to_string(tid)));
        }
        let mut tl = self.threads.remove(ti);
        let ghost tid_seq = self.thread_ids@;
        let pos = tl.events.len();
        tl.add_event(event);
        if is_begin {
            tl.open_events.push(pos);
        }
        self.threads.insert(ti, tl);
        proof {
            let spec_m = add_event_spec(m0, tid, event);
            assert(self.thread_ids@ == tid_seq);
            if has_thread(m0.threads, tid) {
                assert(self@.threads =~~= spec_m.threads);
            } else {
                assert(ti as int == m0.threads.len());
                assert(self@.threads =~~= spec_m.threads);
            }
            assert(self@.types =~~= spec_m.types);
            assert(self@ =~~= spec_m);
        }
        Ok(())
    }

    /// Accept one async marker. Async pairing is unimplemented: the
    /// marker is dropped, nothing is stored, and the async output
    /// collection stays empty; the caller records the occurrence
    /// separately.
    #[allow(unused_variables)]
    pub fn add_async_event(
        &mut self,
        tid: u64,
        event_class: TraceEventClass,
        event_name: &str,
        id: &str,
        event: TraceEvent,
    ) -> (r: Result<(), TraceError>)
        ensures
            r is Ok,
            *final(self) == *old(self),
    {
        Ok(())
    }
}

/// The classes of the registry's descriptors, in registry order.
pub open spec fn model_classes(types: Seq<TypeModel>) -> Seq<TraceEventClass> {
    types.map_values(|t: TypeModel| t.class)
}

/// What finalizing the accumulators yields: each thread's raw list run
/// through the depth pass, in accumulator order, stopping at the first
/// failure.
pub open spec fn threads_out(threads: Seq<ThreadModel>, classes: Seq<TraceEventClass>) -> Result<
    Seq<ThreadOut>,
    ErrKind,
>
    decreases threads.len(),
{
    if threads.len() == 0 {
        Result::Ok(Seq::empty())
    } else {
        match threads_out(threads.drop_last(), classes) {
            Result::Err(k) => Result::Err(k),
            Result::Ok(s) => match depth_pass_spec(threads.last().events, classes) {
                Result::Err(k) => Result::Err(k),
                Result::Ok(out) => Result::Ok(
                    s.push(ThreadOut { name: dec_str(threads.last().tid as nat), events: out }),
                ),
            },
        }
    }
}

/// What assembling the final result from a loader state yields.
pub open spec fn file_of(m: LoaderModel) -> Result<FileModel, ErrKind> {
    match threads_out(m.threads, model_classes(m.types)) {
        Result::Err(k) => Result::Err(k),
        Result::Ok(ts) => Result::Ok(FileModel { threads: ts, types: m.types }),
    }
}

/// The model of an assembled result value.
pub open spec fn file_view(f: TraceFile) -> FileModel {
    FileModel {
        threads: f.threads@.map_values(
            |t: TraceThread| ThreadOut { name: t.name@, events: t.events@ },
        ),
        types: f.event_types@.map_values(
            |t: TraceEventType| TypeModel { name: t.name@, class: t.class, count: t.count as nat },
        ),
    }
}

/// Once finalizing has failed on a prefix of the accumulators, it fails
/// on all of them with the same failure.
pub proof fn lemma_threads_out_error(
    threads: Seq<ThreadModel>,
    classes: Seq<TraceEventClass>,
    j: int,
)
    requires
        0 <= j <= threads.len(),
        threads_out(threads.take(j), classes) is Err,
    ensures
        threads_out(threads, classes) == threads_out(threads.take(j), classes),
    decreases threads.len() - j,
{
    if j < threads.len() {
        assert(threads.take(j + 1).drop_last() =~= threads.take(j));
        lemma_threads_out_error(threads, classes, j + 1);
    } else {
        assert(threads.take(j) =~= threads);
    }
}

impl TraceLoader {
    /// Assemble the final result: run the depth pass independently over
    /// each thread's accumulator, in accumulator order, and return the
    /// finalized threads, the (always empty) async collection, and the
    /// registry. Fails with the first depth-pass failure.
    pub fn trace_file(self) -> (r: Result<TraceFile, TraceError>)
        requires
            self.wf(),
        ensures
            match file_of(self@) {
                Result::Ok(fm) => r is Ok && file_view(r->Ok_0) == fm && r->Ok_0.async_events@
                    =~= Seq::<TraceEvent>::empty(),
                Result::Err(k) => r is Err && r->Err_0.spec_message() == message_of(k),
            },
    {
        let ghost m = self@;
        let ghost classes = model_classes(m.types);
        let types = self.event_types;
        let mut loaders = self.threads;
        let ghost ls0 = loaders@;
        let mut threads: Vec<TraceThread> = Vec::new();
        let n = loaders.len();
        let mut k: usize = 0;
        proof {
            assert(classes_of(types@) =~= classes);
            assert(m.threads.take(0) =~= Seq::<ThreadModel>::empty());
            assert(threads@.map_values(
                |t: TraceThread| ThreadOut { name: t.name@, events: t.events@ },
            ) =~= Seq::<ThreadOut>::empty());
        }
        while k < n
            invariant
                m == self@,
                0 <= k <= n,
                n == m.threads.len(),
                n == ls0.len(),
                classes == classes_of(types@),
                classes == model_classes(m.types),
                model_wf(m),
                loaders@ =~= ls0.skip(k as int),
                forall|i: int|
                    0 <= i < n ==> m.threads[i] == (ThreadModel {
                        tid: m.threads[i].tid,
                        events: #[trigger] ls0[i].events@,
                        open: ls0[i].open_events@.map_values(|u: usize| u as int),
                    }),
                forall|i: int|
                    0 <= i < n ==> #[trigger] ls0[i].thread.name@ == dec_str(m.threads[i].tid as nat),
                threads_out(m.threads.take(k as int), classes) == Result::<Seq<ThreadOut>, ErrKind>::Ok(
                    threads@.map_values(
                        |t: TraceThread| ThreadOut { name: t.name@, events: t.events@ },
                    ),
                ),
            decreases n - k,
        {
            let tl = loaders.remove(0);
            proof {
                assert(tl == ls0[k as int]);
                assert(m.threads[k as int].events == tl.events@);
                assert(classes.len() == classes_of(types@).len());
                assert(classes_of(types@).len() == types@.len());
                assert(classes.len() == model_classes(m.types).len());
                assert(model_classes(m.types).len() == m.types.len());
                assert(m.types.len() == types@.len());
                assert forall|j: int|
                    0 <= j < tl.events@.len() implies #[trigger] tl.events@[j].event_type
                    < types@.len() by {
                    assert(m.threads[k as int].events[j].event_type < m.types.len());
                }
                assert(loaders@ =~= ls0.skip(k as int + 1));
            }
            match tl.get_thread(&types) {
                Ok(t) => {
                    threads.push(t);
                    proof {
                        assert(m.threads.take(k as int + 1).drop_last() =~= m.threads.take(
                            k as int,
                        ));
                        assert(m.threads.take(k as int + 1).last() == m.threads[k as int]);
                        assert(m.threads[k as int].events == tl.events@);
                        assert(threads@.map_values(
                            |t: TraceThread| ThreadOut { name: t.name@, events: t.events@ },
                        ) =~~= threads_out(m.threads.take(k as int + 1), classes)->Ok_0);
                    }
                },
                Err(e) => {
                    proof {
                        assert(m.threads.take(k as int + 1).drop_last() =~= m.threads.take(
                            k as int,
                        ));
                        assert(m.threads.take(k as int + 1).last() == m.threads[k as int]);
                        let dres = depth_pass_spec(m.threads[k as int].events, classes);
                        assert(dres == depth_pass_spec(tl.events@, classes_of(types@)));
                        assert(dres is Err);
                        assert(threads_out(m.threads.take(k as int + 1), classes) == Result::<
                            Seq<ThreadOut>,
                            ErrKind,
                        >::Err(dres->Err_0));
                        lemma_threads_out_error(m.threads, classes, k as int + 1);
                        assert(file_of(m) == Result::<FileModel, ErrKind>::Err(dres->Err_0));
                    }
                    return Err(e);
                },
            }
            k = k + 1;
        }
        proof {
            assert(m.threads.take(n as int) =~= m.threads);
        }
        let file = TraceFile { threads, async_events: Vec::new(), event_types: types };
        proof {
            assert(file_view(file) =~~= file_of(m)->Ok_0);
            assert(file.async_events@ =~= Seq::<TraceEvent>::empty());
        }
        Ok(file)
    }
}

} // verus!
