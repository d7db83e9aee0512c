//! Laws of the loader, stated and proved over the specification model:
//! when the depth pass can fail, what a matched begin/end pair yields,
//! how standalone intervals are preserved, and what the empty input
//! yields.

use vstd::prelude::*;

use crate::depth::{class_of, depth_fold, depth_init, depth_pass_spec, sort_by_ts, sorted_by_ts,
    DepthState};
use crate::ingest::{async_marker_step, ingest_fold, marker_step, record_step, trace_spec};
use crate::loader::{add_event_spec, bump_count, counted, file_of, has_thread, has_type,
    model_classes, resolve_spec, thread_index, threads_out, threads_wf, type_index, types_wf,
    FileModel, LoaderModel, ThreadModel, ThreadOut, TypeModel};
use crate::record::{get_str_spec, get_u64_spec, make_event_spec, RawEntry};
use crate::trace_types::{ErrKind, TraceEvent, TraceEventClass};

verus! {

/// The number of begin markers (begin/end class, not yet closed) in a
/// raw interval list.
pub open spec fn count_begins(s: Seq<TraceEvent>, classes: Seq<TraceEventClass>) -> nat
    decreases s.len(),
{
    if s.len() == 0 {
        0
    } else {
        count_begins(s.drop_last(), classes) + (if class_of(classes, s.last()) is BeginEnd
            && !s.last().finished {
            1nat
        } else {
            0nat
        })
    }
}

/// The number of end markers (begin/end class, closed) in a raw interval
/// list.
pub open spec fn count_ends(s: Seq<TraceEvent>, classes: Seq<TraceEventClass>) -> nat
    decreases s.len(),
{
    if s.len() == 0 {
        0
    } else {
        count_ends(s.drop_last(), classes) + (if class_of(classes, s.last()) is BeginEnd
            && s.last().finished {
            1nat
        } else {
            0nat
        })
    }
}

/// The open stack balances begin markers against end markers: after any
/// successfully folded list, its size is their difference.
proof fn lemma_fold_balance(s: Seq<TraceEvent>, classes: Seq<TraceEventClass>)
    requires
        depth_fold(s, classes, depth_init()) is Ok,
    ensures
        depth_fold(s, classes, depth_init())->Ok_0.open.len() + count_ends(s, classes)
            == count_begins(s, classes),
    decreases s.len(),
{
    if s.len() != 0 {
        if depth_fold(s.drop_last(), classes, depth_init()) is Err {
            assert(depth_fold(s, classes, depth_init()) is Err);
        }
        lemma_fold_balance(s.drop_last(), classes);
    }
}

/// The condition under which the end marker at position `j` of the
/// time-sorted list finds no open begin marker: every earlier begin
/// marker has already been matched by an earlier end marker.
pub open spec fn underflow_at(s: Seq<TraceEvent>, classes: Seq<TraceEventClass>, j: int) -> bool {
    &&& class_of(classes, s[j]) is BeginEnd
    &&& s[j].finished
    &&& count_begins(s.take(j), classes) == count_ends(s.take(j), classes)
}

/// The depth pass fails exactly when some end marker of the list has no
/// prior unmatched begin marker, and the failure is always the stack
/// underflow.
pub proof fn lemma_underflow_iff(s: Seq<TraceEvent>, classes: Seq<TraceEventClass>)
    ensures
        depth_fold(s, classes, depth_init()) is Err <==> exists|j: int|
            0 <= j < s.len() && underflow_at(s, classes, j),
        depth_fold(s, classes, depth_init()) is Err ==> depth_fold(s, classes, depth_init())
            == Result::<DepthState, ErrKind>::Err(ErrKind::Underflow),
    decreases s.len(),
{
    if s.len() == 0 {
    } else {
        let pre = s.drop_last();
        lemma_underflow_iff(pre, classes);
        assert forall|j: int| 0 <= j < pre.len() implies (underflow_at(s, classes, j)
            <==> underflow_at(pre, classes, j)) by {
            assert(s.take(j) =~= pre.take(j));
            assert(s[j] == pre[j]);
        }
        if depth_fold(pre, classes, depth_init()) is Err {
            assert(depth_fold(s, classes, depth_init()) == depth_fold(pre, classes, depth_init()));
            let j = choose|j: int| 0 <= j < pre.len() && underflow_at(pre, classes, j);
            assert(underflow_at(s, classes, j));
        } else {
            let st = depth_fold(pre, classes, depth_init())->Ok_0;
            lemma_fold_balance(pre, classes);
            let e = s.last();
            if class_of(classes, e) is BeginEnd && e.finished && st.open.len() == 0 {
                assert(depth_fold(s, classes, depth_init()) == Result::<
                    DepthState,
                    ErrKind,
                >::Err(ErrKind::Underflow));
                assert(s.take(s.len() - 1) =~= pre);
                assert(underflow_at(s, classes, s.len() - 1));
            } else {
                assert(depth_fold(s, classes, depth_init()) is Ok);
                assert forall|j: int| 0 <= j < s.len() implies !underflow_at(s, classes, j) by {
                    if j < s.len() - 1 {
                        assert(!underflow_at(pre, classes, j));
                    } else {
                        assert(s.take(s.len() - 1) =~= pre);
                        if class_of(classes, e) is BeginEnd && e.finished {
                            assert(st.open.len() != 0);
                            assert(count_begins(pre, classes) != count_ends(pre, classes));
                        }
                    }
                }
            }
        }
    }
}

/// An end marker with no prior unmatched begin marker on its thread makes
/// the depth pass fail with the stack underflow, and the pass cannot fail
/// any other way. The condition is read over the time-sorted list.
pub proof fn lemma_stack_underflow(events: Seq<TraceEvent>, classes: Seq<TraceEventClass>)
    ensures
        depth_pass_spec(events, classes) is Err <==> exists|j: int|
            0 <= j < sort_by_ts(events).len() && underflow_at(sort_by_ts(events), classes, j),
        depth_pass_spec(events, classes) is Err ==> depth_pass_spec(events, classes) == Result::<
            Seq<TraceEvent>,
            ErrKind,
        >::Err(ErrKind::Underflow),
{
    lemma_underflow_iff(sort_by_ts(events), classes);
}

/// Empty input: no threads, no async intervals, no event types.
pub proof fn lemma_empty_ingest()
    ensures
        trace_spec(Seq::<RawEntry>::empty()) == Result::<FileModel, ErrKind>::Ok(
            FileModel { threads: Seq::empty(), types: Seq::empty() },
        ),
{
    assert(ingest_fold(Seq::<RawEntry>::empty()) is Ok);
    let m = ingest_fold(Seq::<RawEntry>::empty())->Ok_0;
    assert(m.threads.len() == 0);
    assert(file_of(m) == Result::<FileModel, ErrKind>::Ok(
        FileModel { threads: Seq::<ThreadOut>::empty(), types: m.types },
    ));
    assert(trace_spec(Seq::<RawEntry>::empty())->Ok_0 =~~= FileModel {
        threads: Seq::empty(),
        types: Seq::empty(),
    });
}

/// Invariants of the depth walk after any successfully folded prefix:
/// the output never outgrows the processed prefix; the open stack's
/// indices are strictly increasing positions of the output; every open
/// interval is a still-unclosed begin/end-class marker whose recorded
/// depth equals its stack position.
pub proof fn lemma_fold_walk(s: Seq<TraceEvent>, classes: Seq<TraceEventClass>, j: int)
    requires
        0 <= j <= s.len(),
        s.len() <= u64::MAX,
        depth_fold(s.take(j), classes, depth_init()) is Ok,
    ensures
        ({
            let st = depth_fold(s.take(j), classes, depth_init())->Ok_0;
            &&& st.out.len() <= j
            &&& st.open.len() <= st.out.len()
            &&& forall|k: int| 0 <= k < st.open.len() ==> 0 <= #[trigger] st.open[k] < st.out.len()
            &&& forall|k1: int, k2: int|
                0 <= k1 < k2 < st.open.len() ==> st.open[k1] < st.open[k2]
            &&& forall|k: int|
                0 <= k < st.open.len() ==> st.out[#[trigger] st.open[k]].depth == k
            &&& forall|k: int|
                0 <= k < st.open.len() ==> class_of(classes, st.out[#[trigger] st.open[k]]) is BeginEnd
                    && !st.out[st.open[k]].finished
        }),
    decreases j,
{
    if j > 0 {
        assert(s.take(j).drop_last() =~= s.take(j - 1));
        if depth_fold(s.take(j - 1), classes, depth_init()) is Err {
            assert(depth_fold(s.take(j), classes, depth_init()) is Err);
        }
        lemma_fold_walk(s, classes, j - 1);
        let st = depth_fold(s.take(j - 1), classes, depth_init())->Ok_0;
        let e = s[j - 1];
        assert(s.take(j).last() == e);
        let st2 = depth_fold(s.take(j), classes, depth_init())->Ok_0;
        match class_of(classes, e) {
            TraceEventClass::Standalone => {
                assert(st2.open == st.open);
                assert forall|k: int| 0 <= k < st2.open.len() implies st2.out[#[trigger] st2.open[k]]
                    == st.out[st.open[k]] by {}
            },
            TraceEventClass::BeginEnd => {
                if e.finished {
                    let p = st.open.last();
                    assert(st2.open == st.open.drop_last());
                    assert forall|k: int| 0 <= k < st2.open.len() implies st2.out[#[trigger] st2.open[k]]
                        == st.out[st.open[k]] by {
                        assert(st.open[k] < p);
                    }
                } else {
                    assert(st2.open == st.open.push(st.out.len() as int));
                    assert(st.open.len() <= s.len());
                    assert(st2.out.last().depth == st.open.len());
                    assert forall|k: int| 0 <= k < st2.open.len() implies st2.out[#[trigger] st2.open[k]].depth
                        == k && class_of(classes, st2.out[st2.open[k]]) is BeginEnd
                        && !st2.out[st2.open[k]].finished && 0 <= st2.open[k] < st2.out.len() by {
                        if k < st.open.len() {
                            assert(st2.open[k] == st.open[k]);
                            assert(st2.out[st2.open[k]] == st.out[st.open[k]]);
                        } else {
                            assert(st2.open[k] == st.out.len() as int);
                        }
                    }
                }
            },
            TraceEventClass::Async => {},
        }
    } else {
        assert(s.take(0) =~= Seq::<TraceEvent>::empty());
    }
}

/// Every open interval of the walk starts no later than anything still
/// to come in the time-sorted list.
proof fn lemma_fold_open_ts(s: Seq<TraceEvent>, classes: Seq<TraceEventClass>, j: int)
    requires
        0 <= j <= s.len(),
        s.len() <= u64::MAX,
        sorted_by_ts(s),
        depth_fold(s.take(j), classes, depth_init()) is Ok,
    ensures
        ({
            let st = depth_fold(s.take(j), classes, depth_init())->Ok_0;
            forall|k: int, j2: int|
                0 <= k < st.open.len() && j <= j2 < s.len() ==> st.out[#[trigger] st.open[k]].ts
                    <= #[trigger] s[j2].ts
        }),
    decreases j,
{
    if j > 0 {
        assert(s.take(j).drop_last() =~= s.take(j - 1));
        if depth_fold(s.take(j - 1), classes, depth_init()) is Err {
            assert(depth_fold(s.take(j), classes, depth_init()) is Err);
        }
        lemma_fold_open_ts(s, classes, j - 1);
        lemma_fold_walk(s, classes, j - 1);
        let st = depth_fold(s.take(j - 1), classes, depth_init())->Ok_0;
        let e = s[j - 1];
        assert(s.take(j).last() == e);
        let st2 = depth_fold(s.take(j), classes, depth_init())->Ok_0;
        assert forall|k: int, j2: int|
            0 <= k < st2.open.len() && j <= j2 < s.len() implies st2.out[#[trigger] st2.open[k]].ts
            <= #[trigger] s[j2].ts by {
            match class_of(classes, e) {
                TraceEventClass::Standalone => {
                    assert(st2.out[st2.open[k]] == st.out[st.open[k]]);
                },
                TraceEventClass::BeginEnd => {
                    if e.finished {
                        assert(st.open[k] < st.open.last());
                        assert(st2.out[st2.open[k]] == st.out[st.open[k]]);
                    } else {
                        if k < st.open.len() {
                            assert(st2.open[k] == st.open[k]);
                            assert(st2.out[st2.open[k]] == st.out[st.open[k]]);
                        } else {
                            assert(st2.out[st2.open[k]].ts == e.ts);
                            assert(e.ts <= s[j2].ts);
                        }
                    }
                },
                TraceEventClass::Async => {},
            }
        }
    }
}

/// A matched begin/end pair at stack position k yields depth k and
/// duration end.ts − begin.ts.
///
/// When the end marker at position j of the time-sorted list arrives, it
/// closes the most recently opened begin marker — the one at stack
/// position k = (number of still-open begin markers) − 1. That interval
/// was emitted with depth k, the number of begin markers open when it was
/// pushed; closing keeps its start and depth, marks it finished, and sets
/// its duration so that begin.ts + duration == end.ts. Nothing else in
/// the output changes.
pub proof fn lemma_pair_depth_duration(s: Seq<TraceEvent>, classes: Seq<TraceEventClass>, j: int)
    requires
        0 <= j < s.len(),
        s.len() <= u64::MAX,
        sorted_by_ts(s),
        depth_fold(s.take(j), classes, depth_init()) is Ok,
        class_of(classes, s[j]) is BeginEnd,
        s[j].finished,
        depth_fold(s.take(j), classes, depth_init())->Ok_0.open.len() > 0,
    ensures
        ({
            let st = depth_fold(s.take(j), classes, depth_init())->Ok_0;
            let k = st.open.len() - 1;
            let p = st.open[k];
            let r = depth_fold(s.take(j + 1), classes, depth_init());
            &&& r is Ok
            &&& r->Ok_0.out.len() == st.out.len()
            &&& 0 <= p < st.out.len()
            &&& r->Ok_0.out[p].depth == k
            &&& r->Ok_0.out[p].ts == st.out[p].ts
            &&& r->Ok_0.out[p].ts + r->Ok_0.out[p].dur == s[j].ts
            &&& r->Ok_0.out[p].finished
            &&& r->Ok_0.open == st.open.drop_last()
            &&& forall|q: int| 0 <= q < st.out.len() && q != p ==> r->Ok_0.out[q] == st.out[q]
        }),
{
    lemma_fold_walk(s, classes, j);
    lemma_fold_open_ts(s, classes, j);
    let st = depth_fold(s.take(j), classes, depth_init())->Ok_0;
    let k = st.open.len() - 1;
    let p = st.open[k];
    assert(st.open.last() == p);
    assert(st.out[p].ts <= s[j].ts);
    assert(s.take(j + 1).drop_last() =~= s.take(j));
    assert(s.take(j + 1).last() == s[j]);
    assert(st.out[p].depth == k);
}

/// The number of standalone-class events in a raw interval list.
pub open spec fn count_standalone(s: Seq<TraceEvent>, classes: Seq<TraceEventClass>) -> nat
    decreases s.len(),
{
    if s.len() == 0 {
        0
    } else {
        count_standalone(s.drop_last(), classes) + (if class_of(classes, s.last()) is Standalone {
            1nat
        } else {
            0nat
        })
    }
}

/// The number of closed standalone-class intervals in an interval list.
pub open spec fn count_standalone_closed(s: Seq<TraceEvent>, classes: Seq<TraceEventClass>) -> nat
    decreases s.len(),
{
    if s.len() == 0 {
        0
    } else {
        count_standalone_closed(s.drop_last(), classes) + (if class_of(
            classes,
            s.last(),
        ) is Standalone && s.last().finished {
            1nat
        } else {
            0nat
        })
    }
}

/// Updating a non-standalone element (keeping its descriptor) does not
/// change the closed standalone count.
proof fn lemma_count_sc_update(
    s: Seq<TraceEvent>,
    classes: Seq<TraceEventClass>,
    p: int,
    e2: TraceEvent,
)
    requires
        0 <= p < s.len(),
        !(class_of(classes, s[p]) is Standalone),
        e2.event_type == s[p].event_type,
    ensures
        count_standalone_closed(s.update(p, e2), classes) == count_standalone_closed(s, classes),
    decreases s.len(),
{
    let s2 = s.update(p, e2);
    if p == s.len() - 1 {
        assert(s2.drop_last() =~= s.drop_last());
        assert(s2.last() == e2);
        assert(!(class_of(classes, e2) is Standalone));
    } else {
        assert(s2.drop_last() =~= s.drop_last().update(p, e2));
        assert(s2.last() == s.last());
        lemma_count_sc_update(s.drop_last(), classes, p, e2);
    }
}

/// A stable insertion adds exactly the inserted element's own share to
/// the standalone count.
proof fn lemma_insert_count_standalone(
    s: Seq<TraceEvent>,
    e: TraceEvent,
    classes: Seq<TraceEventClass>,
)
    ensures
        count_standalone(crate::depth::insert_by_ts(s, e), classes) == count_standalone(s, classes)
            + (if class_of(classes, e) is Standalone {
            1nat
        } else {
            0nat
        }),
    decreases s.len(),
{
    let r = crate::depth::insert_by_ts(s, e);
    let one_if_standalone: nat = if class_of(classes, e) is Standalone {
        1nat
    } else {
        0nat
    };
    if s.len() == 0 {
        assert(r =~= seq![e]);
        assert(r.len() == 1);
        assert(r.drop_last() =~= Seq::<TraceEvent>::empty());
        assert(r.last() == e);
        assert(count_standalone(r, classes) == count_standalone(r.drop_last(), classes) + one_if_standalone);
        assert(count_standalone(r.drop_last(), classes) == 0);
        assert(count_standalone(s, classes) == 0);
    } else if s.last().ts <= e.ts {
        assert(r == s.push(e));
        assert(r.len() == s.len() + 1);
        assert(r.drop_last() =~= s);
        assert(r.last() == e);
        assert(count_standalone(r, classes) == count_standalone(r.drop_last(), classes) + one_if_standalone);
        assert(count_standalone(r.drop_last(), classes) == count_standalone(s, classes));
    } else {
        let inner = crate::depth::insert_by_ts(s.drop_last(), e);
        lemma_insert_count_standalone(s.drop_last(), e, classes);
        crate::depth::lemma_insert_by_ts_len(s.drop_last(), e);
        assert(r == inner.push(s.last()));
        assert(r.len() == inner.len() + 1);
        assert(r.drop_last() =~= inner);
        assert(r.last() == s.last());
        assert(count_standalone(r, classes) == count_standalone(inner, classes) + (
        if class_of(classes, s.last()) is Standalone {
            1nat
        } else {
            0nat
        }));
        assert(count_standalone(s, classes) == count_standalone(s.drop_last(), classes) + (
        if class_of(classes, s.last()) is Standalone {
            1nat
        } else {
            0nat
        }));
    }
}

/// The stable sort keeps the standalone count.
proof fn lemma_sort_count_standalone(s: Seq<TraceEvent>, classes: Seq<TraceEventClass>)
    ensures
        count_standalone(sort_by_ts(s), classes) == count_standalone(s, classes),
    decreases s.len(),
{
    if s.len() != 0 {
        lemma_sort_count_standalone(s.drop_last(), classes);
        lemma_insert_count_standalone(sort_by_ts(s.drop_last()), s.last(), classes);
    }
}

/// Along a successfully folded prefix where every standalone event is
/// closed, the output's closed standalone count equals the prefix's
/// standalone count.
proof fn lemma_fold_standalone(s: Seq<TraceEvent>, classes: Seq<TraceEventClass>, j: int)
    requires
        0 <= j <= s.len(),
        s.len() <= u64::MAX,
        forall|i: int|
            0 <= i < s.len() && class_of(classes, #[trigger] s[i]) is Standalone ==> s[i].finished,
        depth_fold(s.take(j), classes, depth_init()) is Ok,
    ensures
        count_standalone_closed(depth_fold(s.take(j), classes, depth_init())->Ok_0.out, classes)
            == count_standalone(s.take(j), classes),
    decreases j,
{
    if j > 0 {
        assert(s.take(j).drop_last() =~= s.take(j - 1));
        if depth_fold(s.take(j - 1), classes, depth_init()) is Err {
            assert(depth_fold(s.take(j), classes, depth_init()) is Err);
        }
        lemma_fold_standalone(s, classes, j - 1);
        lemma_fold_walk(s, classes, j - 1);
        let st = depth_fold(s.take(j - 1), classes, depth_init())->Ok_0;
        let e = s[j - 1];
        assert(s.take(j).last() == e);
        let st2 = depth_fold(s.take(j), classes, depth_init())->Ok_0;
        match class_of(classes, e) {
            TraceEventClass::Standalone => {
                let placed = TraceEvent { depth: st.open.len() as u64, ..e };
                assert(st2.out == st.out.push(placed));
                assert(st2.out.drop_last() =~= st.out);
                assert(e.finished);
                assert(class_of(classes, placed) is Standalone && placed.finished);
            },
            TraceEventClass::BeginEnd => {
                if e.finished {
                    let p = st.open.last();
                    assert(class_of(classes, st.out[p]) is BeginEnd);
                    let b = st.out[p];
                    let closed = TraceEvent { dur: (e.ts - b.ts) as u64, finished: true, ..b };
                    assert(st2.out == st.out.update(p, closed));
                    lemma_count_sc_update(st.out, classes, p, closed);
                } else {
                    let placed = TraceEvent { depth: st.open.len() as u64, ..e };
                    assert(st2.out == st.out.push(placed));
                    assert(st2.out.drop_last() =~= st.out);
                    assert(!(class_of(classes, placed) is Standalone));
                }
            },
            TraceEventClass::Async => {},
        }
    } else {
        assert(s.take(0) =~= Seq::<TraceEvent>::empty());
    }
}

/// A successful depth pass emits exactly one closed standalone interval
/// for each standalone-class event of its input: standalone intervals
/// are neither lost, duplicated, nor left open.
pub proof fn lemma_standalone_count(events: Seq<TraceEvent>, classes: Seq<TraceEventClass>)
    requires
        events.len() <= u64::MAX,
        forall|i: int|
            0 <= i < events.len() && class_of(classes, #[trigger] events[i]) is Standalone
                ==> events[i].finished,
        depth_pass_spec(events, classes) is Ok,
    ensures
        count_standalone_closed(depth_pass_spec(events, classes)->Ok_0, classes)
            == count_standalone(events, classes),
{
    let sorted = sort_by_ts(events);
    crate::depth::lemma_sort_by_ts_len(events);
    crate::depth::lemma_sort_by_ts_elems(events);
    assert forall|i: int|
        0 <= i < sorted.len() && class_of(classes, #[trigger] sorted[i]) is Standalone implies sorted[i].finished by {
        let k = choose|k: int| 0 <= k < events.len() && sorted[i] == events[k];
        assert(events[k].finished ==> sorted[i].finished);
    }
    lemma_sort_count_standalone(events, classes);
    assert(sorted.take(sorted.len() as int) =~= sorted);
    lemma_fold_standalone(sorted, classes, sorted.len() as int);
}

/// Reusing an event name under a class other than its established one
/// resolves to the class-mismatch failure carrying the name, the
/// requested class, and the established class — and to nothing else.
pub proof fn lemma_class_mismatch(
    types: Seq<crate::loader::TypeModel>,
    name: Seq<char>,
    class: TraceEventClass,
)
    requires
        crate::loader::has_type(types, name),
        types[crate::loader::type_index(types, name)].class != class,
    ensures
        crate::loader::resolve_spec(types, name, class) == Result::<
            (Seq<crate::loader::TypeModel>, int),
            ErrKind,
        >::Err(
            ErrKind::ClassMismatch {
                name,
                requested: class,
                stored: types[crate::loader::type_index(types, name)].class,
            },
        ),
{
}

/// Whether an entry is an end (closing) record for this event name.
pub open spec fn entry_is_end(e: RawEntry, name: Seq<char>) -> bool {
    match e {
        RawEntry::Object(rec) => get_str_spec(rec, "ph"@) == Result::<Seq<char>, ErrKind>::Ok("E"@)
            && get_str_spec(rec, "name"@) == Result::<Seq<char>, ErrKind>::Ok(name),
        RawEntry::NonObject => false,
    }
}

/// The number of end (closing) records for this event name.
pub open spec fn count_end_records(entries: Seq<RawEntry>, name: Seq<char>) -> nat
    decreases entries.len(),
{
    if entries.len() == 0 {
        0
    } else {
        count_end_records(entries.drop_last(), name) + (if entry_is_end(entries.last(), name) {
            1nat
        } else {
            0nat
        })
    }
}

/// What resolving one name does to the registry: well-formedness is kept,
/// existing descriptors are untouched, and the resolved descriptor has
/// the requested name and class; any other name's position and descriptor
/// are unchanged.
proof fn lemma_resolve_effect(
    types: Seq<TypeModel>,
    name2: Seq<char>,
    class2: TraceEventClass,
    name: Seq<char>,
)
    requires
        types_wf(types),
        resolve_spec(types, name2, class2) is Ok,
    ensures
        ({
            let ts2 = resolve_spec(types, name2, class2)->Ok_0.0;
            let i2 = resolve_spec(types, name2, class2)->Ok_0.1;
            &&& types_wf(ts2)
            &&& types.len() <= ts2.len()
            &&& 0 <= i2 < ts2.len()
            &&& ts2[i2].name == name2
            &&& ts2[i2].class == class2
            &&& forall|t: int| 0 <= t < types.len() ==> #[trigger] ts2[t] == types[t]
            &&& (has_type(types, name2) ==> ts2 == types && i2 == type_index(types, name2))
            &&& (!has_type(types, name2) ==> i2 == types.len() as int && ts2[i2].count == 0)
            &&& (has_type(types, name) ==> has_type(ts2, name) && type_index(ts2, name)
                == type_index(types, name))
            &&& (!has_type(types, name) && name2 != name ==> !has_type(ts2, name))
            &&& (!has_type(types, name) && name2 == name ==> has_type(ts2, name) && type_index(
                ts2,
                name,
            ) == i2)
        }),
{
    let ts2 = resolve_spec(types, name2, class2)->Ok_0.0;
    let i2 = resolve_spec(types, name2, class2)->Ok_0.1;
    if has_type(types, name2) {
        let i = type_index(types, name2);
        assert(0 <= i < types.len() && types[i].name == name2);
        if has_type(types, name) {
            let j = type_index(types, name);
            assert(0 <= j < ts2.len() && ts2[j].name == name);
            assert(has_type(ts2, name));
        }
    } else {
        assert(ts2 == types.push(TypeModel { name: name2, class: class2, count: 0 }));
        assert forall|t: int| 0 <= t < types.len() implies #[trigger] ts2[t] == types[t] by {}
        assert(types_wf(ts2)) by {
            assert forall|a: int, b: int| 0 <= a < b < ts2.len() implies ts2[a].name
                != ts2[b].name by {
                if b == ts2.len() - 1 {
                    assert(ts2[b].name == name2);
                    assert(ts2[a] == types[a]);
                    if ts2[a].name == name2 {
                        assert(has_type(types, name2));
                    }
                }
            }
        }
        if has_type(types, name) {
            let j = type_index(types, name);
            assert(ts2[j].name == name);
            assert(has_type(ts2, name));
            let j2 = type_index(ts2, name);
            assert(ts2[j2].name == name);
            if j2 != j {
                assert(false);
            }
        } else {
            if name2 != name {
                assert forall|t: int| 0 <= t < ts2.len() implies ts2[t].name != name by {
                    if t < types.len() {
                        assert(ts2[t] == types[t]);
                        if types[t].name == name {
                            assert(has_type(types, name));
                        }
                    }
                }
                assert(!has_type(ts2, name));
            } else {
                assert(ts2[i2].name == name);
                assert(has_type(ts2, name));
                let j2 = type_index(ts2, name);
                if j2 != i2 {
                    assert(ts2[j2].name == name);
                    assert(j2 < types.len());
                    assert(has_type(types, name));
                    assert(false);
                }
            }
        }
    }
}

/// Bumping one descriptor's count keeps every name, class, position and
/// the registry's well-formedness; only that descriptor's count grows by
/// one.
proof fn lemma_bump_effect(types: Seq<TypeModel>, i: int, name: Seq<char>)
    requires
        types_wf(types),
        0 <= i < types.len(),
    ensures
        ({
            let t2 = bump_count(types, i);
            &&& types_wf(t2)
            &&& t2.len() == types.len()
            &&& forall|t: int| 0 <= t < types.len() && t != i ==> #[trigger] t2[t] == types[t]
            &&& t2[i].name == types[i].name
            &&& t2[i].class == types[i].class
            &&& t2[i].count == types[i].count + 1
            &&& (has_type(types, name) <==> has_type(t2, name))
            &&& (has_type(types, name) ==> type_index(t2, name) == type_index(types, name))
        }),
{
    let t2 = bump_count(types, i);
    assert forall|t: int| 0 <= t < types.len() implies #[trigger] t2[t].name == types[t].name by {}
    if has_type(types, name) {
        let j = type_index(types, name);
        assert(t2[j].name == name);
        assert(has_type(t2, name));
        let j2 = type_index(t2, name);
        if j2 != j {
            assert(t2[j2].name == types[j2].name);
            assert(false);
        }
    }
    if has_type(t2, name) {
        let j = type_index(t2, name);
        assert(types[j].name == name);
        assert(has_type(types, name));
    }
}

/// The occurrence bookkeeping that the ingest maintains for one name:
/// a begin/end-class descriptor counts exactly the end records seen so
/// far, and a name absent or established under another class has seen no
/// end records at all.
pub open spec fn occurrence_inv(
    entries: Seq<RawEntry>,
    types: Seq<TypeModel>,
    name: Seq<char>,
) -> bool {
    &&& (has_type(types, name) && types[type_index(types, name)].class is BeginEnd ==> types[
        type_index(types, name)
    ].count == count_end_records(entries, name))
    &&& (has_type(types, name) && !(types[type_index(types, name)].class is BeginEnd)
        ==> count_end_records(entries, name) == 0)
    &&& (!has_type(types, name) ==> count_end_records(entries, name) == 0)
}

/// The five recognized phase codes are pairwise distinct.
proof fn lemma_phase_codes_distinct()
    ensures
        "B"@ != "E"@,
        "B"@ != "S"@,
        "B"@ != "F"@,
        "B"@ != "X"@,
        "E"@ != "S"@,
        "E"@ != "F"@,
        "E"@ != "X"@,
        "S"@ != "F"@,
        "S"@ != "X"@,
        "F"@ != "X"@,
{
    reveal_strlit("B");
    reveal_strlit("E");
    reveal_strlit("S");
    reveal_strlit("F");
    reveal_strlit("X");
    assert("B"@[0] == 'B');
    assert("E"@[0] == 'E');
    assert("S"@[0] == 'S');
    assert("F"@[0] == 'F');
    assert("X"@[0] == 'X');
}

/// How one record moves the registry with respect to one event name:
/// positions, names and classes are stable; a begin/end-class count grows
/// exactly on that name's end records; a name of another class, or one
/// the registry does not hold afterwards, has seen no end record here.
#[verifier::rlimit(100)]
proof fn lemma_occurrence_step(m: LoaderModel, e: RawEntry, name: Seq<char>)
    requires
        types_wf(m.types),
        m.types.len() < usize::MAX,
        record_step(m, e) is Ok,
    ensures
        ({
            let t2 = record_step(m, e)->Ok_0.types;
            &&& types_wf(t2)
            &&& t2.len() <= m.types.len() + 1
            &&& (has_type(m.types, name) ==> has_type(t2, name) && type_index(t2, name)
                == type_index(m.types, name) && t2[type_index(t2, name)].class == m.types[
                type_index(m.types, name)
            ].class)
            &&& (has_type(m.types, name) && m.types[type_index(m.types, name)].class is BeginEnd
                ==> t2[type_index(t2, name)].count == m.types[type_index(m.types, name)].count + (
                if entry_is_end(e, name) {
                    1nat
                } else {
                    0nat
                }))
            &&& (has_type(m.types, name) && !(m.types[type_index(m.types, name)].class is BeginEnd)
                ==> !entry_is_end(e, name))
            &&& (!has_type(m.types, name) && has_type(t2, name)
                && t2[type_index(t2, name)].class is BeginEnd ==> t2[type_index(t2, name)].count
                == (if entry_is_end(e, name) {
                1nat
            } else {
                0nat
            }))
            &&& (!has_type(m.types, name) && has_type(t2, name) && !(t2[type_index(
                t2,
                name,
            )].class is BeginEnd) ==> !entry_is_end(e, name))
            &&& (!has_type(t2, name) ==> !has_type(m.types, name) && !entry_is_end(e, name))
        }),
{
    match e {
        RawEntry::NonObject => {
            assert(false);
        },
        RawEntry::Object(rec) => {
            lemma_phase_codes_distinct();
            assert(get_u64_spec(rec, "tid"@) is Ok);
            assert(get_str_spec(rec, "ph"@) is Ok);
            assert(get_str_spec(rec, "name"@) is Ok);
            let tid = get_u64_spec(rec, "tid"@)->Ok_0;
            let ph = get_str_spec(rec, "ph"@)->Ok_0;
            let nm = get_str_spec(rec, "name"@)->Ok_0;
            assert(entry_is_end(e, name) <==> (ph == "E"@ && nm == name));
            assert(record_step(m, e) == crate::ingest::dispatch_step(m, rec, tid, ph, nm));
            if ph == "B"@ || ph == "E"@ || ph == "X"@ {
                let class2 = if ph == "X"@ {
                    TraceEventClass::Standalone
                } else {
                    TraceEventClass::BeginEnd
                };
                let finished = (ph != "B"@);
                assert(crate::ingest::dispatch_step(m, rec, tid, ph, nm) == marker_step(
                    m,
                    rec,
                    tid,
                    nm,
                    class2,
                    finished,
                )) by {
                    if ph == "B"@ {
                        assert(class2 == TraceEventClass::BeginEnd && finished == false);
                        assert(crate::ingest::dispatch_step(m, rec, tid, ph, nm) == marker_step(
                            m,
                            rec,
                            tid,
                            nm,
                            TraceEventClass::BeginEnd,
                            false,
                        ));
                    } else if ph == "E"@ {
                        assert(class2 == TraceEventClass::BeginEnd && finished == true);
                        assert(crate::ingest::dispatch_step(m, rec, tid, ph, nm) == marker_step(
                            m,
                            rec,
                            tid,
                            nm,
                            TraceEventClass::BeginEnd,
                            true,
                        ));
                    } else {
                        assert(ph == "X"@);
                        assert(class2 == TraceEventClass::Standalone && finished == true);
                        assert(crate::ingest::dispatch_step(m, rec, tid, ph, nm) == marker_step(
                            m,
                            rec,
                            tid,
                            nm,
                            TraceEventClass::Standalone,
                            true,
                        ));
                    }
                }
                assert(resolve_spec(m.types, nm, class2) is Ok);
                let pair = resolve_spec(m.types, nm, class2)->Ok_0;
                lemma_resolve_effect(m.types, nm, class2, name);
                assert(0 <= pair.1 <= usize::MAX);
                assert((pair.1 as usize) as int == pair.1);
                assert(make_event_spec(rec, pair.1 as usize, finished) is Ok);
                let ev = make_event_spec(rec, pair.1 as usize, finished)->Ok_0;
                assert(ev.event_type as int == pair.1);
                assert(ev.finished == finished);
                let mm = LoaderModel { threads: m.threads, types: pair.0 };
                assert(record_step(m, e)->Ok_0 == add_event_spec(mm, tid, ev));
                let t2 = record_step(m, e)->Ok_0.types;
                assert(pair.0[pair.1].class == class2);
                if counted(class2, finished) {
                    assert(t2 == bump_count(pair.0, pair.1));
                    lemma_bump_effect(pair.0, pair.1, name);
                } else {
                    assert(t2 == pair.0);
                }
                if nm == name {
                    if has_type(m.types, name) {
                        assert(pair.0 == m.types && pair.1 == type_index(m.types, name));
                    }
                } else {
                    if has_type(m.types, name) {
                        let i = type_index(m.types, name);
                        assert(pair.0[i] == m.types[i]);
                        assert(pair.1 != i) by {
                            if pair.1 == i {
                                assert(pair.0[i].name == nm);
                            }
                        }
                        assert(t2[i] == m.types[i]);
                    } else {
                        assert(!has_type(pair.0, name));
                        assert(!has_type(t2, name)) by {
                            if has_type(t2, name) {
                                let j = type_index(t2, name);
                                assert(t2[j].name == name);
                                assert(t2[j].name == pair.0[j].name);
                            }
                        }
                    }
                }
            } else if ph == "S"@ || ph == "F"@ {
                let finished = (ph == "F"@);
                assert(crate::ingest::dispatch_step(m, rec, tid, ph, nm) == async_marker_step(
                    m,
                    rec,
                    nm,
                    finished,
                )) by {
                    if ph == "S"@ {
                    } else {
                        assert(ph == "F"@);
                    }
                }
                assert(resolve_spec(m.types, nm, TraceEventClass::Async) is Ok);
                let pair = resolve_spec(m.types, nm, TraceEventClass::Async)->Ok_0;
                lemma_resolve_effect(m.types, nm, TraceEventClass::Async, name);
                let t2 = record_step(m, e)->Ok_0.types;
                assert(t2 == bump_count(pair.0, pair.1));
                lemma_bump_effect(pair.0, pair.1, name);
                if nm == name {
                    if has_type(m.types, name) {
                        assert(pair.0 == m.types && pair.1 == type_index(m.types, name));
                        assert(m.types[pair.1].class == TraceEventClass::Async);
                    }
                } else {
                    if has_type(m.types, name) {
                        let i = type_index(m.types, name);
                        assert(pair.0[i] == m.types[i]);
                        assert(pair.1 != i) by {
                            if pair.1 == i {
                                assert(pair.0[i].name == nm);
                            }
                        }
                        assert(t2[i] == m.types[i]);
                    } else {
                        assert(!has_type(pair.0, name));
                        assert(!has_type(t2, name)) by {
                            if has_type(t2, name) {
                                let j = type_index(t2, name);
                                assert(t2[j].name == name);
                                assert(t2[j].name == pair.0[j].name);
                            }
                        }
                    }
                }
            } else {
                assert(record_step(m, e)->Ok_0 == m);
            }
        },
    }
}

proof fn lemma_occurrence_fold(entries: Seq<RawEntry>, name: Seq<char>)
    requires
        entries.len() <= usize::MAX,
        ingest_fold(entries) is Ok,
    ensures
        ({
            let m = ingest_fold(entries)->Ok_0;
            &&& types_wf(m.types)
            &&& m.types.len() <= entries.len()
            &&& occurrence_inv(entries, m.types, name)
        }),
    decreases entries.len(),
{
    if entries.len() == 0 {
    } else {
        let pre = entries.drop_last();
        if ingest_fold(pre) is Err {
            assert(ingest_fold(entries) is Err);
        }
        lemma_occurrence_fold(pre, name);
        let m = ingest_fold(pre)->Ok_0;
        let e = entries.last();
        let m2 = ingest_fold(entries)->Ok_0;
        assert(m2 == record_step(m, e)->Ok_0);
        lemma_occurrence_step(m, e, name);
        assert(count_end_records(entries, name) == count_end_records(pre, name) + (
        if entry_is_end(e, name) {
            1nat
        } else {
            0nat
        }));
    }
}

/// The occurrence count of a begin/end-class name equals the number of
/// its closing (end) records — each completed pair is counted once, on
/// its end marker — and is not the number of its begin records.
pub proof fn lemma_beginend_occurrence(entries: Seq<RawEntry>, name: Seq<char>)
    requires
        entries.len() <= usize::MAX,
        ingest_fold(entries) is Ok,
        has_type(ingest_fold(entries)->Ok_0.types, name),
        ingest_fold(entries)->Ok_0.types[type_index(
            ingest_fold(entries)->Ok_0.types,
            name,
        )].class is BeginEnd,
    ensures
        ingest_fold(entries)->Ok_0.types[type_index(ingest_fold(entries)->Ok_0.types, name)].count
            == count_end_records(entries, name),
{
    lemma_occurrence_fold(entries, name);
}

/// Whether an entry is a standalone record for this thread id.
pub open spec fn entry_is_standalone_for(e: RawEntry, tid: u64) -> bool {
    match e {
        RawEntry::Object(rec) => get_str_spec(rec, "ph"@) == Result::<Seq<char>, ErrKind>::Ok("X"@)
            && get_u64_spec(rec, "tid"@) == Result::<u64, ErrKind>::Ok(tid),
        RawEntry::NonObject => false,
    }
}

/// The number of standalone records for this thread id.
pub open spec fn count_standalone_records(entries: Seq<RawEntry>, tid: u64) -> nat
    decreases entries.len(),
{
    if entries.len() == 0 {
        0
    } else {
        count_standalone_records(entries.drop_last(), tid) + (if entry_is_standalone_for(
            entries.last(),
            tid,
        ) {
            1nat
        } else {
            0nat
        })
    }
}

/// Extending the class table beyond every index an event list uses does
/// not change its standalone count.
proof fn lemma_count_standalone_extend(
    events: Seq<TraceEvent>,
    classes1: Seq<TraceEventClass>,
    classes2: Seq<TraceEventClass>,
)
    requires
        classes1.len() <= classes2.len(),
        forall|t: int| 0 <= t < classes1.len() ==> #[trigger] classes2[t] == classes1[t],
        forall|k: int| 0 <= k < events.len() ==> #[trigger] events[k].event_type < classes1.len(),
    ensures
        count_standalone(events, classes2) == count_standalone(events, classes1),
    decreases events.len(),
{
    if events.len() != 0 {
        lemma_count_standalone_extend(events.drop_last(), classes1, classes2);
        assert(events.last() == events[events.len() - 1]);
        assert(events.last().event_type < classes1.len());
        assert(class_of(classes2, events.last()) == class_of(classes1, events.last()));
    }
}

/// What routing one marker does to the accumulators: thread ids stay
/// unique and in place, the routed thread gains exactly the appended
/// interval (an accumulator being created on first reference), and every
/// other accumulator is untouched.
proof fn lemma_add_event_effect(m: LoaderModel, tid2: u64, ev: TraceEvent, tid: u64)
    requires
        threads_wf(m.threads),
    ensures
        ({
            let th2 = add_event_spec(m, tid2, ev).threads;
            let ti2 = if has_thread(m.threads, tid2) {
                thread_index(m.threads, tid2)
            } else {
                m.threads.len() as int
            };
            &&& threads_wf(th2)
            &&& m.threads.len() <= th2.len() <= m.threads.len() + 1
            &&& (has_thread(m.threads, tid2) ==> th2.len() == m.threads.len())
            &&& (!has_thread(m.threads, tid2) ==> th2.len() == m.threads.len() + 1)
            &&& 0 <= ti2 < th2.len()
            &&& has_thread(th2, tid2) && thread_index(th2, tid2) == ti2
            &&& th2[ti2].tid == tid2
            &&& th2[ti2].events == (if has_thread(m.threads, tid2) {
                m.threads[ti2].events.push(ev)
            } else {
                Seq::<TraceEvent>::empty().push(ev)
            })
            &&& forall|i: int| 0 <= i < m.threads.len() && i != ti2 ==> #[trigger] th2[i]
                == m.threads[i]
            &&& (has_thread(m.threads, tid) ==> has_thread(th2, tid) && thread_index(th2, tid)
                == thread_index(m.threads, tid))
            &&& (!has_thread(m.threads, tid) && tid2 != tid ==> !has_thread(th2, tid))
        }),
{
    let th2 = add_event_spec(m, tid2, ev).threads;
    if has_thread(m.threads, tid2) {
        let i2 = thread_index(m.threads, tid2);
        assert(0 <= i2 < m.threads.len() && m.threads[i2].tid == tid2);
        assert(th2 == m.threads.update(
            i2,
            ThreadModel {
                tid: tid2,
                events: m.threads[i2].events.push(ev),
                open: add_event_spec(m, tid2, ev).threads[i2].open,
            },
        )) by {
            assert(th2[i2].open == add_event_spec(m, tid2, ev).threads[i2].open);
            assert(th2 =~= m.threads.update(i2, th2[i2]));
            assert(th2[i2].tid == tid2);
            assert(th2[i2].events == m.threads[i2].events.push(ev));
        }
        assert forall|a: int, b: int| 0 <= a < b < th2.len() implies th2[a].tid != th2[b].tid by {
            assert(th2[a].tid == m.threads[a].tid);
            assert(th2[b].tid == m.threads[b].tid);
        }
        assert(th2[i2].tid == tid2);
        assert(has_thread(th2, tid2));
        let j = thread_index(th2, tid2);
        if j != i2 {
            assert(th2[j].tid == tid2);
            assert(m.threads[j].tid == tid2);
            assert(false);
        }
        if has_thread(m.threads, tid) {
            let i = thread_index(m.threads, tid);
            assert(th2[i].tid == tid);
            assert(has_thread(th2, tid));
            let j2 = thread_index(th2, tid);
            if j2 != i {
                assert(th2[j2].tid == m.threads[j2].tid);
                assert(false);
            }
        }
        if !has_thread(m.threads, tid) && tid2 != tid {
            if has_thread(th2, tid) {
                let j2 = thread_index(th2, tid);
                assert(th2[j2].tid == m.threads[j2].tid);
                assert(false);
            }
        }
    } else {
        let base = m.threads.push(
            ThreadModel { tid: tid2, events: Seq::empty(), open: Seq::empty() },
        );
        let i2 = m.threads.len() as int;
        assert(base[i2].tid == tid2);
        assert(th2 =~= base.update(i2, th2[i2]));
        assert(th2[i2].tid == tid2);
        assert(th2[i2].events == Seq::<TraceEvent>::empty().push(ev));
        assert forall|i: int| 0 <= i < m.threads.len() && i != i2 implies #[trigger] th2[i]
            == m.threads[i] by {}
        assert forall|a: int, b: int| 0 <= a < b < th2.len() implies th2[a].tid != th2[b].tid by {
            if b == i2 {
                assert(th2[a].tid == m.threads[a].tid);
                if m.threads[a].tid == tid2 {
                    assert(has_thread(m.threads, tid2));
                }
            } else {
                assert(th2[a].tid == m.threads[a].tid);
                assert(th2[b].tid == m.threads[b].tid);
            }
        }
        assert(has_thread(th2, tid2));
        let j = thread_index(th2, tid2);
        if j != i2 {
            assert(th2[j].tid == m.threads[j].tid);
            assert(has_thread(m.threads, tid2));
            assert(false);
        }
        if has_thread(m.threads, tid) {
            let i = thread_index(m.threads, tid);
            assert(th2[i].tid == tid);
            assert(has_thread(th2, tid));
            let j2 = thread_index(th2, tid);
            if j2 != i {
                if j2 == i2 {
                    assert(tid2 == tid);
                    assert(has_thread(m.threads, tid2));
                    assert(false);
                } else {
                    assert(th2[j2].tid == m.threads[j2].tid);
                    assert(false);
                }
            }
        }
        if !has_thread(m.threads, tid) && tid2 != tid {
            if has_thread(th2, tid) {
                let j2 = thread_index(th2, tid);
                if j2 == i2 {
                    assert(false);
                } else {
                    assert(th2[j2].tid == m.threads[j2].tid);
                    assert(false);
                }
            }
        }
    }
}

/// Structural facts that every fold state satisfies: unique names and
/// ids, descriptor indices within the registry, and every standalone
/// interval accumulated so far already closed.
pub open spec fn fold_state_wf(m: LoaderModel) -> bool {
    &&& types_wf(m.types)
    &&& threads_wf(m.threads)
    &&& forall|i: int, k: int|
        0 <= i < m.threads.len() && 0 <= k < m.threads[i].events.len()
            ==> #[trigger] m.threads[i].events[k].event_type < m.types.len()
    &&& forall|i: int, k: int|
        0 <= i < m.threads.len() && 0 <= k < m.threads[i].events.len() && class_of(
            model_classes(m.types),
            #[trigger] m.threads[i].events[k],
        ) is Standalone ==> m.threads[i].events[k].finished
}

/// How one record moves one thread's accumulator: the standalone count
/// of the routed thread grows exactly on that thread's standalone
/// records, and the structural facts are kept.
#[verifier::rlimit(100)]
proof fn lemma_accumulator_step(m: LoaderModel, e: RawEntry, tid: u64)
    requires
        fold_state_wf(m),
        m.types.len() < usize::MAX,
        record_step(m, e) is Ok,
    ensures
        ({
            let m2 = record_step(m, e)->Ok_0;
            &&& fold_state_wf(m2)
            &&& m2.types.len() <= m.types.len() + 1
            &&& m.threads.len() <= m2.threads.len() <= m.threads.len() + 1
            &&& (forall|i: int|
                0 <= i < m2.threads.len() ==> #[trigger] m2.threads[i].events.len() <= (if i
                    < m.threads.len() {
                    m.threads[i].events.len() + 1
                } else {
                    1
                }))
            &&& (has_thread(m.threads, tid) ==> has_thread(m2.threads, tid) && thread_index(
                m2.threads,
                tid,
            ) == thread_index(m.threads, tid) && count_standalone(
                m2.threads[thread_index(m2.threads, tid)].events,
                model_classes(m2.types),
            ) == count_standalone(
                m.threads[thread_index(m.threads, tid)].events,
                model_classes(m.types),
            ) + (if entry_is_standalone_for(e, tid) {
                1nat
            } else {
                0nat
            }))
            &&& (!has_thread(m.threads, tid) && has_thread(m2.threads, tid) ==> count_standalone(
                m2.threads[thread_index(m2.threads, tid)].events,
                model_classes(m2.types),
            ) == (if entry_is_standalone_for(e, tid) {
                1nat
            } else {
                0nat
            }))
            &&& (!has_thread(m2.threads, tid) ==> !has_thread(m.threads, tid)
                && !entry_is_standalone_for(e, tid))
        }),
{
    match e {
        RawEntry::NonObject => {
            assert(false);
        },
        RawEntry::Object(rec) => {
            lemma_phase_codes_distinct();
            assert(get_u64_spec(rec, "tid"@) is Ok);
            assert(get_str_spec(rec, "ph"@) is Ok);
            assert(get_str_spec(rec, "name"@) is Ok);
            let tid2 = get_u64_spec(rec, "tid"@)->Ok_0;
            let ph = get_str_spec(rec, "ph"@)->Ok_0;
            let nm = get_str_spec(rec, "name"@)->Ok_0;
            assert(entry_is_standalone_for(e, tid) <==> (ph == "X"@ && tid2 == tid));
            assert(record_step(m, e) == crate::ingest::dispatch_step(m, rec, tid2, ph, nm));
            if ph == "B"@ || ph == "E"@ || ph == "X"@ {
                let class2 = if ph == "X"@ {
                    TraceEventClass::Standalone
                } else {
                    TraceEventClass::BeginEnd
                };
                let finished = (ph != "B"@);
                assert(crate::ingest::dispatch_step(m, rec, tid2, ph, nm) == marker_step(
                    m,
                    rec,
                    tid2,
                    nm,
                    class2,
                    finished,
                )) by {
                    if ph == "B"@ {
                    } else if ph == "E"@ {
                    } else {
                        assert(ph == "X"@);
                    }
                }
                assert(resolve_spec(m.types, nm, class2) is Ok);
                let pair = resolve_spec(m.types, nm, class2)->Ok_0;
                lemma_resolve_effect(m.types, nm, class2, nm);
                assert(0 <= pair.1 <= usize::MAX);
                assert((pair.1 as usize) as int == pair.1);
                assert(make_event_spec(rec, pair.1 as usize, finished) is Ok);
                let ev = make_event_spec(rec, pair.1 as usize, finished)->Ok_0;
                assert(ev.event_type as int == pair.1);
                assert(ev.finished == finished);
                let mm = LoaderModel { threads: m.threads, types: pair.0 };
                let m2 = record_step(m, e)->Ok_0;
                assert(m2 == add_event_spec(mm, tid2, ev));
                lemma_add_event_effect(mm, tid2, ev, tid);
                let classes1 = model_classes(m.types);
                let classes2 = model_classes(m2.types);
                assert(classes1.len() == m.types.len());
                assert(classes2.len() == m2.types.len());
                assert(classes1.len() <= classes2.len());
                assert forall|t: int| 0 <= t < classes1.len() implies #[trigger] classes2[t]
                    == classes1[t] by {
                    assert(pair.0[t] == m.types[t]);
                    if counted(class2, finished) {
                        assert(m2.types == bump_count(pair.0, pair.1));
                        if t != pair.1 {
                            assert(m2.types[t] == pair.0[t]);
                        } else {
                            assert(m2.types[t].class == pair.0[t].class);
                        }
                    } else {
                        assert(m2.types == pair.0);
                    }
                }
                assert(class_of(classes2, ev) == class2) by {
                    if counted(class2, finished) {
                        assert(m2.types == bump_count(pair.0, pair.1));
                        assert(m2.types[pair.1].class == pair.0[pair.1].class);
                    } else {
                        assert(m2.types == pair.0);
                    }
                    assert(pair.0[pair.1].class == class2);
                }
                let ti2 = if has_thread(m.threads, tid2) {
                    thread_index(m.threads, tid2)
                } else {
                    m.threads.len() as int
                };
                // structural facts of the new state
                assert forall|i: int, k: int|
                    0 <= i < m2.threads.len() && 0 <= k < m2.threads[i].events.len() implies (
                #[trigger] m2.threads[i].events[k].event_type < m2.types.len() && (class_of(
                    classes2,
                    m2.threads[i].events[k],
                ) is Standalone ==> m2.threads[i].events[k].finished)) by {
                    if i == ti2 && k == m2.threads[i].events.len() - 1 {
                        assert(m2.threads[i].events[k] == ev);
                        if class2 is Standalone {
                            assert(finished);
                        }
                    } else {
                        if i < m.threads.len() {
                            let old_ev = m.threads[i].events[k];
                            assert(m2.threads[i].events[k] == old_ev);
                            assert(old_ev.event_type < m.types.len());
                            assert(class_of(classes2, old_ev) == class_of(classes1, old_ev));
                        }
                    }
                }
                assert forall|i: int|
                    0 <= i < m2.threads.len() implies #[trigger] m2.threads[i].events.len() <= (
                if i < m.threads.len() {
                    m.threads[i].events.len() + 1
                } else {
                    1nat
                }) by {
                    if i == ti2 {
                        if has_thread(m.threads, tid2) {
                            assert(m2.threads[i].events.len() == m.threads[i].events.len() + 1);
                        } else {
                            assert(m2.threads[i].events.len() == 1);
                        }
                    } else if i < m.threads.len() {
                        assert(m2.threads[i] == m.threads[i]);
                    } else {
                        assert(false);
                    }
                }
                // the standalone count of the thread under scrutiny
                if has_thread(m.threads, tid) {
                    let i = thread_index(m.threads, tid);
                    assert forall|k: int|
                        0 <= k < m.threads[i].events.len() implies #[trigger] m.threads[i].events[k].event_type
                        < classes1.len() by {}
                    if tid2 == tid {
                        assert(m2.threads[i].events == m.threads[i].events.push(ev));
                        lemma_count_standalone_extend(m.threads[i].events, classes1, classes2);
                        assert(m2.threads[i].events.drop_last() =~= m.threads[i].events);
                        assert(m2.threads[i].events.last() == ev);
                    } else {
                        assert(i != ti2) by {
                            if i == ti2 {
                                assert(has_thread(m.threads, tid2));
                                assert(m.threads[ti2].tid == tid2);
                                assert(m.threads[i].tid == tid);
                            }
                        }
                        assert(m2.threads[i] == m.threads[i]);
                        lemma_count_standalone_extend(m.threads[i].events, classes1, classes2);
                    }
                } else if has_thread(m2.threads, tid) {
                    assert(tid2 == tid) by {
                        if tid2 != tid {
                            assert(!has_thread(m2.threads, tid));
                        }
                    }
                    assert(thread_index(m2.threads, tid) == ti2);
                    assert(m2.threads[ti2].events == Seq::<TraceEvent>::empty().push(ev));
                    assert(m2.threads[ti2].events.drop_last() =~= Seq::<TraceEvent>::empty());
                    assert(m2.threads[ti2].events.last() == ev);
                    assert(count_standalone(Seq::<TraceEvent>::empty(), classes2) == 0);
                    assert(count_standalone(m2.threads[ti2].events, classes2) == (if class_of(
                        classes2,
                        ev,
                    ) is Standalone {
                        1nat
                    } else {
                        0nat
                    }));
                    assert((class_of(classes2, ev) is Standalone) <==> (ph == "X"@));
                } else {
                    assert(!(ph == "X"@ && tid2 == tid)) by {
                        if tid2 == tid {
                            assert(has_thread(m2.threads, tid2));
                        }
                    }
                }
            } else if ph == "S"@ || ph == "F"@ {
                let finished = (ph == "F"@);
                assert(crate::ingest::dispatch_step(m, rec, tid2, ph, nm) == async_marker_step(
                    m,
                    rec,
                    nm,
                    finished,
                )) by {
                    if ph == "S"@ {
                    } else {
                        assert(ph == "F"@);
                    }
                }
                assert(resolve_spec(m.types, nm, TraceEventClass::Async) is Ok);
                let pair = resolve_spec(m.types, nm, TraceEventClass::Async)->Ok_0;
                lemma_resolve_effect(m.types, nm, TraceEventClass::Async, nm);
                let m2 = record_step(m, e)->Ok_0;
                assert(m2.threads == m.threads);
                assert(m2.types == bump_count(pair.0, pair.1));
                let classes1 = model_classes(m.types);
                let classes2 = model_classes(m2.types);
                assert forall|t: int| 0 <= t < classes1.len() implies #[trigger] classes2[t]
                    == classes1[t] by {
                    assert(pair.0[t] == m.types[t]);
                    if t != pair.1 {
                        assert(m2.types[t] == pair.0[t]);
                    } else {
                        assert(m2.types[t].class == pair.0[t].class);
                    }
                }
                assert forall|i: int, k: int|
                    0 <= i < m2.threads.len() && 0 <= k < m2.threads[i].events.len() implies (
                #[trigger] m2.threads[i].events[k].event_type < m2.types.len() && (class_of(
                    classes2,
                    m2.threads[i].events[k],
                ) is Standalone ==> m2.threads[i].events[k].finished)) by {
                    let old_ev = m.threads[i].events[k];
                    assert(old_ev.event_type < m.types.len());
                    assert(class_of(classes2, old_ev) == class_of(classes1, old_ev));
                }
                if has_thread(m.threads, tid) {
                    let i = thread_index(m.threads, tid);
                    assert forall|k: int|
                        0 <= k < m.threads[i].events.len() implies #[trigger] m.threads[i].events[k].event_type
                        < classes1.len() by {}
                    lemma_count_standalone_extend(m.threads[i].events, classes1, classes2);
                }
            } else {
                assert(record_step(m, e)->Ok_0 == m);
            }
        },
    }
}

proof fn lemma_accumulator_fold(entries: Seq<RawEntry>, tid: u64)
    requires
        entries.len() <= usize::MAX,
        ingest_fold(entries) is Ok,
    ensures
        ({
            let m = ingest_fold(entries)->Ok_0;
            &&& fold_state_wf(m)
            &&& m.types.len() <= entries.len()
            &&& forall|i: int|
                0 <= i < m.threads.len() ==> #[trigger] m.threads[i].events.len() <= entries.len()
            &&& (has_thread(m.threads, tid) ==> count_standalone(
                m.threads[thread_index(m.threads, tid)].events,
                model_classes(m.types),
            ) == count_standalone_records(entries, tid))
            &&& (!has_thread(m.threads, tid) ==> count_standalone_records(entries, tid) == 0)
        }),
    decreases entries.len(),
{
    if entries.len() == 0 {
    } else {
        let pre = entries.drop_last();
        if ingest_fold(pre) is Err {
            assert(ingest_fold(entries) is Err);
        }
        lemma_accumulator_fold(pre, tid);
        let m = ingest_fold(pre)->Ok_0;
        let e = entries.last();
        let m2 = ingest_fold(entries)->Ok_0;
        assert(m2 == record_step(m, e)->Ok_0);
        lemma_accumulator_step(m, e, tid);
        assert(count_standalone_records(entries, tid) == count_standalone_records(pre, tid) + (
        if entry_is_standalone_for(e, tid) {
            1nat
        } else {
            0nat
        }));
        assert forall|i: int|
            0 <= i < m2.threads.len() implies #[trigger] m2.threads[i].events.len()
            <= entries.len() by {
            if i < m.threads.len() {
                assert(m2.threads[i].events.len() <= m.threads[i].events.len() + 1);
            } else {
                assert(m2.threads[i].events.len() <= 1);
            }
        }
    }
}

/// Each thread's accumulator holds exactly one standalone-class interval
/// per standalone record carrying its thread id, every one of them
/// already closed.
pub proof fn lemma_thread_standalone_records(entries: Seq<RawEntry>, tid: u64)
    requires
        entries.len() <= usize::MAX,
        ingest_fold(entries) is Ok,
        has_thread(ingest_fold(entries)->Ok_0.threads, tid),
    ensures
        ({
            let m = ingest_fold(entries)->Ok_0;
            let events = m.threads[thread_index(m.threads, tid)].events;
            &&& count_standalone(events, model_classes(m.types)) == count_standalone_records(
                entries,
                tid,
            )
            &&& events.len() <= entries.len()
            &&& forall|k: int|
                0 <= k < events.len() ==> #[trigger] events[k].event_type < m.types.len()
            &&& forall|k: int|
                0 <= k < events.len() && class_of(model_classes(m.types), #[trigger] events[k]) is Standalone
                    ==> events[k].finished
        }),
{
    lemma_accumulator_fold(entries, tid);
    let m = ingest_fold(entries)->Ok_0;
    let ti = thread_index(m.threads, tid);
    assert(0 <= ti < m.threads.len());
}

/// A successful finalizing pass yields one output thread per
/// accumulator, in order: its name the thread id in decimal, its
/// intervals the depth pass over that accumulator.
pub proof fn lemma_threads_out_index(
    threads: Seq<ThreadModel>,
    classes: Seq<TraceEventClass>,
    i: int,
)
    requires
        threads_out(threads, classes) is Ok,
        0 <= i < threads.len(),
    ensures
        threads_out(threads, classes)->Ok_0.len() == threads.len(),
        depth_pass_spec(threads[i].events, classes) is Ok,
        threads_out(threads, classes)->Ok_0[i] == (ThreadOut {
            name: crate::text::dec_str(threads[i].tid as nat),
            events: depth_pass_spec(threads[i].events, classes)->Ok_0,
        }),
    decreases threads.len(),
{
    if threads.len() != 0 {
        assert(threads_out(threads.drop_last(), classes) is Ok);
        if i < threads.len() - 1 {
            lemma_threads_out_index(threads.drop_last(), classes, i);
            assert(threads.drop_last()[i] == threads[i]);
        } else {
            if threads.drop_last().len() != 0 {
                lemma_threads_out_index(threads.drop_last(), classes, 0);
            }
            assert(threads.last() == threads[i]);
        }
    }
}

/// In a successful ingest, each thread's output holds exactly one closed
/// standalone interval per standalone record carrying its thread id:
/// none is lost, duplicated, left open, or invented.
pub proof fn lemma_standalone_records_in_output(entries: Seq<RawEntry>, tid: u64)
    requires
        entries.len() <= usize::MAX,
        ingest_fold(entries) is Ok,
        trace_spec(entries) is Ok,
        has_thread(ingest_fold(entries)->Ok_0.threads, tid),
    ensures
        ({
            let m = ingest_fold(entries)->Ok_0;
            let ti = thread_index(m.threads, tid);
            &&& 0 <= ti < trace_spec(entries)->Ok_0.threads.len()
            &&& count_standalone_closed(
                trace_spec(entries)->Ok_0.threads[ti].events,
                model_classes(m.types),
            ) == count_standalone_records(entries, tid)
        }),
{
    let m = ingest_fold(entries)->Ok_0;
    let ti = thread_index(m.threads, tid);
    let classes = model_classes(m.types);
    lemma_thread_standalone_records(entries, tid);
    assert(0 <= ti < m.threads.len());
    assert(file_of(m) is Ok);
    assert(threads_out(m.threads, classes) is Ok);
    lemma_threads_out_index(m.threads, classes, ti);
    let events = m.threads[ti].events;
    assert(usize::MAX <= u64::MAX);
    assert(events.len() <= u64::MAX);
    lemma_standalone_count(events, classes);
    assert(trace_spec(entries)->Ok_0.threads == threads_out(m.threads, classes)->Ok_0);
}

/// A stable insertion adds exactly the inserted element's own share to
/// the end-marker count.
proof fn lemma_insert_count_ends(
    s: Seq<TraceEvent>,
    e: TraceEvent,
    classes: Seq<TraceEventClass>,
)
    ensures
        count_ends(crate::depth::insert_by_ts(s, e), classes) == count_ends(s, classes) + (
        if class_of(classes, e) is BeginEnd && e.finished {
            1nat
        } else {
            0nat
        }),
    decreases s.len(),
{
    let r = crate::depth::insert_by_ts(s, e);
    let own_share: nat = if class_of(classes, e) is BeginEnd && e.finished {
        1nat
    } else {
        0nat
    };
    if s.len() == 0 {
        assert(r =~= seq![e]);
        assert(r.len() == 1);
        assert(r.drop_last() =~= Seq::<TraceEvent>::empty());
        assert(r.last() == e);
        assert(count_ends(r, classes) == count_ends(r.drop_last(), classes) + own_share);
        assert(count_ends(r.drop_last(), classes) == 0);
        assert(count_ends(s, classes) == 0);
    } else if s.last().ts <= e.ts {
        assert(r == s.push(e));
        assert(r.len() == s.len() + 1);
        assert(r.drop_last() =~= s);
        assert(r.last() == e);
        assert(count_ends(r, classes) == count_ends(r.drop_last(), classes) + own_share);
        assert(count_ends(r.drop_last(), classes) == count_ends(s, classes));
    } else {
        let inner = crate::depth::insert_by_ts(s.drop_last(), e);
        lemma_insert_count_ends(s.drop_last(), e, classes);
        crate::depth::lemma_insert_by_ts_len(s.drop_last(), e);
        assert(r == inner.push(s.last()));
        assert(r.len() == inner.len() + 1);
        assert(r.drop_last() =~= inner);
        assert(r.last() == s.last());
        assert(count_ends(r, classes) == count_ends(inner, classes) + (if class_of(
            classes,
            s.last(),
        ) is BeginEnd && s.last().finished {
            1nat
        } else {
            0nat
        }));
        assert(count_ends(s, classes) == count_ends(s.drop_last(), classes) + (if class_of(
            classes,
            s.last(),
        ) is BeginEnd && s.last().finished {
            1nat
        } else {
            0nat
        }));
    }
}

/// The stable sort keeps the end-marker count.
proof fn lemma_sort_count_ends(s: Seq<TraceEvent>, classes: Seq<TraceEventClass>)
    ensures
        count_ends(sort_by_ts(s), classes) == count_ends(s, classes),
    decreases s.len(),
{
    if s.len() != 0 {
        lemma_sort_count_ends(s.drop_last(), classes);
        lemma_insert_count_ends(sort_by_ts(s.drop_last()), s.last(), classes);
    }
}

/// Closing an open begin/end interval raises the closed count by one.
proof fn lemma_count_ends_update(
    s: Seq<TraceEvent>,
    classes: Seq<TraceEventClass>,
    p: int,
    e2: TraceEvent,
)
    requires
        0 <= p < s.len(),
        class_of(classes, s[p]) is BeginEnd,
        !s[p].finished,
        e2.event_type == s[p].event_type,
        e2.finished,
    ensures
        count_ends(s.update(p, e2), classes) == count_ends(s, classes) + 1,
    decreases s.len(),
{
    let s2 = s.update(p, e2);
    if p == s.len() - 1 {
        assert(s2.drop_last() =~= s.drop_last());
        assert(s2.last() == e2);
        assert(class_of(classes, e2) is BeginEnd);
    } else {
        assert(s2.drop_last() =~= s.drop_last().update(p, e2));
        assert(s2.last() == s.last());
        lemma_count_ends_update(s.drop_last(), classes, p, e2);
    }
}

/// Along a successfully folded prefix, the output's closed begin/end
/// count equals the prefix's end-marker count: each end marker closes
/// exactly one interval.
proof fn lemma_fold_closed_pairs(s: Seq<TraceEvent>, classes: Seq<TraceEventClass>, j: int)
    requires
        0 <= j <= s.len(),
        s.len() <= u64::MAX,
        depth_fold(s.take(j), classes, depth_init()) is Ok,
    ensures
        count_ends(depth_fold(s.take(j), classes, depth_init())->Ok_0.out, classes) == count_ends(
            s.take(j),
            classes,
        ),
    decreases j,
{
    if j > 0 {
        assert(s.take(j).drop_last() =~= s.take(j - 1));
        if depth_fold(s.take(j - 1), classes, depth_init()) is Err {
            assert(depth_fold(s.take(j), classes, depth_init()) is Err);
        }
        lemma_fold_closed_pairs(s, classes, j - 1);
        lemma_fold_walk(s, classes, j - 1);
        let st = depth_fold(s.take(j - 1), classes, depth_init())->Ok_0;
        let e = s[j - 1];
        assert(s.take(j).last() == e);
        let st2 = depth_fold(s.take(j), classes, depth_init())->Ok_0;
        match class_of(classes, e) {
            TraceEventClass::Standalone => {
                let placed = TraceEvent { depth: st.open.len() as u64, ..e };
                assert(st2.out == st.out.push(placed));
                assert(st2.out.drop_last() =~= st.out);
                assert(!(class_of(classes, placed) is BeginEnd));
            },
            TraceEventClass::BeginEnd => {
                if e.finished {
                    let p = st.open.last();
                    assert(class_of(classes, st.out[p]) is BeginEnd);
                    assert(!st.out[p].finished);
                    let b = st.out[p];
                    let closed = TraceEvent { dur: (e.ts - b.ts) as u64, finished: true, ..b };
                    assert(st2.out == st.out.update(p, closed));
                    lemma_count_ends_update(st.out, classes, p, closed);
                } else {
                    let placed = TraceEvent { depth: st.open.len() as u64, ..e };
                    assert(st2.out == st.out.push(placed));
                    assert(st2.out.drop_last() =~= st.out);
                    assert(!placed.finished);
                }
            },
            TraceEventClass::Async => {},
        }
    } else {
        assert(s.take(0) =~= Seq::<TraceEvent>::empty());
    }
}

/// A successful depth pass closes exactly one begin/end interval per end
/// marker of its input: the closed begin/end intervals of a thread's
/// output are its completed pairs, one per closing marker.
pub proof fn lemma_closed_pairs_count(events: Seq<TraceEvent>, classes: Seq<TraceEventClass>)
    requires
        events.len() <= u64::MAX,
        depth_pass_spec(events, classes) is Ok,
    ensures
        count_ends(depth_pass_spec(events, classes)->Ok_0, classes) == count_ends(events, classes),
{
    let sorted = sort_by_ts(events);
    crate::depth::lemma_sort_by_ts_len(events);
    lemma_sort_count_ends(events, classes);
    assert(sorted.take(sorted.len() as int) =~= sorted);
    lemma_fold_closed_pairs(sorted, classes, sorted.len() as int);
}

/// An interval with its depth cleared: what of it the depth pass must
/// leave untouched.
pub open spec fn scrub_depth(e: TraceEvent) -> TraceEvent {
    TraceEvent { depth: 0, ..e }
}

/// The standalone-class elements of an interval list, in order, each with
/// its depth cleared.
pub open spec fn standalones(s: Seq<TraceEvent>, classes: Seq<TraceEventClass>) -> Seq<TraceEvent>
    decreases s.len(),
{
    if s.len() == 0 {
        Seq::empty()
    } else if class_of(classes, s.last()) is Standalone {
        standalones(s.drop_last(), classes).push(scrub_depth(s.last()))
    } else {
        standalones(s.drop_last(), classes)
    }
}

/// Updating a non-standalone element (keeping its descriptor) leaves the
/// standalone subsequence untouched.
proof fn lemma_standalones_update(
    s: Seq<TraceEvent>,
    classes: Seq<TraceEventClass>,
    p: int,
    e2: TraceEvent,
)
    requires
        0 <= p < s.len(),
        !(class_of(classes, s[p]) is Standalone),
        e2.event_type == s[p].event_type,
    ensures
        standalones(s.update(p, e2), classes) == standalones(s, classes),
    decreases s.len(),
{
    let s2 = s.update(p, e2);
    if p == s.len() - 1 {
        assert(s2.drop_last() =~= s.drop_last());
        assert(s2.last() == e2);
        assert(!(class_of(classes, e2) is Standalone));
    } else {
        assert(s2.drop_last() =~= s.drop_last().update(p, e2));
        assert(s2.last() == s.last());
        lemma_standalones_update(s.drop_last(), classes, p, e2);
    }
}

/// Along a successfully folded prefix, the output's standalone
/// subsequence equals the prefix's: each standalone interval is emitted
/// exactly once, in time order, with only its depth assigned.
proof fn lemma_fold_standalones_seq(s: Seq<TraceEvent>, classes: Seq<TraceEventClass>, j: int)
    requires
        0 <= j <= s.len(),
        s.len() <= u64::MAX,
        depth_fold(s.take(j), classes, depth_init()) is Ok,
    ensures
        standalones(depth_fold(s.take(j), classes, depth_init())->Ok_0.out, classes)
            == standalones(s.take(j), classes),
    decreases j,
{
    if j > 0 {
        assert(s.take(j).drop_last() =~= s.take(j - 1));
        if depth_fold(s.take(j - 1), classes, depth_init()) is Err {
            assert(depth_fold(s.take(j), classes, depth_init()) is Err);
        }
        lemma_fold_standalones_seq(s, classes, j - 1);
        lemma_fold_walk(s, classes, j - 1);
        let st = depth_fold(s.take(j - 1), classes, depth_init())->Ok_0;
        let e = s[j - 1];
        assert(s.take(j).last() == e);
        let st2 = depth_fold(s.take(j), classes, depth_init())->Ok_0;
        match class_of(classes, e) {
            TraceEventClass::Standalone => {
                let placed = TraceEvent { depth: st.open.len() as u64, ..e };
                assert(st2.out == st.out.push(placed));
                assert(st2.out.drop_last() =~= st.out);
                assert(class_of(classes, placed) is Standalone);
                assert(scrub_depth(placed) == scrub_depth(e));
            },
            TraceEventClass::BeginEnd => {
                if e.finished {
                    let p = st.open.last();
                    assert(class_of(classes, st.out[p]) is BeginEnd);
                    let b = st.out[p];
                    let closed = TraceEvent { dur: (e.ts - b.ts) as u64, finished: true, ..b };
                    assert(st2.out == st.out.update(p, closed));
                    lemma_standalones_update(st.out, classes, p, closed);
                } else {
                    let placed = TraceEvent { depth: st.open.len() as u64, ..e };
                    assert(st2.out == st.out.push(placed));
                    assert(st2.out.drop_last() =~= st.out);
                    assert(!(class_of(classes, placed) is Standalone));
                }
            },
            TraceEventClass::Async => {},
        }
    } else {
        assert(s.take(0) =~= Seq::<TraceEvent>::empty());
    }
}

/// The standalone intervals of a successful depth pass are exactly the
/// standalone-class events of the time-sorted input, in order, with the
/// same timestamp, durations, descriptor and closed state: only the
/// nesting depth is assigned.
pub proof fn lemma_standalone_preserved(events: Seq<TraceEvent>, classes: Seq<TraceEventClass>)
    requires
        events.len() <= u64::MAX,
        depth_pass_spec(events, classes) is Ok,
    ensures
        standalones(depth_pass_spec(events, classes)->Ok_0, classes) == standalones(
            sort_by_ts(events),
            classes,
        ),
{
    let sorted = sort_by_ts(events);
    crate::depth::lemma_sort_by_ts_len(events);
    assert(sorted.take(sorted.len() as int) =~= sorted);
    lemma_fold_standalones_seq(sorted, classes, sorted.len() as int);
}

} // verus!
