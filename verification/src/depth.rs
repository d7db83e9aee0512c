//! The depth-assignment pass: a pure transform that turns one thread's raw
//! interval list (begin markers, end markers, standalone intervals) into
//! the final ordered, depth-annotated interval list by simulating stack
//! discipline over timestamp order.

use vstd::prelude::*;

use crate::trace_types::{message_of, ErrKind, TraceError, TraceEvent, TraceEventClass,
    TraceEventType};

verus! {

/// Events in timestamp order, earliest first.
pub open spec fn sorted_by_ts(s: Seq<TraceEvent>) -> bool {
    forall|i: int, j: int| 0 <= i < j < s.len() ==> s[i].ts <= s[j].ts
}

/// Insert `e` into `s` after every element whose timestamp is at most
/// `e.ts`: the step of a stable insertion sort, where `e` follows all of
/// `s` in arrival order.
pub open spec fn insert_by_ts(s: Seq<TraceEvent>, e: TraceEvent) -> Seq<TraceEvent>
    decreases s.len(),
{
    if s.len() == 0 {
        seq![e]
    } else if s.last().ts <= e.ts {
        s.push(e)
    } else {
        insert_by_ts(s.drop_last(), e).push(s.last())
    }
}

/// The stable sort of `s` by timestamp: elements with equal timestamps
/// keep their arrival order.
pub open spec fn sort_by_ts(s: Seq<TraceEvent>) -> Seq<TraceEvent>
    decreases s.len(),
{
    if s.len() == 0 {
        Seq::empty()
    } else {
        insert_by_ts(sort_by_ts(s.drop_last()), s.last())
    }
}

pub proof fn lemma_insert_by_ts_len(s: Seq<TraceEvent>, e: TraceEvent)
    ensures
        insert_by_ts(s, e).len() == s.len() + 1,
    decreases s.len(),
{
    if s.len() != 0 && !(s.last().ts <= e.ts) {
        lemma_insert_by_ts_len(s.drop_last(), e);
    }
}

pub proof fn lemma_sort_by_ts_len(s: Seq<TraceEvent>)
    ensures
        sort_by_ts(s).len() == s.len(),
    decreases s.len(),
{
    if s.len() != 0 {
        lemma_sort_by_ts_len(s.drop_last());
        lemma_insert_by_ts_len(sort_by_ts(s.drop_last()), s.last());
    }
}

/// Inserting preserves sortedness.
pub proof fn lemma_insert_by_ts_sorted(s: Seq<TraceEvent>, e: TraceEvent)
    requires
        sorted_by_ts(s),
    ensures
        sorted_by_ts(insert_by_ts(s, e)),
    decreases s.len(),
{
    if s.len() == 0 {
    } else if s.last().ts <= e.ts {
    } else {
        assert(sorted_by_ts(s.drop_last()));
        lemma_insert_by_ts_sorted(s.drop_last(), e);
        lemma_insert_by_ts_len(s.drop_last(), e);
        let r = insert_by_ts(s.drop_last(), e).push(s.last());
        // every element of the inserted prefix is at most s.last().ts
        assert forall|i: int, j: int| 0 <= i < j < r.len() implies r[i].ts <= r[j].ts by {
            if j == r.len() - 1 {
                lemma_insert_by_ts_elems(s.drop_last(), e);
                if i < r.len() - 1 {
                    let pre = insert_by_ts(s.drop_last(), e);
                    assert(r[i] == pre[i]);
                }
            }
        }
    }
}

/// Every element of `insert_by_ts(s, e)` is an element of `s` or is `e`.
pub proof fn lemma_insert_by_ts_elems(s: Seq<TraceEvent>, e: TraceEvent)
    ensures
        forall|i: int|
            0 <= i < insert_by_ts(s, e).len() ==> (#[trigger] insert_by_ts(s, e)[i] == e || exists|
                j: int,
            |
                0 <= j < s.len() && insert_by_ts(s, e)[i] == s[j]),
    decreases s.len(),
{
    if s.len() == 0 {
    } else if s.last().ts <= e.ts {
    } else {
        lemma_insert_by_ts_elems(s.drop_last(), e);
        lemma_insert_by_ts_len(s.drop_last(), e);
        let r = insert_by_ts(s, e);
        let pre = insert_by_ts(s.drop_last(), e);
        assert forall|i: int|
            0 <= i < r.len() implies (r[i] == e || exists|j: int|
            0 <= j < s.len() && r[i] == s[j]) by {
            if i < r.len() - 1 {
                assert(r[i] == pre[i]);
                if pre[i] != e {
                    let j = choose|j: int| 0 <= j < s.drop_last().len() && pre[i] == s.drop_last()[j];
                    assert(s.drop_last()[j] == s[j]);
                }
            } else {
                assert(r[i] == s.last());
                assert(s.last() == s[s.len() - 1]);
            }
        }
    }
}

/// Every element of the stable sort is an element of the input.
pub proof fn lemma_sort_by_ts_elems(s: Seq<TraceEvent>)
    ensures
        forall|i: int|
            0 <= i < sort_by_ts(s).len() ==> exists|j: int|
                0 <= j < s.len() && #[trigger] sort_by_ts(s)[i] == s[j],
    decreases s.len(),
{
    if s.len() != 0 {
        lemma_sort_by_ts_elems(s.drop_last());
        lemma_insert_by_ts_elems(sort_by_ts(s.drop_last()), s.last());
        let r = sort_by_ts(s);
        assert forall|i: int| 0 <= i < r.len() implies exists|j: int|
            0 <= j < s.len() && #[trigger] r[i] == s[j] by {
            if r[i] == s.last() {
                assert(r[i] == s[s.len() - 1]);
            } else {
                let k = choose|k: int|
                    0 <= k < sort_by_ts(s.drop_last()).len() && r[i] == sort_by_ts(s.drop_last())[k];
                let j = choose|j: int|
                    0 <= j < s.drop_last().len() && sort_by_ts(s.drop_last())[k] == s.drop_last()[j];
                assert(s.drop_last()[j] == s[j]);
            }
        }
    }
}

/// The stable sort is sorted.
pub proof fn lemma_sort_by_ts_sorted(s: Seq<TraceEvent>)
    ensures
        sorted_by_ts(sort_by_ts(s)),
    decreases s.len(),
{
    if s.len() != 0 {
        lemma_sort_by_ts_sorted(s.drop_last());
        lemma_insert_by_ts_sorted(sort_by_ts(s.drop_last()), s.last());
    }
}

/// `insert_by_ts` splices `e` in at the position before the maximal
/// suffix of elements with strictly later timestamps.
proof fn lemma_insert_by_ts_at(s: Seq<TraceEvent>, e: TraceEvent, pos: int)
    requires
        0 <= pos <= s.len(),
        forall|k: int| pos <= k < s.len() ==> s[k].ts > e.ts,
        pos > 0 ==> s[pos - 1].ts <= e.ts,
    ensures
        insert_by_ts(s, e) == s.take(pos).push(e) + s.skip(pos),
    decreases s.len(),
{
    if s.len() == 0 {
        assert(insert_by_ts(s, e) =~= s.take(pos).push(e) + s.skip(pos));
    } else if s.last().ts <= e.ts {
        assert(pos == s.len());
        assert(insert_by_ts(s, e) =~= s.take(pos).push(e) + s.skip(pos));
    } else {
        assert(pos < s.len());
        lemma_insert_by_ts_at(s.drop_last(), e, pos);
        assert(s.drop_last().take(pos) =~= s.take(pos));
        assert(insert_by_ts(s.drop_last(), e).push(s.last()) =~= (s.take(pos).push(e) + s.drop_last().skip(pos)).push(
            s.last(),
        ));
        assert((s.take(pos).push(e) + s.drop_last().skip(pos)).push(s.last()) =~= s.take(pos).push(e)
            + s.skip(pos));
    }
}

/// Insert one event into an already-sorted vector, keeping arrival order
/// among equal timestamps.
fn insert_event(sorted: &mut Vec<TraceEvent>, e: TraceEvent)
    ensures
        final(sorted)@ == insert_by_ts(old(sorted)@, e),
{
    let mut pos: usize = sorted.len();
    while pos > 0 && sorted[pos - 1].ts > e.ts
        invariant
            0 <= pos <= sorted@.len(),
            forall|k: int| pos <= k < sorted@.len() ==> sorted@[k].ts > e.ts,
        decreases pos,
    {
        pos = pos - 1;
    }
    proof {
        lemma_insert_by_ts_at(sorted@, e, pos as int);
    }
    sorted.insert(pos, e);
    proof {
        assert(sorted@ =~= old(sorted)@.take(pos as int).push(e) + old(sorted)@.skip(pos as int));
    }
}

/// Stable-sort events by timestamp, ties keeping arrival order.
fn sort_events(events: Vec<TraceEvent>) -> (r: Vec<TraceEvent>)
    ensures
        r@ == sort_by_ts(events@),
{
    let mut out: Vec<TraceEvent> = Vec::new();
    let mut i: usize = 0;
    proof {
        assert(events@.take(0) =~= Seq::<TraceEvent>::empty());
    }
    while i < events.len()
        invariant
            0 <= i <= events@.len(),
            out@ == sort_by_ts(events@.take(i as int)),
        decreases events@.len() - i,
    {
        insert_event(&mut out, events[i]);
        proof {
            assert(events@.take(i + 1).drop_last() =~= events@.take(i as int));
            assert(events@.take(i + 1).last() == events@[i as int]);
        }
        i = i + 1;
    }
    proof {
        assert(events@.take(events@.len() as int) =~= events@);
    }
    out
}

/// The walk state of the depth pass: the output list built so far and the
/// stack of output indices of still-open begin markers.
#[verifier::ext_equal]
pub struct DepthState {
    pub out: Seq<TraceEvent>,
    pub open: Seq<int>,
}

/// The class of an event, read off the registry.
pub open spec fn class_of(classes: Seq<TraceEventClass>, e: TraceEvent) -> TraceEventClass {
    classes[e.event_type as int]
}

/// One step of the depth pass over the time-sorted list.
///
/// A standalone interval is emitted at the current stack depth without
/// opening anything; a begin marker is emitted at the current depth and
/// its output index pushed; an end marker pops the most recently open
/// begin marker — whatever its name — closes it, and sets its duration to
/// the difference of the two timestamps; an async interval is ignored.
pub open spec fn depth_step(st: DepthState, e: TraceEvent, class: TraceEventClass) -> Result<
    DepthState,
    ErrKind,
> {
    match class {
        TraceEventClass::Standalone => Result::Ok(
            DepthState {
                out: st.out.push(TraceEvent { depth: st.open.len() as u64, ..e }),
                open: st.open,
            },
        ),
        TraceEventClass::BeginEnd => if e.finished {
            if st.open.len() == 0 {
                Result::Err(ErrKind::Underflow)
            } else {
                let p = st.open.last();
                let b = st.out[p];
                Result::Ok(
                    DepthState {
                        out: st.out.update(
                            p,
                            TraceEvent { dur: (e.ts - b.ts) as u64, finished: true, ..b },
                        ),
                        open: st.open.drop_last(),
                    },
                )
            }
        } else {
            Result::Ok(
                DepthState {
                    out: st.out.push(TraceEvent { depth: st.open.len() as u64, ..e }),
                    open: st.open.push(st.out.len() as int),
                },
            )
        },
        TraceEventClass::Async => Result::Ok(st),
    }
}

/// The depth pass over a time-sorted list, from a given walk state.
pub open spec fn depth_fold(evs: Seq<TraceEvent>, classes: Seq<TraceEventClass>, st: DepthState) -> Result<
    DepthState,
    ErrKind,
>
    decreases evs.len(),
{
    if evs.len() == 0 {
        Result::Ok(st)
    } else {
        match depth_fold(evs.drop_last(), classes, st) {
            Result::Err(k) => Result::Err(k),
            Result::Ok(st2) => depth_step(st2, evs.last(), class_of(classes, evs.last())),
        }
    }
}

/// The empty walk state.
pub open spec fn depth_init() -> DepthState {
    DepthState { out: Seq::empty(), open: Seq::empty() }
}

/// What the whole pass yields on a raw interval list: the final interval
/// list, or the underflow failure.
pub open spec fn depth_pass_spec(events: Seq<TraceEvent>, classes: Seq<TraceEventClass>) -> Result<
    Seq<TraceEvent>,
    ErrKind,
> {
    match depth_fold(sort_by_ts(events), classes, depth_init()) {
        Result::Err(k) => Result::Err(k),
        Result::Ok(st) => Result::Ok(st.out),
    }
}

/// The classes of the registry's descriptors, in registry order.
pub open spec fn classes_of(types: Seq<TraceEventType>) -> Seq<TraceEventClass> {
    types.map_values(|t: TraceEventType| t.class)
}

/// Assign depths and durations to one thread's raw interval list.
///
/// The list is stable-sorted by timestamp; then begin and end markers are
/// paired in stack order, an end marker closing the most recently open
/// begin marker regardless of event name. Fails exactly when an end
/// marker arrives with no open begin marker.
pub fn set_depth(events: Vec<TraceEvent>, types: &Vec<TraceEventType>) -> (r: Result<
    Vec<TraceEvent>,
    TraceError,
>)
    requires
        forall|i: int| 0 <= i < events@.len() ==> #[trigger] events@[i].event_type < types@.len(),
    ensures
        match depth_pass_spec(events@, classes_of(types@)) {
            Result::Ok(out) => r is Ok && r->Ok_0@ == out,
            Result::Err(k) => r is Err && r->Err_0.spec_message() == message_of(k),
        },
{
    let ghost classes = classes_of(types@);
    let sorted = sort_events(events);
    proof {
        lemma_sort_by_ts_sorted(events@);
        lemma_sort_by_ts_elems(events@);
        assert(forall|i: int|
            0 <= i < sorted@.len() ==> #[trigger] sorted@[i].event_type < types@.len());
    }
    let mut new_events: Vec<TraceEvent> = Vec::new();
    let mut open_events: Vec<usize> = Vec::new();
    let mut i: usize = 0;
    proof {
        assert(sorted@.take(0) =~= Seq::<TraceEvent>::empty());
        assert(open_events@.map_values(|u: usize| u as int) =~= Seq::<int>::empty());
    }
    while i < sorted.len()
        invariant
            0 <= i <= sorted@.len(),
            sorted@ == sort_by_ts(events@),
            sorted_by_ts(sorted@),
            classes == classes_of(types@),
            forall|k: int| 0 <= k < sorted@.len() ==> #[trigger] sorted@[k].event_type < types@.len(),
            depth_fold(sorted@.take(i as int), classes, depth_init()) == Result::<
                DepthState,
                ErrKind,
            >::Ok(
                DepthState {
                    out: new_events@,
                    open: open_events@.map_values(|u: usize| u as int),
                },
            ),
            forall|k: int|
                0 <= k < open_events@.len() ==> #[trigger] open_events@[k] < new_events@.len(),
            i < sorted@.len() ==> forall|k: int|
                0 <= k < open_events@.len()
                    ==> new_events@[#[trigger] open_events@[k] as int].ts <= sorted@[i as int].ts,
        decreases sorted@.len() - i,
    {
        let ghost st = DepthState {
            out: new_events@,
            open: open_events@.map_values(|u: usize| u as int),
        };
        let event = sorted[i];
        let class = types[event.event_type].class;
        proof {
            assert(class == class_of(classes, event));
            assert(sorted@.take(i + 1).drop_last() =~= sorted@.take(i as int));
            assert(sorted@.take(i + 1).last() == sorted@[i as int]);
        }
        match class {
            TraceEventClass::Standalone => {
                let depth = open_events.len() as u64;
                let placed = TraceEvent { depth, ..event };
                new_events.push(placed);
                proof {
                    let st2 = depth_step(st, event, class)->Ok_0;
                    assert(st2.out =~= new_events@);
                    assert(st2.open =~= open_events@.map_values(|u: usize| u as int));
                }
            },
            TraceEventClass::BeginEnd => {
                if event.finished {
                    if open_events.len() == 0 {
                        proof {
                            assert(depth_fold(sorted@.take(i + 1), classes, depth_init())
                                == Result::<DepthState, ErrKind>::Err(ErrKind::Underflow));
                            lemma_depth_fold_error(sorted@, classes, depth_init(), i + 1);
                        }
                        return Err(TraceError::new("No matching open event"));
                    }
                    let position = open_events[open_events.len() - 1];
                    open_events.pop();
                    let begin = new_events[position];
                    let closed = TraceEvent {
                        dur: event.ts - begin.ts,
                        finished: true,
                        ..begin
                    };
                    new_events[position] = closed;
                    proof {
                        let st2 = depth_step(st, event, class)->Ok_0;
                        assert(st.open.last() == position as int);
                        assert(st.open.drop_last() =~= open_events@.map_values(
                            |u: usize| u as int,
                        ));
                        assert(st2.out =~= new_events@);
                    }
                } else {
                    let depth = open_events.len() as u64;
                    let placed = TraceEvent { depth, ..event };
                    open_events.push(new_events.len());
                    new_events.push(placed);
                    proof {
                        let st2 = depth_step(st, event, class)->Ok_0;
                        assert(st2.out =~= new_events@);
                        assert(st2.open =~= open_events@.map_values(|u: usize| u as int));
                    }
                }
            },
            TraceEventClass::Async => {
                proof {
                    assert(depth_step(st, event, class) == Result::<DepthState, ErrKind>::Ok(st));
                }
            },
        }
        i = i + 1;
        proof {
            if i < sorted@.len() {
                assert forall|k: int|
                    0 <= k < open_events@.len() implies new_events@[#[trigger] open_events@[k] as int].ts
                    <= sorted@[i as int].ts by {
                    assert(sorted@[i - 1].ts <= sorted@[i as int].ts);
                }
            }
        }
    }
    proof {
        assert(sorted@.take(sorted@.len() as int) =~= sorted@);
    }
    Ok(new_events)
}

/// Once the fold has failed on a prefix, it fails on the whole list with
/// the same failure.
pub proof fn lemma_depth_fold_error(
    evs: Seq<TraceEvent>,
    classes: Seq<TraceEventClass>,
    st: DepthState,
    j: int,
)
    requires
        0 <= j <= evs.len(),
        depth_fold(evs.take(j), classes, st) is Err,
    ensures
        depth_fold(evs, classes, st) == depth_fold(evs.take(j), classes, st),
    decreases evs.len() - j,
{
    if j < evs.len() {
        assert(evs.take(j + 1).drop_last() =~= evs.take(j));
        lemma_depth_fold_error(evs, classes, st, j + 1);
    } else {
        assert(evs.take(j) =~= evs);
    }
}

} // verus!
