//! The event emitter: a depth-first walk of the span tree that produces the
//! flat event sequence. A span with a recorded duration contributes an open
//! event at its (corrected) begin timestamp before its children and a close
//! event at its (corrected) end timestamp after them; a span without one
//! contributes no events of its own but its children are still visited.
//! Every candidate timestamp passes through the monotonicity policy, so the
//! produced sequence never goes backward in time.

use vstd::prelude::*;
use crate::frames::{FrameTable, index_frames, label_index, lemma_label_index_first,
    span_labels_in, spans_labels_in_from, table_after_span};
use crate::span::Span;
use crate::timeline::{Timeline, TimelineState, correct, lemma_correct};

verus! {

/// Whether an event opens a frame or closes it.
#[derive(Clone, Copy, PartialEq, Eq, Structural, Debug)]
pub enum EventKind {
    Open,
    Close,
}

/// One emitted event: open or close of the frame at index `frame`, at the
/// corrected timestamp `at` (nanoseconds).
#[derive(Clone, Copy, PartialEq, Eq, Structural, Debug)]
pub struct Event {
    pub kind: EventKind,
    pub frame: usize,
    pub at: u64,
}

/// The mathematical event: the same data over unbounded integers.
pub struct EventModel {
    pub kind: EventKind,
    pub frame: int,
    pub at: int,
}

impl View for Event {
    type V = EventModel;

    open spec fn view(&self) -> EventModel {
        EventModel { kind: self.kind, frame: self.frame as int, at: self.at as int }
    }
}

/// The emitted events as their mathematical counterparts.
pub open spec fn events_view(evs: Seq<Event>) -> Seq<EventModel> {
    evs.map_values(|e: Event| e@)
}

/// The events and final timeline produced by walking the tree rooted at `s`
/// against the registered labels `t`, starting from timeline `tl`.
pub open spec fn emit_span(t: Seq<Seq<char>>, s: Span, tl: Timeline) -> (Seq<EventModel>, Timeline)
    decreases s, 0nat,
{
    match s.duration {
        Option::Some(d) => {
            let idx = label_index(t, s.type_label@);
            let o = correct(s.begin as int, tl);
            let mid = emit_spans_from(t, s.children@, 0, o.1);
            let cl = correct(s.begin + d, mid.1);
            (
                seq![EventModel { kind: EventKind::Open, frame: idx, at: o.0 }] + mid.0
                    + seq![EventModel { kind: EventKind::Close, frame: idx, at: cl.0 }],
                cl.1,
            )
        },
        Option::None => emit_spans_from(t, s.children@, 0, tl),
    }
}

/// The events and final timeline produced by walking the subtrees `ss[i..]`
/// in order, threading the timeline through.
pub open spec fn emit_spans_from(t: Seq<Seq<char>>, ss: Seq<Span>, i: int, tl: Timeline) -> (
    Seq<EventModel>,
    Timeline,
)
    decreases ss, ss.len() - i, 1nat,
{
    if 0 <= i < ss.len() {
        let h = emit_span(t, ss[i], tl);
        let r = emit_spans_from(t, ss, i + 1, h.1);
        (h.0 + r.0, r.1)
    } else {
        (Seq::empty(), tl)
    }
}

/// Every timestamp in `evs` lies in `[lo, hi]`.
pub open spec fn times_bounded(evs: Seq<EventModel>, lo: int, hi: int) -> bool {
    forall|k: int| 0 <= k < evs.len() ==> lo <= #[trigger] evs[k].at <= hi
}

/// The timestamps in `evs` are non-decreasing end to end.
pub open spec fn times_sorted(evs: Seq<EventModel>) -> bool {
    forall|k1: int, k2: int| 0 <= k1 < k2 < evs.len() ==> #[trigger] evs[k1].at <= #[trigger] evs[k2].at
}

/// Concatenating two sorted runs whose bounds meet gives a sorted run.
proof fn lemma_sorted_bounded_concat(a: Seq<EventModel>, b: Seq<EventModel>, lo: int, m: int, hi: int)
    requires
        times_sorted(a),
        times_sorted(b),
        times_bounded(a, lo, m),
        times_bounded(b, m, hi),
        lo <= m <= hi,
    ensures
        times_sorted(a + b),
        times_bounded(a + b, lo, hi),
{
    let c = a + b;
    assert forall|k: int| 0 <= k < c.len() implies lo <= #[trigger] c[k].at <= hi by {
        if k < a.len() {
            assert(c[k] == a[k]);
        } else {
            assert(c[k] == b[k - a.len()]);
        }
    }
    assert forall|k1: int, k2: int| 0 <= k1 < k2 < c.len() implies #[trigger] c[k1].at <= #[trigger] c[k2].at by {
        if k2 < a.len() {
            assert(c[k1] == a[k1] && c[k2] == a[k2]);
        } else if k1 >= a.len() {
            assert(c[k1] == b[k1 - a.len()] && c[k2] == b[k2 - a.len()]);
        } else {
            assert(c[k1] == a[k1] && c[k2] == b[k2 - a.len()]);
        }
    }
}

/// The core safety law of the emitter: starting from a well-formed timeline,
/// the walk keeps the timeline well-formed; the last emitted timestamp, the
/// slop, and the correction count never decrease; every emitted timestamp
/// lies between the entering and the final last-emitted timestamp; and the
/// emitted timestamps are non-decreasing end to end.
pub proof fn lemma_emit_span_monotone(t: Seq<Seq<char>>, s: Span, tl: Timeline)
    requires
        tl.wf(),
    ensures
        emit_span(t, s, tl).1.wf(),
        tl.last <= emit_span(t, s, tl).1.last,
        tl.slop <= emit_span(t, s, tl).1.slop,
        tl.corrections <= emit_span(t, s, tl).1.corrections,
        times_bounded(emit_span(t, s, tl).0, tl.last, emit_span(t, s, tl).1.last),
        times_sorted(emit_span(t, s, tl).0),
    decreases s, 0nat,
{
    match s.duration {
        Option::Some(d) => {
            let idx = label_index(t, s.type_label@);
            let o = correct(s.begin as int, tl);
            lemma_correct(s.begin as int, tl);
            let mid = emit_spans_from(t, s.children@, 0, o.1);
            lemma_emit_spans_from_monotone(t, s.children@, 0, o.1);
            let cl = correct(s.begin + d, mid.1);
            lemma_correct(s.begin + d, mid.1);
            let e_o = seq![EventModel { kind: EventKind::Open, frame: idx, at: o.0 }];
            let e_c = seq![EventModel { kind: EventKind::Close, frame: idx, at: cl.0 }];
            assert(times_bounded(e_o, tl.last, o.1.last));
            assert(times_bounded(e_c, mid.1.last, cl.1.last));
            lemma_sorted_bounded_concat(e_o, mid.0, tl.last, o.1.last, mid.1.last);
            lemma_sorted_bounded_concat(e_o + mid.0, e_c, tl.last, mid.1.last, cl.1.last);
            assert(emit_span(t, s, tl).0 == (e_o + mid.0) + e_c);
        },
        Option::None => {
            lemma_emit_spans_from_monotone(t, s.children@, 0, tl);
        },
    }
}

/// The same safety law for a run of sibling subtrees.
pub proof fn lemma_emit_spans_from_monotone(t: Seq<Seq<char>>, ss: Seq<Span>, i: int, tl: Timeline)
    requires
        tl.wf(),
    ensures
        emit_spans_from(t, ss, i, tl).1.wf(),
        tl.last <= emit_spans_from(t, ss, i, tl).1.last,
        tl.slop <= emit_spans_from(t, ss, i, tl).1.slop,
        tl.corrections <= emit_spans_from(t, ss, i, tl).1.corrections,
        times_bounded(emit_spans_from(t, ss, i, tl).0, tl.last, emit_spans_from(t, ss, i, tl).1.last),
        times_sorted(emit_spans_from(t, ss, i, tl).0),
    decreases ss, ss.len() - i, 1nat,
{
    if 0 <= i < ss.len() {
        let h = emit_span(t, ss[i], tl);
        lemma_emit_span_monotone(t, ss[i], tl);
        let r = emit_spans_from(t, ss, i + 1, h.1);
        lemma_emit_spans_from_monotone(t, ss, i + 1, h.1);
        lemma_sorted_bounded_concat(h.0, r.0, tl.last, h.1.last, r.1.last);
    }
}

/// Walks the tree rooted at `input` depth-first and appends its events to
/// `out`, threading the timeline state `st` through every step. A span with
/// a recorded duration contributes an open event before its children and a
/// close event after them; one without contributes no events of its own.
/// The requirement on the final last-emitted timestamp says exactly that the
/// corrected timeline fits in the timestamp type.
pub fn build_events(input: &Span, table: &FrameTable, st: &mut TimelineState, out: &mut Vec<Event>)
    requires
        old(st)@.wf(),
        span_labels_in(table@, *input),
        emit_span(table@, *input, old(st)@).1.last <= u64::MAX,
    ensures
        final(st)@ == emit_span(table@, *input, old(st)@).1,
        final(st)@.wf(),
        events_view(final(out)@) == events_view(old(out)@) + emit_span(table@, *input, old(st)@).0,
    decreases *input,
{
    let ghost t = table@;
    let ghost tl0 = st@;
    let ghost model = emit_span(t, *input, tl0);
    proof {
        lemma_emit_span_monotone(t, *input, tl0);
    }
    let idx = match table.lookup(&input.type_label) {
        Some(i) => i,
        None => {
            proof {
                assert(false);
            }
            0
        },
    };
    proof {
        lemma_label_index_first(t, input.type_label@, idx as int);
    }
    let ghost out0 = out@;
    let ghost o = correct(input.begin as int, tl0);
    if let Some(d) = input.duration {
        proof {
            lemma_correct(input.begin as int, tl0);
            lemma_emit_spans_from_monotone(t, input.children@, 0, o.1);
            let mid0 = emit_spans_from(t, input.children@, 0, o.1);
            lemma_correct(input.begin + d, mid0.1);
            assert(input.begin + tl0.slop <= u64::MAX);
        }
        let at = st.advance(input.begin);
        out.push(Event { kind: EventKind::Open, frame: idx, at });
        proof {
            assert(events_view(out@) =~= events_view(out0)
                + seq![EventModel { kind: EventKind::Open, frame: idx as int, at: o.0 }]);
        }
    }
    let ghost tl1 = st@;
    let ghost out1 = out@;
    let ghost mid = emit_spans_from(t, input.children@, 0, tl1);
    proof {
        lemma_emit_spans_from_monotone(t, input.children@, 0, tl1);
        if input.duration is Some {
            let d = input.duration->Some_0;
            lemma_correct(input.begin + d, mid.1);
            assert(mid.1.last <= model.1.last);
        }
    }
    let mut i: usize = 0;
    while i < input.children.len()
        invariant
            0 <= i <= input.children@.len(),
            st@.wf(),
            spans_labels_in_from(t, input.children@, i as int),
            table@ == t,
            emit_spans_from(t, input.children@, i as int, st@).1 == mid.1,
            events_view(out1) + mid.0 == events_view(out@)
                + emit_spans_from(t, input.children@, i as int, st@).0,
            mid.1.last <= model.1.last <= u64::MAX,
        decreases input.children@.len() - i,
    {
        let ghost tl_i = st@;
        let ghost h = emit_span(t, input.children@[i as int], tl_i);
        proof {
            lemma_emit_span_monotone(t, input.children@[i as int], tl_i);
            lemma_emit_spans_from_monotone(t, input.children@, i + 1, h.1);
            assert(h.1.last <= emit_spans_from(t, input.children@, i as int, tl_i).1.last);
        }
        build_events(&input.children[i], table, st, out);
        proof {
            assert(emit_spans_from(t, input.children@, i as int, tl_i).0
                =~= h.0 + emit_spans_from(t, input.children@, i + 1, h.1).0);
            assert(events_view(out1) + mid.0 =~= events_view(out@)
                + emit_spans_from(t, input.children@, i + 1, st@).0);
        }
        i = i + 1;
    }
    proof {
        assert(st@ == mid.1);
        assert(emit_spans_from(t, input.children@, input.children@.len() as int, st@).0
            =~= Seq::<EventModel>::empty());
        assert(events_view(out1) + mid.0 =~= events_view(out@));
    }
    if let Some(d) = input.duration {
        proof {
            lemma_correct(input.begin + d, mid.1);
            assert(input.begin + d <= correct(input.begin + d, mid.1).0);
            assert(correct(input.begin + d, mid.1).0 == model.1.last);
            assert(input.begin + d + mid.1.slop <= u64::MAX);
        }
        let t_close = input.begin + d;
        let at = st.advance(t_close);
        let ghost cl = correct(t_close as int, mid.1);
        out.push(Event { kind: EventKind::Close, frame: idx, at });
        proof {
            assert(events_view(out@) =~= events_view(out1) + mid.0
                + seq![EventModel { kind: EventKind::Close, frame: idx as int, at: cl.0 }]);
            assert(events_view(out@) =~= events_view(out0) + model.0);
        }
    } else {
        proof {
            assert(events_view(out@) =~= events_view(out0) + model.0);
        }
    }
}

/// The registered labels a whole conversion of the tree `s` produces,
/// starting from an empty table.
pub open spec fn conversion_table(s: Span) -> Seq<Seq<char>> {
    table_after_span(Seq::empty(), s)
}

/// The events a whole conversion of the tree `s` produces.
pub open spec fn conversion_events(s: Span) -> Seq<EventModel> {
    emit_span(conversion_table(s), s, Timeline::initial()).0
}

/// The final timeline of a whole conversion of the tree `s`.
pub open spec fn conversion_timeline(s: Span) -> Timeline {
    emit_span(conversion_table(s), s, Timeline::initial()).1
}

/// The sum of the raw candidate timestamps of the tree: for each span with a
/// duration, its begin and its end. One correction step can raise the last
/// emitted timestamp by at most the event's raw candidate, so this sum
/// bounds the whole corrected timeline.
pub open spec fn candidate_sum_span(s: Span) -> int
    decreases s, 0nat,
{
    (match s.duration {
        Option::Some(d) => s.begin + (s.begin + d),
        Option::None => 0,
    }) + candidate_sum_from(s.children@, 0)
}

/// The same sum over the subtrees `ss[i..]`.
pub open spec fn candidate_sum_from(ss: Seq<Span>, i: int) -> int
    decreases ss, ss.len() - i, 1nat,
{
    if 0 <= i < ss.len() {
        candidate_sum_span(ss[i]) + candidate_sum_from(ss, i + 1)
    } else {
        0
    }
}

/// The candidate sums are sums of timestamps, hence non-negative.
pub proof fn lemma_candidate_sum_nonneg(s: Span)
    ensures
        candidate_sum_span(s) >= 0,
    decreases s, 0nat,
{
    lemma_candidate_sum_from_nonneg(s.children@, 0);
}

/// The same for sibling subtrees.
pub proof fn lemma_candidate_sum_from_nonneg(ss: Seq<Span>, i: int)
    ensures
        candidate_sum_from(ss, i) >= 0,
    decreases ss, ss.len() - i, 1nat,
{
    if 0 <= i < ss.len() {
        lemma_candidate_sum_nonneg(ss[i]);
        lemma_candidate_sum_from_nonneg(ss, i + 1);
    }
}

/// The corrected timeline is bounded by the candidate sum: a correction
/// never clamps an event beyond the previously emitted timestamp, and an
/// uncorrected event lands at its candidate plus a slop that well-formedness
/// keeps below the previously emitted timestamp.
pub proof fn lemma_emit_span_last_bound(t: Seq<Seq<char>>, s: Span, tl: Timeline)
    requires
        tl.wf(),
    ensures
        emit_span(t, s, tl).1.last <= tl.last + candidate_sum_span(s),
    decreases s, 0nat,
{
    match s.duration {
        Option::Some(d) => {
            let o = correct(s.begin as int, tl);
            lemma_correct(s.begin as int, tl);
            let mid = emit_spans_from(t, s.children@, 0, o.1);
            lemma_emit_spans_from_monotone(t, s.children@, 0, o.1);
            lemma_emit_spans_from_last_bound(t, s.children@, 0, o.1);
            lemma_correct(s.begin + d, mid.1);
        },
        Option::None => {
            lemma_emit_spans_from_last_bound(t, s.children@, 0, tl);
        },
    }
}

/// The same bound for a run of sibling subtrees.
pub proof fn lemma_emit_spans_from_last_bound(t: Seq<Seq<char>>, ss: Seq<Span>, i: int, tl: Timeline)
    requires
        tl.wf(),
    ensures
        emit_spans_from(t, ss, i, tl).1.last <= tl.last + candidate_sum_from(ss, i),
    decreases ss, ss.len() - i, 1nat,
{
    if 0 <= i < ss.len() {
        let h = emit_span(t, ss[i], tl);
        lemma_emit_span_monotone(t, ss[i], tl);
        lemma_emit_span_last_bound(t, ss[i], tl);
        lemma_emit_spans_from_last_bound(t, ss, i + 1, h.1);
    }
}

/// Computes the candidate sum of the tree, or `None` when it does not fit in
/// the timestamp type.
pub fn candidate_sum(s: &Span) -> (r: Option<u64>)
    ensures
        match r {
            Some(v) => v == candidate_sum_span(*s),
            None => candidate_sum_span(*s) > u64::MAX,
        },
    decreases *s,
{
    proof {
        lemma_candidate_sum_from_nonneg(s.children@, 0);
    }
    let mut total: u64 = 0;
    if let Some(d) = s.duration {
        let end = match s.begin.checked_add(d) {
            Some(end) => end,
            None => {
                return None;
            },
        };
        total = match s.begin.checked_add(end) {
            Some(v) => v,
            None => {
                return None;
            },
        };
    }
    let ghost own = total as int;
    let mut i: usize = 0;
    while i < s.children.len()
        invariant
            0 <= i <= s.children@.len(),
            own + candidate_sum_from(s.children@, 0) == candidate_sum_span(*s),
            own <= total,
            total + candidate_sum_from(s.children@, i as int) == own + candidate_sum_from(
                s.children@,
                0,
            ),
        decreases s.children@.len() - i,
    {
        proof {
            lemma_candidate_sum_nonneg(s.children@[i as int]);
            lemma_candidate_sum_from_nonneg(s.children@, i + 1);
        }
        let c = match candidate_sum(&s.children[i]) {
            Some(c) => c,
            None => {
                return None;
            },
        };
        total = match total.checked_add(c) {
            Some(v) => v,
            None => {
                return None;
            },
        };
        i = i + 1;
    }
    Some(total)
}

/// One whole conversion: registers the frames of the tree in pre-order, then
/// emits its events against that table with a fresh timeline state. Returns
/// the frame table, the event sequence, and the final timeline state (whose
/// correction count is the number of advisory warnings the walk raised).
/// The requirement says exactly that the corrected timeline fits in the
/// timestamp type.
pub fn convert_tree(root: &Span) -> (r: (FrameTable, Vec<Event>, TimelineState))
    requires
        conversion_timeline(*root).last <= u64::MAX,
    ensures
        r.0@ == conversion_table(*root),
        crate::frames::distinct_labels(r.0@),
        events_view(r.1@) == conversion_events(*root),
        r.2@ == conversion_timeline(*root),
{
    let mut table = FrameTable::new();
    proof {
        assert(table@ =~= Seq::<Seq<char>>::empty());
    }
    index_frames(root, &mut table);
    proof {
        crate::frames::lemma_table_covers(Seq::empty(), *root);
    }
    let mut st = TimelineState::new();
    let mut out: Vec<Event> = Vec::new();
    build_events(root, &table, &mut st, &mut out);
    proof {
        assert(events_view(out@) =~= conversion_events(*root));
    }
    (table, out, st)
}

/// The checked entry point: converts the tree whenever the conservative
/// bound on the corrected timeline — the tree's candidate sum — fits in the
/// timestamp type, and reports `None` exactly when that bound does not fit,
/// instead of demanding anything of the caller.
pub fn try_convert_tree(root: &Span) -> (r: Option<(FrameTable, Vec<Event>, TimelineState)>)
    ensures
        match r {
            Some(res) => res.0@ == conversion_table(*root) && crate::frames::distinct_labels(
                res.0@,
            ) && events_view(res.1@) == conversion_events(*root) && res.2@ == conversion_timeline(
                *root,
            ),
            None => candidate_sum_span(*root) > u64::MAX,
        },
{
    match candidate_sum(root) {
        Some(_) => {
            proof {
                lemma_emit_span_last_bound(conversion_table(*root), *root, Timeline::initial());
            }
            Some(convert_tree(root))
        },
        None => None,
    }
}

} // verus!
