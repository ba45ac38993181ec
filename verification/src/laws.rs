//! The laws of the conversion, stated over whole trees: the frame table is a
//! bijection between the tree's distinct labels and a dense index range, the
//! event timeline never goes backward, opens and closes pair up properly
//! when every span has a duration, an already-consistent tree is emitted
//! verbatim with no correction, and conversion is deterministic.

use vstd::prelude::*;
use crate::emit::{EventKind, EventModel, conversion_events, conversion_table,
    conversion_timeline, emit_span, emit_spans_from, lemma_emit_span_monotone, times_sorted};
use crate::frames::{distinct_labels, label_index, lemma_table_after_span_extends,
    lemma_table_contents};
use crate::span::{Span, all_have_duration, all_have_duration_from, span_count, span_labels,
    spans_count_from};
use crate::timeline::{Timeline, correct};

verus! {

/// Law (frame uniqueness and density): the table a conversion builds maps
/// each distinct label of the tree to exactly one index, and since the table
/// is the sequence of labels in registration order, its index set is exactly
/// `[0, N)` for `N` registered labels.
pub proof fn lemma_frame_table_bijection(s: Span)
    ensures
        distinct_labels(conversion_table(s)),
        forall|m: Seq<char>| #[trigger] conversion_table(s).contains(m) <==> span_labels(
            s,
        ).contains(m),
{
    let e = Seq::<Seq<char>>::empty();
    lemma_table_after_span_extends(e, s);
    lemma_table_contents(e, s);
    assert forall|m: Seq<char>| !e.contains(m) by {
        assert(e.len() == 0);
    }
}

/// Law (monotonicity): for every tree, even one whose raw timestamps regress
/// across parent/child or sibling boundaries, the emitted event sequence is
/// non-decreasing in timestamp end to end.
pub proof fn lemma_conversion_monotone(s: Span)
    ensures
        times_sorted(conversion_events(s)),
        conversion_timeline(s).wf(),
{
    lemma_emit_span_monotone(conversion_table(s), s, Timeline::initial());
}

/// How many events in `evs` are of kind `k`.
pub open spec fn count_kind(evs: Seq<EventModel>, k: EventKind) -> int
    decreases evs.len(),
{
    if evs.len() == 0 {
        0
    } else {
        count_kind(evs.drop_last(), k) + if evs.last().kind == k {
            1int
        } else {
            0int
        }
    }
}

/// Counting distributes over concatenation.
proof fn lemma_count_concat(a: Seq<EventModel>, b: Seq<EventModel>, k: EventKind)
    ensures
        count_kind(a + b, k) == count_kind(a, k) + count_kind(b, k),
    decreases b.len(),
{
    if b.len() == 0 {
        assert(a + b =~= a);
    } else {
        assert((a + b).drop_last() =~= a + b.drop_last());
        assert((a + b).last() == b.last());
        lemma_count_concat(a, b.drop_last(), k);
    }
}

/// Proper nesting, as a grammar: the empty sequence is well nested, and so
/// is an open event followed by a well-nested body, the matching close event
/// with the same frame index, and a well-nested remainder. Closes therefore
/// occur in reverse order of the opens they match, like parentheses.
pub open spec fn well_nested(evs: Seq<EventModel>) -> bool
    decreases evs.len(),
{
    evs.len() == 0 || {
        &&& evs[0].kind == EventKind::Open
        &&& exists|j: int|
            1 <= j < evs.len() && (#[trigger] evs[j]).kind == EventKind::Close && evs[j].frame
                == evs[0].frame && well_nested(evs.subrange(1, j)) && well_nested(
                evs.subrange(j + 1, evs.len() as int),
            )
    }
}

/// Well-nested sequences are closed under concatenation.
proof fn lemma_well_nested_concat(a: Seq<EventModel>, b: Seq<EventModel>)
    requires
        well_nested(a),
        well_nested(b),
    ensures
        well_nested(a + b),
    decreases a.len(),
{
    if a.len() == 0 {
        assert(a + b =~= b);
    } else if b.len() == 0 {
        assert(a + b =~= a);
    } else {
        let c = a + b;
        let j = choose|j: int|
            1 <= j < a.len() && (#[trigger] a[j]).kind == EventKind::Close && a[j].frame
                == a[0].frame && well_nested(a.subrange(1, j)) && well_nested(
                a.subrange(j + 1, a.len() as int),
            );
        let y = a.subrange(j + 1, a.len() as int);
        lemma_well_nested_concat(y, b);
        assert(c.subrange(1, j) =~= a.subrange(1, j));
        assert(c.subrange(j + 1, c.len() as int) =~= y + b);
        assert(c[0] == a[0] && c[j] == a[j]);
        assert(1 <= j < c.len() && (#[trigger] c[j]).kind == EventKind::Close && c[j].frame
            == c[0].frame && well_nested(c.subrange(1, j)) && well_nested(
            c.subrange(j + 1, c.len() as int),
        ));
    }
}

/// The pairing law for one subtree.
pub proof fn lemma_pairing_span(t: Seq<Seq<char>>, s: Span, tl: Timeline)
    requires
        all_have_duration(s),
    ensures
        well_nested(emit_span(t, s, tl).0),
        count_kind(emit_span(t, s, tl).0, EventKind::Open) == span_count(s),
        count_kind(emit_span(t, s, tl).0, EventKind::Close) == span_count(s),
        emit_span(t, s, tl).0.len() == 2 * span_count(s),
    decreases s, 0nat,
{
    let d = s.duration->Some_0;
    let idx = label_index(t, s.type_label@);
    let o = correct(s.begin as int, tl);
    let mid = emit_spans_from(t, s.children@, 0, o.1);
    let cl = correct(s.begin + d, mid.1);
    lemma_pairing_spans_from(t, s.children@, 0, o.1);
    let e_o = seq![EventModel { kind: EventKind::Open, frame: idx, at: o.0 }];
    let e_c = seq![EventModel { kind: EventKind::Close, frame: idx, at: cl.0 }];
    let evs = emit_span(t, s, tl).0;
    assert(evs == (e_o + mid.0) + e_c);
    let j = 1 + mid.0.len() as int;
    assert(evs[0] == e_o[0]);
    assert(evs[j] == e_c[0]);
    assert(evs.subrange(1, j) =~= mid.0);
    assert(evs.subrange(j + 1, evs.len() as int) =~= Seq::<EventModel>::empty());
    assert(well_nested(Seq::<EventModel>::empty()));
    assert(1 <= j < evs.len() && (#[trigger] evs[j]).kind == EventKind::Close && evs[j].frame
        == evs[0].frame && well_nested(evs.subrange(1, j)) && well_nested(
        evs.subrange(j + 1, evs.len() as int),
    ));
    assert(e_o.drop_last() =~= Seq::<EventModel>::empty());
    assert(e_c.drop_last() =~= Seq::<EventModel>::empty());
    assert(count_kind(Seq::<EventModel>::empty(), EventKind::Open) == 0);
    assert(count_kind(Seq::<EventModel>::empty(), EventKind::Close) == 0);
    assert(e_o.last() == e_o[0] && e_c.last() == e_c[0]);
    assert(count_kind(e_o, EventKind::Open) == 1 && count_kind(e_o, EventKind::Close) == 0);
    assert(count_kind(e_c, EventKind::Open) == 0 && count_kind(e_c, EventKind::Close) == 1);
    lemma_count_concat(e_o, mid.0, EventKind::Open);
    lemma_count_concat(e_o + mid.0, e_c, EventKind::Open);
    lemma_count_concat(e_o, mid.0, EventKind::Close);
    lemma_count_concat(e_o + mid.0, e_c, EventKind::Close);
}

/// The pairing law for a run of sibling subtrees.
pub proof fn lemma_pairing_spans_from(t: Seq<Seq<char>>, ss: Seq<Span>, i: int, tl: Timeline)
    requires
        all_have_duration_from(ss, i),
    ensures
        well_nested(emit_spans_from(t, ss, i, tl).0),
        count_kind(emit_spans_from(t, ss, i, tl).0, EventKind::Open) == spans_count_from(ss, i),
        count_kind(emit_spans_from(t, ss, i, tl).0, EventKind::Close) == spans_count_from(ss, i),
        emit_spans_from(t, ss, i, tl).0.len() == 2 * spans_count_from(ss, i),
    decreases ss, ss.len() - i, 1nat,
{
    if 0 <= i < ss.len() {
        let h = emit_span(t, ss[i], tl);
        lemma_pairing_span(t, ss[i], tl);
        let r = emit_spans_from(t, ss, i + 1, h.1);
        lemma_pairing_spans_from(t, ss, i + 1, h.1);
        lemma_well_nested_concat(h.0, r.0);
        lemma_count_concat(h.0, r.0, EventKind::Open);
        lemma_count_concat(h.0, r.0, EventKind::Close);
    }
}

/// Law (pairing): in a tree where every span has a duration, the conversion
/// emits exactly one open and one close event per span, and the sequence is
/// properly nested: each open is matched by a later close with the same
/// frame index, closes occurring in reverse order of their opens.
pub proof fn lemma_conversion_pairing(s: Span)
    requires
        all_have_duration(s),
    ensures
        well_nested(conversion_events(s)),
        count_kind(conversion_events(s), EventKind::Open) == span_count(s),
        count_kind(conversion_events(s), EventKind::Close) == span_count(s),
        conversion_events(s).len() == 2 * span_count(s),
{
    lemma_pairing_span(conversion_table(s), s, Timeline::initial());
}

/// A tree whose recorded timestamps are already consistent: every span has a
/// duration, each child begins no earlier than its parent's begin (or its
/// previous sibling's end) and ends no later than the start of what follows
/// it, and the last child ends no later than its parent.
pub open spec fn consistent(s: Span) -> bool
    decreases s, 0nat,
{
    match s.duration {
        Option::Some(d) => consistent_from(s.children@, 0, s.begin as int, s.begin + d),
        Option::None => false,
    }
}

/// The subtrees `ss[i..]` are consistent and fill, in order, the window from
/// `lo` to `hi`: each begins no earlier than the previous one ended.
pub open spec fn consistent_from(ss: Seq<Span>, i: int, lo: int, hi: int) -> bool
    decreases ss, ss.len() - i, 1nat,
{
    if 0 <= i < ss.len() {
        match ss[i].duration {
            Option::Some(d) => consistent(ss[i]) && lo <= ss[i].begin as int && consistent_from(
                ss,
                i + 1,
                ss[i].begin + d,
                hi,
            ),
            Option::None => false,
        }
    } else {
        lo <= hi
    }
}

/// The events of the tree with its raw, uncorrected timestamps.
pub open spec fn raw_events_span(t: Seq<Seq<char>>, s: Span) -> Seq<EventModel>
    decreases s, 0nat,
{
    match s.duration {
        Option::Some(d) => {
            let idx = label_index(t, s.type_label@);
            seq![EventModel { kind: EventKind::Open, frame: idx, at: s.begin as int }]
                + raw_events_spans_from(t, s.children@, 0)
                + seq![EventModel { kind: EventKind::Close, frame: idx, at: s.begin + d }]
        },
        Option::None => raw_events_spans_from(t, s.children@, 0),
    }
}

/// The raw events of the subtrees `ss[i..]`, in order.
pub open spec fn raw_events_spans_from(t: Seq<Seq<char>>, ss: Seq<Span>, i: int) -> Seq<EventModel>
    decreases ss, ss.len() - i, 1nat,
{
    if 0 <= i < ss.len() {
        raw_events_span(t, ss[i]) + raw_events_spans_from(t, ss, i + 1)
    } else {
        Seq::empty()
    }
}

/// The no-correction law for one subtree.
pub proof fn lemma_no_correction_span(t: Seq<Seq<char>>, s: Span, tl: Timeline)
    requires
        consistent(s),
        tl.wf(),
        tl.slop == 0,
        tl.last <= s.begin as int,
    ensures
        emit_span(t, s, tl).0 == raw_events_span(t, s),
        emit_span(t, s, tl).1.slop == 0,
        emit_span(t, s, tl).1.corrections == tl.corrections,
        emit_span(t, s, tl).1.last == s.begin + s.duration->Some_0,
    decreases s, 0nat,
{
    let d = s.duration->Some_0;
    let o = correct(s.begin as int, tl);
    assert(o.0 == s.begin as int && o.1.slop == 0 && o.1.last == s.begin as int);
    lemma_no_correction_from(t, s.children@, 0, o.1, s.begin as int, s.begin + d);
    let mid = emit_spans_from(t, s.children@, 0, o.1);
    let cl = correct(s.begin + d, mid.1);
    assert(cl.0 == s.begin + d && cl.1.slop == 0);
    assert(emit_span(t, s, tl).0 =~= raw_events_span(t, s));
}

/// The no-correction law for a run of sibling subtrees.
pub proof fn lemma_no_correction_from(t: Seq<Seq<char>>, ss: Seq<Span>, i: int, tl: Timeline, lo: int, hi: int)
    requires
        consistent_from(ss, i, lo, hi),
        tl.wf(),
        tl.slop == 0,
        tl.last <= lo,
    ensures
        emit_spans_from(t, ss, i, tl).0 == raw_events_spans_from(t, ss, i),
        emit_spans_from(t, ss, i, tl).1.slop == 0,
        emit_spans_from(t, ss, i, tl).1.corrections == tl.corrections,
        emit_spans_from(t, ss, i, tl).1.last <= hi,
    decreases ss, ss.len() - i, 1nat,
{
    if 0 <= i < ss.len() {
        let d = ss[i].duration->Some_0;
        lemma_no_correction_span(t, ss[i], tl);
        let h = emit_span(t, ss[i], tl);
        lemma_no_correction_from(t, ss, i + 1, h.1, ss[i].begin + d, hi);
        assert(emit_spans_from(t, ss, i, tl).0 =~= raw_events_spans_from(t, ss, i));
    } else {
        assert(emit_spans_from(t, ss, i, tl).0 =~= raw_events_spans_from(t, ss, i));
    }
}

/// Law (no correction needed): when the input timestamps are already
/// consistent, the conversion applies no correction at all: the slop stays
/// zero, no warning is raised, and every output timestamp equals the raw
/// input timestamp.
pub proof fn lemma_conversion_no_correction(s: Span)
    requires
        consistent(s),
    ensures
        conversion_events(s) == raw_events_span(conversion_table(s), s),
        conversion_timeline(s).slop == 0,
        conversion_timeline(s).corrections == 0,
{
    lemma_no_correction_span(conversion_table(s), s, Timeline::initial());
}

/// Law (determinism): the conversion is a pure function of the tree. Two
/// conversions of equal trees yield identical frame tables, event sequences,
/// and final timelines, because each is pinned to the same model of the
/// input; no state is shared across conversions.
pub proof fn lemma_conversion_deterministic(a: Span, b: Span)
    requires
        a == b,
    ensures
        conversion_table(a) == conversion_table(b),
        conversion_events(a) == conversion_events(b),
        conversion_timeline(a) == conversion_timeline(b),
{
}

} // verus!
