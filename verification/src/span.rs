//! The input data model: a tree of timed spans, and spec-level views of the
//! tree (its labels in pre-order, its span count, shape predicates).

use vstd::prelude::*;

verus! {

/// One recorded unit of work: a start time (nanoseconds), a type label, an
/// optional duration (absent when the span's completion was not recorded),
/// and the ordered children nested inside it.
pub struct Span {
    pub begin: u64,
    pub type_label: String,
    pub duration: Option<u64>,
    pub children: Vec<Span>,
}

/// The labels of a span tree in pre-order: the span's own label, then the
/// labels of each child subtree, in child order.
pub open spec fn span_labels(s: Span) -> Seq<Seq<char>>
    decreases s, 0nat,
{
    seq![s.type_label@] + spans_labels_from(s.children@, 0)
}

/// The labels of the subtrees `ss[i..]`, in pre-order.
pub open spec fn spans_labels_from(ss: Seq<Span>, i: int) -> Seq<Seq<char>>
    decreases ss, ss.len() - i, 1nat,
{
    if 0 <= i < ss.len() {
        span_labels(ss[i]) + spans_labels_from(ss, i + 1)
    } else {
        Seq::empty()
    }
}

/// The number of spans in the tree.
pub open spec fn span_count(s: Span) -> nat
    decreases s, 0nat,
{
    1 + spans_count_from(s.children@, 0)
}

/// The number of spans in the subtrees `ss[i..]`.
pub open spec fn spans_count_from(ss: Seq<Span>, i: int) -> nat
    decreases ss, ss.len() - i, 1nat,
{
    if 0 <= i < ss.len() {
        span_count(ss[i]) + spans_count_from(ss, i + 1)
    } else {
        0
    }
}

/// Every span in the tree has a recorded duration.
pub open spec fn all_have_duration(s: Span) -> bool
    decreases s, 0nat,
{
    s.duration is Some && all_have_duration_from(s.children@, 0)
}

/// Every span in the subtrees `ss[i..]` has a recorded duration.
pub open spec fn all_have_duration_from(ss: Seq<Span>, i: int) -> bool
    decreases ss, ss.len() - i, 1nat,
{
    if 0 <= i < ss.len() {
        all_have_duration(ss[i]) && all_have_duration_from(ss, i + 1)
    } else {
        true
    }
}

/// `r` is `s` with every missing duration filled in as zero: same begin,
/// same label, same shape, and the children likewise filled.
pub open spec fn zero_filled(s: Span, r: Span) -> bool
    decreases s, 0nat,
{
    &&& r.begin == s.begin
    &&& r.type_label@ == s.type_label@
    &&& r.duration == (match s.duration {
        Option::Some(d) => Option::Some(d),
        Option::None => Option::Some(0u64),
    })
    &&& r.children@.len() == s.children@.len()
    &&& zero_filled_from(s.children@, r.children@, 0)
}

/// The children `ss[i..]` and `rr[i..]` are pairwise zero-filled.
pub open spec fn zero_filled_from(ss: Seq<Span>, rr: Seq<Span>, i: int) -> bool
    decreases ss, ss.len() - i, 1nat,
{
    if 0 <= i < ss.len() {
        i < rr.len() && zero_filled(ss[i], rr[i]) && zero_filled_from(ss, rr, i + 1)
    } else {
        true
    }
}

/// Pairwise zero-filled children, gathered from a pointwise fact.
proof fn lemma_zero_filled_from(ss: Seq<Span>, rr: Seq<Span>, i: int)
    requires
        ss.len() == rr.len(),
        forall|j: int| i <= j < ss.len() ==> zero_filled(ss[j], #[trigger] rr[j]),
    ensures
        zero_filled_from(ss, rr, i),
    decreases ss.len() - i,
{
    if 0 <= i < ss.len() {
        lemma_zero_filled_from(ss, rr, i + 1);
    }
}

/// A zero-filled tree has a duration on every span, so the emitter opens and
/// closes a frame for each of its spans.
pub proof fn lemma_zero_filled_all_have_duration(s: Span, r: Span)
    requires
        zero_filled(s, r),
    ensures
        all_have_duration(r),
    decreases s, 0nat,
{
    lemma_zero_filled_all_from(s.children@, r.children@, 0);
}

/// The same for sibling subtrees.
proof fn lemma_zero_filled_all_from(ss: Seq<Span>, rr: Seq<Span>, i: int)
    requires
        ss.len() == rr.len(),
        zero_filled_from(ss, rr, i),
    ensures
        all_have_duration_from(rr, i),
    decreases ss, ss.len() - i, 1nat,
{
    if 0 <= i < ss.len() {
        lemma_zero_filled_all_have_duration(ss[i], rr[i]);
        lemma_zero_filled_all_from(ss, rr, i + 1);
    }
}

/// The explicit alternative to skipping duration-less spans: a copy of the
/// tree in which a span without a recorded duration gets a zero-length one,
/// so that converting the copy wraps its children in an enclosing open/close
/// pair instead of emitting them as orphans. Callers choose the policy by
/// converting either the original tree or this copy.
pub fn synthesize_zero_durations(s: &Span) -> (r: Span)
    ensures
        zero_filled(*s, r),
    decreases *s,
{
    let duration = match s.duration {
        Some(d) => Some(d),
        None => Some(0),
    };
    let mut children: Vec<Span> = Vec::new();
    let mut i: usize = 0;
    while i < s.children.len()
        invariant
            0 <= i <= s.children@.len(),
            children@.len() == i,
            forall|j: int| 0 <= j < i ==> zero_filled(s.children@[j], #[trigger] children@[j]),
        decreases s.children@.len() - i,
    {
        children.push(synthesize_zero_durations(&s.children[i]));
        i = i + 1;
    }
    proof {
        lemma_zero_filled_from(s.children@, children@, 0);
    }
    Span { begin: s.begin, type_label: s.type_label.clone(), duration, children }
}

} // verus!
