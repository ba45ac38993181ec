//! The frame table: a deduplicating registry that maps each distinct span
//! type label to a stable integer index, assigned in first-encounter order
//! during a pre-order walk of the span tree. Its model is the sequence of
//! registered labels; a label's index is its position in that sequence, so
//! the indices are exactly `[0, N)` for `N` registered labels.

use vstd::prelude::*;
use crate::span::{Span, span_labels, spans_labels_from};

verus! {

/// One registered label. All spans sharing a type label share this entry.
pub struct Frame {
    pub label: String,
}

/// The deduplicating label registry. Its view is the sequence of registered
/// labels in registration order; a label's frame index is its position.
pub struct FrameTable {
    pub frames: Vec<Frame>,
}

impl View for FrameTable {
    type V = Seq<Seq<char>>;

    open spec fn view(&self) -> Seq<Seq<char>> {
        self.frames@.map_values(|f: Frame| f.label@)
    }
}

/// No label occurs twice: each label has exactly one index.
pub open spec fn distinct_labels(t: Seq<Seq<char>>) -> bool {
    forall|i: int, j: int| 0 <= i < j < t.len() ==> t[i] != t[j]
}

/// The table after registering one label: unchanged if the label is already
/// present, else the label appended at the next index.
pub open spec fn push_label(t: Seq<Seq<char>>, l: Seq<char>) -> Seq<Seq<char>> {
    if t.contains(l) {
        t
    } else {
        t.push(l)
    }
}

/// The table after a pre-order walk of the tree rooted at `s`.
pub open spec fn table_after_span(t: Seq<Seq<char>>, s: Span) -> Seq<Seq<char>>
    decreases s, 0nat,
{
    table_after_spans_from(push_label(t, s.type_label@), s.children@, 0)
}

/// The table after pre-order walks of the subtrees `ss[i..]`, in order.
pub open spec fn table_after_spans_from(t: Seq<Seq<char>>, ss: Seq<Span>, i: int) -> Seq<Seq<char>>
    decreases ss, ss.len() - i, 1nat,
{
    if 0 <= i < ss.len() {
        table_after_spans_from(table_after_span(t, ss[i]), ss, i + 1)
    } else {
        t
    }
}

/// The index of the first occurrence of `l` in `t` (meaningful only when
/// `t.contains(l)`): the frame index a span with label `l` resolves to.
pub open spec fn label_index(t: Seq<Seq<char>>, l: Seq<char>) -> int
    decreases t.len(),
{
    if t.len() == 0 {
        0
    } else if t[0] == l {
        0
    } else {
        1 + label_index(t.subrange(1, t.len() as int), l)
    }
}

/// A first match at position `i` is what `label_index` returns.
pub proof fn lemma_label_index_first(t: Seq<Seq<char>>, l: Seq<char>, i: int)
    requires
        0 <= i < t.len(),
        t[i] == l,
        forall|j: int| 0 <= j < i ==> t[j] != l,
    ensures
        label_index(t, l) == i,
    decreases t.len(),
{
    if t[0] == l {
        assert(i == 0);
    } else {
        let rest = t.subrange(1, t.len() as int);
        assert(rest[i - 1] == t[i]);
        assert(forall|j: int| 0 <= j < i - 1 ==> rest[j] == t[j + 1] && rest[j] != l);
        lemma_label_index_first(rest, l, i - 1);
    }
}

/// Every label in the tree rooted at `s` is registered in `t`.
pub open spec fn span_labels_in(t: Seq<Seq<char>>, s: Span) -> bool
    decreases s, 0nat,
{
    t.contains(s.type_label@) && spans_labels_in_from(t, s.children@, 0)
}

/// Every label in the subtrees `ss[i..]` is registered in `t`.
pub open spec fn spans_labels_in_from(t: Seq<Seq<char>>, ss: Seq<Span>, i: int) -> bool
    decreases ss, ss.len() - i, 1nat,
{
    if 0 <= i < ss.len() {
        span_labels_in(t, ss[i]) && spans_labels_in_from(t, ss, i + 1)
    } else {
        true
    }
}

impl FrameTable {
    /// An empty registry.
    pub fn new() -> (r: FrameTable)
        ensures
            r@ == Seq::<Seq<char>>::empty(),
    {
        FrameTable { frames: Vec::new() }
    }

    /// The registered labels, in index order, for the output document.
    pub fn frames(&self) -> (r: &Vec<Frame>)
        ensures
            r@.map_values(|f: Frame| f.label@) == self@,
    {
        &self.frames
    }

    /// The index of `label` if it is registered: the unique position `i`
    /// with `self@[i] == label@`, found by first match.
    pub fn lookup(&self, label: &String) -> (r: Option<usize>)
        ensures
            match r {
                Some(i) => 0 <= i < self@.len() && self@[i as int] == label@
                    && (forall|j: int| 0 <= j < i ==> self@[j] != label@),
                None => !self@.contains(label@),
            },
    {
        let mut i: usize = 0;
        while i < self.frames.len()
            invariant
                0 <= i <= self@.len(),
                forall|j: int| 0 <= j < i ==> self@[j] != label@,
            decreases self@.len() - i,
        {
            if self.frames[i].label == *label {
                return Some(i);
            }
            i = i + 1;
        }
        assert(!self@.contains(label@));
        None
    }

    /// Registers `label` if it is new and returns its index. Idempotent per
    /// label: an already-registered label keeps its index and the table is
    /// unchanged; a new label is appended at the next sequential index.
    pub fn ensure(&mut self, label: &String) -> (idx: usize)
        ensures
            final(self)@ == push_label(old(self)@, label@),
            0 <= idx < final(self)@.len() && final(self)@[idx as int] == label@,
            forall|j: int| 0 <= j < idx ==> final(self)@[j] != label@,
            distinct_labels(old(self)@) ==> distinct_labels(final(self)@),
    {
        match self.lookup(label) {
            Some(i) => {
                assert(self@.contains(label@));
                i
            },
            None => {
                let idx = self.frames.len();
                self.frames.push(Frame { label: label.clone() });
                assert(self@ =~= old(self)@.push(label@));
                idx
            },
        }
    }
}

/// `t2` extends `t1`: the registered labels of `t1` are a prefix of those of
/// `t2`, so registration never moves or removes an existing label.
pub open spec fn table_extends(t1: Seq<Seq<char>>, t2: Seq<Seq<char>>) -> bool {
    t1.len() <= t2.len() && t2.subrange(0, t1.len() as int) == t1
}

/// A label registered in a table stays registered in every extension.
pub proof fn lemma_extends_contains(t1: Seq<Seq<char>>, t2: Seq<Seq<char>>)
    requires
        table_extends(t1, t2),
    ensures
        forall|m: Seq<char>| t1.contains(m) ==> t2.contains(m),
{
    assert forall|m: Seq<char>| t1.contains(m) implies t2.contains(m) by {
        let i = choose|i: int| 0 <= i < t1.len() && t1[i] == m;
        assert(t2.subrange(0, t1.len() as int)[i] == t2[i]);
        assert(t2[i] == m);
    }
}

/// Extension is transitive.
pub proof fn lemma_extends_trans(a: Seq<Seq<char>>, b: Seq<Seq<char>>, c: Seq<Seq<char>>)
    requires
        table_extends(a, b),
        table_extends(b, c),
    ensures
        table_extends(a, c),
{
    assert forall|k: int| 0 <= k < a.len() implies c[k] == a[k] by {
        assert(b.subrange(0, a.len() as int)[k] == b[k]);
        assert(c.subrange(0, b.len() as int)[k] == c[k]);
    }
    assert(c.subrange(0, a.len() as int) =~= a);
}

/// What registering one label does: the table is extended, the label is
/// afterwards registered, nothing else appears, and distinctness is kept.
pub proof fn lemma_push_label(t: Seq<Seq<char>>, l: Seq<char>)
    ensures
        table_extends(t, push_label(t, l)),
        push_label(t, l).contains(l),
        forall|m: Seq<char>| #[trigger] push_label(t, l).contains(m) <==> t.contains(m) || m == l,
        distinct_labels(t) ==> distinct_labels(push_label(t, l)),
{
    let p = push_label(t, l);
    if t.contains(l) {
        assert(p =~= t);
        assert(p.subrange(0, t.len() as int) =~= t);
    } else {
        assert(p == t.push(l));
        assert(p[t.len() as int] == l);
        assert(p.subrange(0, t.len() as int) =~= t);
        assert forall|m: Seq<char>| #[trigger] p.contains(m) implies t.contains(m) || m == l by {
            let i = choose|i: int| 0 <= i < p.len() && p[i] == m;
            if i < t.len() {
                assert(t[i] == m);
            }
        }
        assert forall|m: Seq<char>| t.contains(m) implies p.contains(m) by {
            let i = choose|i: int| 0 <= i < t.len() && t[i] == m;
            assert(p[i] == m);
        }
        if distinct_labels(t) {
            assert forall|i: int, j: int| 0 <= i < j < p.len() implies p[i] != p[j] by {
                if j == t.len() {
                    assert(p[i] == t[i]);
                    assert(!t.contains(l));
                    assert(t[i] != l);
                }
            }
        }
    }
}

/// A pre-order walk only extends the table and keeps distinctness.
pub proof fn lemma_table_after_span_extends(t: Seq<Seq<char>>, s: Span)
    ensures
        table_extends(t, table_after_span(t, s)),
        distinct_labels(t) ==> distinct_labels(table_after_span(t, s)),
    decreases s, 0nat,
{
    lemma_push_label(t, s.type_label@);
    lemma_table_after_spans_from_extends(push_label(t, s.type_label@), s.children@, 0);
    lemma_extends_trans(t, push_label(t, s.type_label@), table_after_span(t, s));
}

/// A walk of sibling subtrees only extends the table and keeps distinctness.
pub proof fn lemma_table_after_spans_from_extends(t: Seq<Seq<char>>, ss: Seq<Span>, i: int)
    ensures
        table_extends(t, table_after_spans_from(t, ss, i)),
        distinct_labels(t) ==> distinct_labels(table_after_spans_from(t, ss, i)),
    decreases ss, ss.len() - i, 1nat,
{
    if 0 <= i < ss.len() {
        lemma_table_after_span_extends(t, ss[i]);
        lemma_table_after_spans_from_extends(table_after_span(t, ss[i]), ss, i + 1);
        lemma_extends_trans(t, table_after_span(t, ss[i]), table_after_spans_from(t, ss, i));
    } else {
        assert(t.subrange(0, t.len() as int) =~= t);
    }
}

/// Coverage of a tree's labels is kept by any table that registers at least
/// the same labels.
pub proof fn lemma_span_labels_in_mono(t1: Seq<Seq<char>>, t2: Seq<Seq<char>>, s: Span)
    requires
        span_labels_in(t1, s),
        forall|m: Seq<char>| t1.contains(m) ==> t2.contains(m),
    ensures
        span_labels_in(t2, s),
    decreases s, 0nat,
{
    lemma_spans_labels_in_from_mono(t1, t2, s.children@, 0);
}

/// The same for sibling subtrees.
pub proof fn lemma_spans_labels_in_from_mono(
    t1: Seq<Seq<char>>,
    t2: Seq<Seq<char>>,
    ss: Seq<Span>,
    i: int,
)
    requires
        spans_labels_in_from(t1, ss, i),
        forall|m: Seq<char>| t1.contains(m) ==> t2.contains(m),
    ensures
        spans_labels_in_from(t2, ss, i),
    decreases ss, ss.len() - i, 1nat,
{
    if 0 <= i < ss.len() {
        lemma_span_labels_in_mono(t1, t2, ss[i]);
        lemma_spans_labels_in_from_mono(t1, t2, ss, i + 1);
    }
}

/// After a pre-order walk of the tree, every label of the tree is registered.
pub proof fn lemma_table_covers(t: Seq<Seq<char>>, s: Span)
    ensures
        span_labels_in(table_after_span(t, s), s),
    decreases s, 0nat,
{
    let l = s.type_label@;
    let t1 = push_label(t, l);
    let tf = table_after_span(t, s);
    lemma_push_label(t, l);
    lemma_table_after_spans_from_extends(t1, s.children@, 0);
    lemma_extends_contains(t1, tf);
    assert(tf.contains(l));
    lemma_table_covers_from(t1, s.children@, 0);
}

/// After walks of the subtrees `ss[i..]`, every label of those subtrees is
/// registered.
pub proof fn lemma_table_covers_from(t: Seq<Seq<char>>, ss: Seq<Span>, i: int)
    ensures
        spans_labels_in_from(table_after_spans_from(t, ss, i), ss, i),
    decreases ss, ss.len() - i, 1nat,
{
    if 0 <= i < ss.len() {
        let t2 = table_after_span(t, ss[i]);
        let tf = table_after_spans_from(t2, ss, i + 1);
        lemma_table_covers(t, ss[i]);
        lemma_table_after_spans_from_extends(t2, ss, i + 1);
        lemma_extends_contains(t2, tf);
        lemma_span_labels_in_mono(t2, tf, ss[i]);
        lemma_table_covers_from(t2, ss, i + 1);
    }
}

/// Membership in a concatenation of label sequences, piecewise.
pub proof fn lemma_contains_concat(a: Seq<Seq<char>>, b: Seq<Seq<char>>)
    ensures
        forall|m: Seq<char>| #[trigger] (a + b).contains(m) <==> a.contains(m) || b.contains(m),
{
    assert forall|m: Seq<char>| #[trigger] (a + b).contains(m) implies a.contains(m) || b.contains(
        m,
    ) by {
        let i = choose|i: int| 0 <= i < (a + b).len() && (a + b)[i] == m;
        if i < a.len() {
            assert(a[i] == m);
        } else {
            assert(b[i - a.len()] == m);
        }
    }
    assert forall|m: Seq<char>| a.contains(m) || b.contains(m) implies #[trigger] (a + b).contains(
        m,
    ) by {
        if a.contains(m) {
            let i = choose|i: int| 0 <= i < a.len() && a[i] == m;
            assert((a + b)[i] == m);
        } else {
            let i = choose|i: int| 0 <= i < b.len() && b[i] == m;
            assert((a + b)[a.len() + i] == m);
        }
    }
}

/// The walk registers exactly the labels of the tree: afterwards a label is
/// registered if and only if it was registered before or occurs in the tree.
pub proof fn lemma_table_contents(t: Seq<Seq<char>>, s: Span)
    ensures
        forall|m: Seq<char>| #[trigger] table_after_span(t, s).contains(m) <==> t.contains(m)
            || span_labels(s).contains(m),
    decreases s, 0nat,
{
    let l = s.type_label@;
    let t1 = push_label(t, l);
    let ss = s.children@;
    lemma_push_label(t, l);
    lemma_table_contents_from(t1, ss, 0);
    lemma_contains_concat(seq![l], spans_labels_from(ss, 0));
    assert forall|m: Seq<char>|
        (#[trigger] table_after_span(t, s).contains(m)) == (t.contains(m) || span_labels(
            s,
        ).contains(m)) by {
        assert(table_after_span(t, s) == table_after_spans_from(t1, ss, 0));
        assert(table_after_spans_from(t1, ss, 0).contains(m) == (t1.contains(m)
            || spans_labels_from(ss, 0).contains(m)));
        assert(push_label(t, l).contains(m) == (t.contains(m) || m == l));
        assert(span_labels(s) == seq![l] + spans_labels_from(ss, 0));
        assert((seq![l] + spans_labels_from(ss, 0)).contains(m) == (seq![l].contains(m)
            || spans_labels_from(ss, 0).contains(m)));
        if m == l {
            assert(seq![l][0] == m);
            assert(seq![l].contains(m));
        }
        if seq![l].contains(m) {
            let i = choose|i: int| 0 <= i < 1 && seq![l][i] == m;
            assert(m == l);
        }
    }
}

/// The same for sibling subtrees.
pub proof fn lemma_table_contents_from(t: Seq<Seq<char>>, ss: Seq<Span>, i: int)
    ensures
        forall|m: Seq<char>| #[trigger] table_after_spans_from(t, ss, i).contains(m) <==> t.contains(
            m,
        ) || spans_labels_from(ss, i).contains(m),
    decreases ss, ss.len() - i, 1nat,
{
    if 0 <= i < ss.len() {
        let t2 = table_after_span(t, ss[i]);
        lemma_table_contents(t, ss[i]);
        lemma_table_contents_from(t2, ss, i + 1);
        lemma_contains_concat(span_labels(ss[i]), spans_labels_from(ss, i + 1));
        assert forall|m: Seq<char>|
            (#[trigger] table_after_spans_from(t, ss, i).contains(m)) == (t.contains(m)
                || spans_labels_from(ss, i).contains(m)) by {
            assert(table_after_spans_from(t, ss, i) == table_after_spans_from(t2, ss, i + 1));
            assert(table_after_spans_from(t2, ss, i + 1).contains(m) == (t2.contains(m)
                || spans_labels_from(ss, i + 1).contains(m)));
            assert(table_after_span(t, ss[i]).contains(m) == (t.contains(m) || span_labels(
                ss[i],
            ).contains(m)));
            assert(spans_labels_from(ss, i) == span_labels(ss[i]) + spans_labels_from(ss, i + 1));
            assert((span_labels(ss[i]) + spans_labels_from(ss, i + 1)).contains(m) == (span_labels(
                ss[i],
            ).contains(m) || spans_labels_from(ss, i + 1).contains(m)));
        }
    } else {
        assert forall|m: Seq<char>| !(#[trigger] spans_labels_from(ss, i).contains(m)) by {
            assert(spans_labels_from(ss, i).len() == 0);
        }
    }
}

/// Registers, in pre-order, the type label of every span in the tree rooted
/// at `input`. Labels already present keep their indices; new labels get the
/// next sequential index at first encounter.
pub fn index_frames(input: &Span, table: &mut FrameTable)
    ensures
        final(table)@ == table_after_span(old(table)@, *input),
        distinct_labels(old(table)@) ==> distinct_labels(final(table)@),
    decreases *input,
{
    table.ensure(&input.type_label);
    let ghost t_mid = table@;
    let mut i: usize = 0;
    while i < input.children.len()
        invariant
            0 <= i <= input.children@.len(),
            table_after_spans_from(table@, input.children@, i as int)
                == table_after_spans_from(t_mid, input.children@, 0),
            distinct_labels(t_mid) ==> distinct_labels(table@),
        decreases input.children@.len() - i,
    {
        index_frames(&input.children[i], table);
        i = i + 1;
    }
}

} // verus!
