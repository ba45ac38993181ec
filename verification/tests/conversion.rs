use flametrace::emit::{convert_tree, try_convert_tree, Event, EventKind};
use flametrace::frames::{index_frames, FrameTable};
use flametrace::span::{synthesize_zero_durations, Span};
use flametrace::timeline::TimelineState;

fn span(label: &str, begin: u64, duration: Option<u64>, children: Vec<Span>) -> Span {
    Span { begin, type_label: String::from(label), duration, children }
}

fn ev(kind: EventKind, frame: usize, at: u64) -> Event {
    Event { kind, frame, at }
}

fn labels(table: &FrameTable) -> Vec<String> {
    table.frames().iter().map(|f| f.label.clone()).collect()
}

#[test]
fn basic_tree() {
    let root = span("root", 0, Some(100), vec![span("child", 10, Some(50), vec![])]);
    let (table, events, st) = convert_tree(&root);
    assert_eq!(labels(&table), vec![String::from("root"), String::from("child")]);
    assert_eq!(
        events,
        vec![
            ev(EventKind::Open, 0, 0),
            ev(EventKind::Open, 1, 10),
            ev(EventKind::Close, 1, 60),
            ev(EventKind::Close, 0, 100),
        ]
    );
    assert_eq!(st.slop, 0);
    assert_eq!(st.corrections, 0);
}

#[test]
fn skewed_child_forces_one_correction() {
    // The child's close (55) exceeds the parent's close (10): the parent's
    // close must be clamped forward to 55, and exactly one correction fires.
    let root = span("root", 0, Some(10), vec![span("child", 5, Some(50), vec![])]);
    let (_, events, st) = convert_tree(&root);
    assert_eq!(
        events,
        vec![
            ev(EventKind::Open, 0, 0),
            ev(EventKind::Open, 1, 5),
            ev(EventKind::Close, 1, 55),
            ev(EventKind::Close, 0, 55),
        ]
    );
    assert!(events[3].at >= 55);
    assert_eq!(st.corrections, 1);
}

#[test]
fn missing_duration_emits_no_events_for_the_span() {
    // A span without a duration emits nothing of its own, but its child with
    // a duration still emits exactly one open/close pair.
    let root = span("root", 0, None, vec![span("child", 10, Some(5), vec![])]);
    let (table, events, _) = convert_tree(&root);
    assert_eq!(labels(&table), vec![String::from("root"), String::from("child")]);
    assert_eq!(
        events,
        vec![ev(EventKind::Open, 1, 10), ev(EventKind::Close, 1, 15)]
    );
}

#[test]
fn conversion_is_deterministic() {
    let root = span(
        "root",
        3,
        Some(40),
        vec![
            span("a", 5, Some(10), vec![span("b", 6, Some(2), vec![])]),
            span("a", 20, None, vec![]),
        ],
    );
    let (table1, events1, st1) = convert_tree(&root);
    let (table2, events2, st2) = convert_tree(&root);
    assert_eq!(labels(&table1), labels(&table2));
    assert_eq!(events1, events2);
    assert_eq!(st1.last, st2.last);
    assert_eq!(st1.slop, st2.slop);
    assert_eq!(st1.corrections, st2.corrections);
}

#[test]
fn frame_indices_are_dense_and_first_encounter_ordered() {
    let root = span(
        "a",
        0,
        Some(100),
        vec![
            span("b", 1, Some(10), vec![]),
            span("a", 20, Some(10), vec![]),
            span("b", 40, Some(10), vec![span("c", 41, Some(1), vec![])]),
        ],
    );
    let (table, events, _) = convert_tree(&root);
    assert_eq!(
        labels(&table),
        vec![String::from("a"), String::from("b"), String::from("c")]
    );
    // Every event references a registered frame, and the repeated labels
    // reuse their first-encounter index.
    for e in &events {
        assert!(e.frame < 3);
    }
    assert_eq!(events[1].frame, 1); // open of the first "b"
    assert_eq!(events[3].frame, 0); // open of the nested "a"
    assert_eq!(events[5].frame, 1); // open of the second "b"
    assert_eq!(events[6].frame, 2); // open of "c"
}

#[test]
fn empty_label_is_a_distinct_label() {
    let root = span("", 0, Some(10), vec![span("x", 1, Some(2), vec![])]);
    let (table, events, _) = convert_tree(&root);
    assert_eq!(labels(&table), vec![String::new(), String::from("x")]);
    assert_eq!(events[0].frame, 0);
    assert_eq!(events[1].frame, 1);
}

#[test]
fn adversarial_timestamps_stay_monotone() {
    let root = span(
        "root",
        50,
        Some(10),
        vec![
            span("late", 100, Some(5), vec![]),
            span("early", 0, Some(5), vec![]),
        ],
    );
    let (_, events, st) = convert_tree(&root);
    for w in events.windows(2) {
        assert!(w[0].at <= w[1].at);
    }
    assert!(st.corrections > 0);
}

#[test]
fn slop_grows_by_the_deficit_and_does_not_compound() {
    // Two separate regressions: each correction grows the slop by exactly
    // the deficit, so later timestamps are shifted, not doubled.
    let root = span(
        "root",
        0,
        Some(100),
        vec![
            span("c1", 10, Some(20), vec![]), // closes at 30
            span("c2", 5, Some(10), vec![]),  // open 5 regresses: slop 25
            span("c3", 0, Some(1), vec![]),   // open 25 regresses: slop 40
        ],
    );
    let (_, events, st) = convert_tree(&root);
    assert_eq!(
        events,
        vec![
            ev(EventKind::Open, 0, 0),
            ev(EventKind::Open, 1, 10),
            ev(EventKind::Close, 1, 30),
            ev(EventKind::Open, 2, 30),
            ev(EventKind::Close, 2, 40),
            ev(EventKind::Open, 3, 40),
            ev(EventKind::Close, 3, 41),
            ev(EventKind::Close, 0, 140),
        ]
    );
    assert_eq!(st.slop, 40);
    assert_eq!(st.corrections, 2);
}

#[test]
fn ensure_is_idempotent_per_label() {
    let mut table = FrameTable::new();
    let a = String::from("alpha");
    let b = String::from("beta");
    let ia = table.ensure(&a);
    let ib = table.ensure(&b);
    let ia2 = table.ensure(&a);
    assert_eq!(ia, 0);
    assert_eq!(ib, 1);
    assert_eq!(ia2, 0);
    assert_eq!(table.frames().len(), 2);
    assert_eq!(table.lookup(&a), Some(0));
    assert_eq!(table.lookup(&String::from("gamma")), None);
}

#[test]
fn index_frames_registers_preorder() {
    let root = span(
        "p",
        0,
        None,
        vec![span("q", 0, None, vec![span("r", 0, None, vec![])]), span("q", 0, None, vec![])],
    );
    let mut table = FrameTable::new();
    index_frames(&root, &mut table);
    assert_eq!(
        labels(&table),
        vec![String::from("p"), String::from("q"), String::from("r")]
    );
}

#[test]
fn synthesized_zero_durations_wrap_orphan_children() {
    // Converting the zero-filled copy instead of the original is the
    // explicit alternative policy: the duration-less root now opens before
    // its child and closes (clamped forward) after it.
    let root = span("root", 0, None, vec![span("child", 10, Some(5), vec![])]);
    let filled = synthesize_zero_durations(&root);
    assert_eq!(filled.duration, Some(0));
    let (_, events, st) = convert_tree(&filled);
    assert_eq!(
        events,
        vec![
            ev(EventKind::Open, 0, 0),
            ev(EventKind::Open, 1, 10),
            ev(EventKind::Close, 1, 15),
            ev(EventKind::Close, 0, 15),
        ]
    );
    assert_eq!(st.corrections, 1);
}

#[test]
fn try_convert_accepts_ordinary_trees() {
    let root = span("root", 0, Some(100), vec![span("child", 10, Some(50), vec![])]);
    let (_, direct_events, _) = convert_tree(&root);
    let (_, checked_events, _) = try_convert_tree(&root).unwrap();
    assert_eq!(checked_events, direct_events);
}

#[test]
fn try_convert_rejects_overflowing_timestamps() {
    let root = span("root", u64::MAX, Some(u64::MAX), vec![]);
    assert!(try_convert_tree(&root).is_none());
}

#[test]
fn timeline_advance_applies_the_deficit_rule() {
    let mut st = TimelineState::new();
    assert_eq!(st.advance(10), 10);
    assert_eq!(st.advance(5), 10); // deficit 5: slop grows to 5
    assert_eq!(st.slop, 5);
    assert_eq!(st.corrections, 1);
    assert_eq!(st.advance(7), 12); // 7 + 5 needs no further correction
    assert_eq!(st.slop, 5);
    assert_eq!(st.corrections, 1);
}
