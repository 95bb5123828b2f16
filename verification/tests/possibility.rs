use linearize::{OpSpan, Possibility, RegisterState};

fn lens(possibility: &Possibility) -> Vec<usize> {
    (0..possibility.num_nodes()).map(|node| possibility.queue_len(node)).collect()
}

#[test]
fn initial_is_empty() {
    let possibility = Possibility::initial(4);
    assert_eq!(possibility.num_nodes(), 4);
    assert_eq!(lens(&possibility), vec![0, 0, 0, 0]);
    assert_eq!(possibility.current_val(), RegisterState::Nil);
    assert!(possibility.lineage().is_empty());
    assert!(!possibility.can_step());
    assert!(!Possibility::initial(0).can_step());
}

#[test]
fn can_step_needs_every_queue_and_a_normal_head() {
    let mut possibility = Possibility::initial(2);
    possibility.append_span(0, OpSpan::put(1, 10, 20));
    assert!(!possibility.can_step());
    possibility.append_span(1, OpSpan::stopped(15));
    assert!(possibility.can_step());

    let mut markers = Possibility::initial(2);
    markers.append_span(0, OpSpan::stopped(10));
    markers.append_span(1, OpSpan::stopped(11));
    assert!(!markers.can_step());
}

#[test]
fn step_takes_heads_requested_before_the_first_ack() {
    let mut possibility = Possibility::initial(3);
    possibility.append_span(0, OpSpan::put(1, 100, 105));
    possibility.append_span(1, OpSpan::put(2, 104, 106));
    possibility.append_span(2, OpSpan::put(3, 107, 110));
    assert!(possibility.can_step());
    let next = possibility.step();
    assert_eq!(next.len(), 2);
    assert_eq!(next[0].current_val(), RegisterState::Known(1));
    assert_eq!(lens(&next[0]), vec![0, 1, 1]);
    assert_eq!(next[0].lineage(), &vec![(0, OpSpan::put(1, 100, 105))]);
    assert_eq!(next[1].current_val(), RegisterState::Known(2));
    assert_eq!(lens(&next[1]), vec![1, 0, 1]);
    assert_eq!(next[1].lineage(), &vec![(1, OpSpan::put(2, 104, 106))]);
    assert!(next[0] != next[1]);
}

#[test]
fn step_excludes_a_head_requested_at_the_first_ack() {
    let mut possibility = Possibility::initial(2);
    possibility.append_span(0, OpSpan::put(1, 100, 105));
    possibility.append_span(1, OpSpan::put(2, 105, 110));
    let next = possibility.step();
    assert_eq!(next.len(), 1);
    assert_eq!(next[0].current_val(), RegisterState::Known(1));
    assert_eq!(lens(&next[0]), vec![0, 1]);
}

#[test]
fn step_ignores_markers_for_the_first_ack() {
    let mut possibility = Possibility::initial(2);
    possibility.append_span(0, OpSpan::stopped(50));
    possibility.append_span(1, OpSpan::put(2, 105, 110));
    let next = possibility.step();
    assert_eq!(next.len(), 1);
    assert_eq!(next[0].current_val(), RegisterState::Known(2));
    assert_eq!(lens(&next[0]), vec![1, 0]);
    assert!(!next[0].can_step());
}

#[test]
fn step_drops_reads_that_contradict_the_register() {
    let mut possibility = Possibility::initial(2);
    possibility.append_span(0, OpSpan::get(Some(5), 100, 105));
    possibility.append_span(1, OpSpan::get(None, 101, 106));
    let next = possibility.step();
    assert_eq!(next.len(), 1);
    assert_eq!(next[0].current_val(), RegisterState::Nil);
    assert_eq!(lens(&next[0]), vec![1, 0]);
    assert!(!next[0].can_step());
}

#[test]
fn step_may_leave_nothing() {
    let mut possibility = Possibility::initial(2);
    possibility.append_span(0, OpSpan::get(Some(5), 100, 105));
    possibility.append_span(1, OpSpan::stopped(101));
    assert!(possibility.can_step());
    assert!(possibility.step().is_empty());
}

#[test]
fn apply_head_follows_each_kind() {
    let mut possibility = Possibility::initial(1);
    possibility.append_span(0, OpSpan::get(None, 1, 2));
    possibility.append_span(0, OpSpan::put(8, 3, 4));
    possibility.append_span(0, OpSpan::get(Some(8), 5, 6));
    possibility.append_span(0, OpSpan::fail(7, 8));
    possibility.append_span(0, OpSpan::get(Some(99), 9, 10));
    possibility.append_span(0, OpSpan::get(None, 11, 12));
    possibility.append_span(0, OpSpan::put(3, 13, 14));
    possibility.append_span(0, OpSpan::get(Some(4), 15, 16));

    let expected = [
        RegisterState::Nil,
        RegisterState::Known(8),
        RegisterState::Known(8),
        RegisterState::Uncertain,
        RegisterState::Uncertain,
        RegisterState::Uncertain,
        RegisterState::Known(3),
    ];
    for (placed, value) in expected.into_iter().enumerate() {
        possibility = possibility.apply_head(0).unwrap();
        assert_eq!(possibility.current_val(), value);
        assert_eq!(possibility.queue_len(0), 7 - placed);
        assert_eq!(possibility.lineage().len(), placed + 1);
    }
    assert!(possibility.apply_head(0).is_none());
    assert_eq!(possibility.queue_len(0), 1);
}

#[test]
fn apply_head_leaves_its_source_alone() {
    let mut possibility = Possibility::initial(2);
    possibility.append_span(1, OpSpan::put(8, 3, 4));
    let next = possibility.apply_head(1).unwrap();
    assert_eq!(possibility.to_string(), "nil<|[0,1]~");
    assert_eq!(next.to_string(), "8<|[0,0]~1-Put(8)");
}

#[test]
fn resumed_cancels_stopped() {
    let mut possibility = Possibility::initial(2);
    possibility.append_span(0, OpSpan::put(8, 100, 105));
    let before = possibility.to_string();
    assert!(!possibility.admits(0, &OpSpan::resumed(106)));
    assert!(possibility.admits(0, &OpSpan::stopped(106)));
    possibility.append_span(0, OpSpan::stopped(106));
    assert_eq!(lens(&possibility), vec![2, 0]);
    assert!(!possibility.admits(0, &OpSpan::put(9, 107, 108)));
    assert!(!possibility.admits(0, &OpSpan::resumed(106)));
    assert!(possibility.admits(0, &OpSpan::resumed(107)));
    possibility.append_span(0, OpSpan::resumed(107));
    assert_eq!(lens(&possibility), vec![1, 0]);
    assert_eq!(possibility.to_string(), before);
    assert!(possibility.admits(0, &OpSpan::put(9, 107, 108)));
    assert!(!possibility.admits(1, &OpSpan::resumed(1)));
    assert!(possibility.admits(1, &OpSpan::stopped(1)));
}

#[test]
fn is_normal_tells_operations_from_markers() {
    assert!(OpSpan::put(1, 1, 2).is_normal());
    assert!(OpSpan::get(Some(1), 1, 2).is_normal());
    assert!(OpSpan::get(None, 1, 2).is_normal());
    assert!(OpSpan::fail(1, 2).is_normal());
    assert!(!OpSpan::stopped(1).is_normal());
    assert!(!OpSpan::resumed(1).is_normal());
    for span in [
        OpSpan::put(1, 1, 2),
        OpSpan::get(None, 1, 2),
        OpSpan::fail(1, 2),
        OpSpan::stopped(1),
        OpSpan::resumed(1),
    ] {
        assert!(span.is_well_formed());
    }
}
