use linearize::{Linearizer, Node, OpInputs, OpResult, OpSpan, Possibility, RegisterState};

fn feed_all(linearizer: &mut Linearizer, ops: &[(Node, OpSpan)]) -> Vec<bool> {
    let mut results = Vec::new();
    for (node, span) in ops {
        assert!(linearizer.admits(*node, span));
        results.push(linearizer.feed_span(*node, *span));
    }
    results
}

fn keys(linearizer: &Linearizer) -> Vec<(RegisterState, Vec<usize>)> {
    let mut keys = Vec::new();
    for possibility in linearizer.possibilities() {
        let mut lens = Vec::new();
        for node in 0..possibility.num_nodes() {
            lens.push(possibility.queue_len(node));
        }
        keys.push((possibility.current_val(), lens));
    }
    keys
}

fn assert_saturated_and_distinct(linearizer: &Linearizer) {
    let live = linearizer.possibilities();
    for possibility in live {
        assert!(!possibility.can_step());
    }
    let keys = keys(linearizer);
    for i in 0..keys.len() {
        for j in (i + 1)..keys.len() {
            assert_ne!(keys[i], keys[j]);
            assert!(live[i] != live[j]);
        }
    }
}

#[test]
fn new_checker_holds_the_empty_hypothesis() {
    let linearizer = Linearizer::new(3);
    assert_eq!(linearizer.num_nodes(), 3);
    assert_eq!(keys(&linearizer), vec![(RegisterState::Nil, vec![0, 0, 0])]);
    assert!(linearizer.possibilities()[0].lineage().is_empty());
}

#[test]
fn accepts_linearizable_history() {
    let mut linearizer = Linearizer::new(3);
    let results = feed_all(
        &mut linearizer,
        &[
            (0, OpSpan::put(8, 100, 105)),
            (1, OpSpan::put(7, 104, 106)),
            (2, OpSpan::get(Some(7), 102, 108)),
            (1, OpSpan::get(Some(8), 110, 112)),
            (2, OpSpan::get(Some(9), 109, 115)),
            (0, OpSpan::get(Some(8), 110, 117)),
            (1, OpSpan::put(9, 114, 118)),
            (2, OpSpan::stopped(116)),
            (1, OpSpan::stopped(120)),
            (0, OpSpan::stopped(119)),
        ],
    );
    assert_eq!(results, vec![true; 10]);
    assert_eq!(keys(&linearizer), vec![(RegisterState::Known(9), vec![1, 1, 1])]);
    let history: Vec<(Node, String)> = linearizer.possibilities()[0]
        .lineage()
        .iter()
        .map(|(node, span)| (*node, span.to_string()))
        .collect();
    assert_eq!(
        history,
        vec![
            (1, "Put(7)".to_string()),
            (2, "Get(7)".to_string()),
            (0, "Put(8)".to_string()),
            (1, "Get(8)".to_string()),
            (0, "Get(8)".to_string()),
            (1, "Put(9)".to_string()),
            (2, "Get(9)".to_string()),
        ]
    );
}

#[test]
fn rejects_stale_read() {
    let mut linearizer = Linearizer::new(3);
    let results = feed_all(
        &mut linearizer,
        &[
            (0, OpSpan::put(8, 100, 105)),
            (1, OpSpan::put(7, 104, 106)),
            (2, OpSpan::put(9, 107, 110)),
            (0, OpSpan::get(Some(7), 111, 113)),
            (2, OpSpan::stopped(112)),
            (0, OpSpan::stopped(115)),
            (1, OpSpan::stopped(114)),
        ],
    );
    assert_eq!(results, vec![true, true, true, true, true, true, false]);
    assert!(linearizer.possibilities().is_empty());
}

#[test]
fn violation_is_permanent() {
    let mut linearizer = Linearizer::new(1);
    assert!(linearizer.feed_span(0, OpSpan::put(8, 100, 105)));
    assert!(!linearizer.feed_span(0, OpSpan::get(Some(9), 106, 107)));
    assert!(linearizer.possibilities().is_empty());
    for (i, span) in [
        OpSpan::get(Some(8), 108, 109),
        OpSpan::put(9, 110, 111),
        OpSpan::fail(112, 113),
        OpSpan::stopped(114),
        OpSpan::resumed(115),
        OpSpan::put(1, 1, 2),
    ]
    .into_iter()
    .enumerate()
    {
        assert!(linearizer.admits(0, &span), "span {}", i);
        assert!(!linearizer.feed_span(0, span));
        assert!(linearizer.possibilities().is_empty());
        assert_eq!(linearizer.to_string(), "Possibilities {\n}");
    }
}

#[test]
fn frontier_is_saturated_after_every_feed() {
    let mut linearizer = Linearizer::new(3);
    let ops = [
        (2, OpSpan::get(None, 99, 101)),
        (0, OpSpan::put(8, 100, 105)),
        (1, OpSpan::put(7, 104, 106)),
        (2, OpSpan::get(Some(7), 102, 108)),
        (1, OpSpan::get(Some(8), 110, 112)),
        (2, OpSpan::get(Some(9), 109, 115)),
        (1, OpSpan::fail(114, 118)),
        (0, OpSpan::get(Some(10), 117, 119)),
        (2, OpSpan::put(11, 120, 123)),
        (2, OpSpan::stopped(125)),
        (1, OpSpan::put(12, 124, 127)),
        (1, OpSpan::stopped(128)),
        (0, OpSpan::stopped(129)),
        (2, OpSpan::resumed(130)),
        (2, OpSpan::get(Some(11), 131, 132)),
    ];
    let mut results = Vec::new();
    for (node, span) in ops {
        assert!(linearizer.admits(node, &span));
        results.push(linearizer.feed_span(node, span));
        assert_saturated_and_distinct(&linearizer);
    }
    let mut expected = vec![true; 14];
    expected.push(false);
    assert_eq!(results, expected);
}

#[test]
fn failed_write_makes_any_read_acceptable() {
    let mut linearizer = Linearizer::new(1);
    let results = feed_all(
        &mut linearizer,
        &[
            (0, OpSpan::put(8, 100, 105)),
            (0, OpSpan::fail(106, 107)),
            (0, OpSpan::get(Some(99), 108, 109)),
            (0, OpSpan::get(None, 110, 111)),
            (0, OpSpan::get(Some(8), 112, 113)),
        ],
    );
    assert_eq!(results, vec![true; 5]);
    assert_eq!(keys(&linearizer), vec![(RegisterState::Uncertain, vec![0])]);
    // a write makes the register certain again
    assert!(linearizer.feed_span(0, OpSpan::put(10, 114, 115)));
    assert_eq!(keys(&linearizer), vec![(RegisterState::Known(10), vec![0])]);
    assert!(!linearizer.feed_span(0, OpSpan::get(Some(8), 116, 117)));
}

#[test]
fn read_before_any_failure_must_match() {
    let mut linearizer = Linearizer::new(1);
    assert!(linearizer.feed_span(0, OpSpan::put(8, 100, 105)));
    let mut matching = linearizer.clone();
    assert!(matching.feed_span(0, OpSpan::get(Some(8), 106, 107)));
    let mut other = linearizer.clone();
    assert!(!other.feed_span(0, OpSpan::get(Some(99), 106, 107)));
    let mut nothing = linearizer.clone();
    assert!(!nothing.feed_span(0, OpSpan::get(None, 106, 107)));
    let mut fresh = Linearizer::new(1);
    assert!(fresh.feed_span(0, OpSpan::get(None, 1, 2)));
    assert!(!fresh.feed_span(0, OpSpan::get(Some(0), 3, 4)));
}

#[test]
fn stop_then_resume_leaves_queues_unchanged() {
    let mut linearizer = Linearizer::new(2);
    assert!(linearizer.feed_span(0, OpSpan::put(8, 100, 105)));
    let before = linearizer.to_string();
    assert_eq!(before, "Possibilities {\n  nil<|[1,0]~\n}");
    assert!(linearizer.feed_span(0, OpSpan::stopped(106)));
    assert_eq!(linearizer.to_string(), "Possibilities {\n  nil<|[2,0]~\n}");
    assert!(linearizer.admits(0, &OpSpan::resumed(107)));
    assert!(linearizer.feed_span(0, OpSpan::resumed(107)));
    assert_eq!(linearizer.to_string(), before);
    // the node goes on as if it had never stopped
    assert!(linearizer.admits(0, &OpSpan::get(Some(8), 108, 109)));
    assert!(linearizer.feed_span(0, OpSpan::get(Some(8), 108, 109)));
    assert_eq!(keys(&linearizer), vec![(RegisterState::Nil, vec![2, 0])]);
}

#[test]
fn resume_without_stop_is_not_admitted() {
    let mut linearizer = Linearizer::new(2);
    // nothing queued at all
    assert!(!linearizer.admits(0, &OpSpan::resumed(50)));
    assert!(linearizer.feed_span(0, OpSpan::put(8, 100, 105)));
    // the last queued span is no Stopped marker
    assert!(!linearizer.admits(0, &OpSpan::resumed(106)));
    assert!(!linearizer.admits(1, &OpSpan::resumed(106)));
    assert!(linearizer.feed_span(0, OpSpan::stopped(106)));
    // the marker is on the other node
    assert!(!linearizer.admits(1, &OpSpan::resumed(107)));
    // a Resumed marker must come after the Stopped one
    assert!(!linearizer.admits(0, &OpSpan::resumed(106)));
    assert!(linearizer.admits(0, &OpSpan::resumed(107)));
}

#[test]
fn misuse_is_not_admitted() {
    let mut linearizer = Linearizer::new(2);
    assert!(!linearizer.admits(2, &OpSpan::put(8, 100, 105)));
    assert!(linearizer.admits(1, &OpSpan::put(8, 100, 105)));
    let backwards = OpSpan {
        inputs: OpInputs::Put { val: 8 },
        result: OpResult::Put,
        ts_req: 105,
        ts_ack: 100,
    };
    assert!(!backwards.is_well_formed());
    assert!(!linearizer.admits(0, &backwards));
    let unanswered = OpSpan {
        inputs: OpInputs::Get,
        result: OpResult::Dummy,
        ts_req: 100,
        ts_ack: 105,
    };
    assert!(!unanswered.is_well_formed());
    assert!(!linearizer.admits(0, &unanswered));
    let lasting_marker = OpSpan {
        inputs: OpInputs::Stopped,
        result: OpResult::Dummy,
        ts_req: 100,
        ts_ack: 105,
    };
    assert!(!lasting_marker.is_well_formed());
    assert!(!linearizer.admits(0, &lasting_marker));

    assert!(linearizer.feed_span(0, OpSpan::put(8, 100, 105)));
    // a node's next span must start after its last one ended
    assert!(!linearizer.admits(0, &OpSpan::get(Some(8), 105, 107)));
    assert!(!linearizer.admits(0, &OpSpan::get(Some(8), 103, 107)));
    assert!(linearizer.admits(0, &OpSpan::get(Some(8), 106, 107)));
    // other nodes are free to overlap
    assert!(linearizer.admits(1, &OpSpan::get(Some(8), 103, 107)));
    // after a Stopped marker only a Resumed one may follow
    assert!(linearizer.feed_span(0, OpSpan::stopped(106)));
    assert!(!linearizer.admits(0, &OpSpan::get(Some(8), 107, 108)));
    assert!(!linearizer.admits(0, &OpSpan::fail(107, 108)));
    assert!(!linearizer.admits(0, &OpSpan::stopped(107)));
    assert!(linearizer.admits(0, &OpSpan::resumed(107)));
}

#[test]
fn concurrent_writes_collapse_by_state() {
    let mut linearizer = Linearizer::new(3);
    let ops = [
        (0, OpSpan::put(7, 100, 110)),
        (1, OpSpan::put(8, 101, 111)),
        (2, OpSpan::put(9, 102, 112)),
        (0, OpSpan::stopped(120)),
        (1, OpSpan::stopped(121)),
        (2, OpSpan::stopped(122)),
    ];
    let mut sizes = Vec::new();
    for (node, span) in ops {
        assert!(linearizer.feed_span(node, span));
        assert_saturated_and_distinct(&linearizer);
        sizes.push(linearizer.possibilities().len());
    }
    assert_eq!(sizes, vec![1, 1, 3, 4, 4, 3]);
    // six orders of the three writes, but only three states
    let mut keys = keys(&linearizer);
    keys.sort_by_key(|(value, _)| match value {
        RegisterState::Known(v) => *v,
        _ => 0,
    });
    assert_eq!(
        keys,
        vec![
            (RegisterState::Known(7), vec![1, 1, 1]),
            (RegisterState::Known(8), vec![1, 1, 1]),
            (RegisterState::Known(9), vec![1, 1, 1]),
        ]
    );
}

#[test]
fn concurrent_writes_of_one_value_collapse_to_one() {
    let mut linearizer = Linearizer::new(3);
    let results = feed_all(
        &mut linearizer,
        &[
            (0, OpSpan::put(7, 100, 110)),
            (1, OpSpan::put(7, 101, 111)),
            (2, OpSpan::put(7, 102, 112)),
            (0, OpSpan::stopped(120)),
            (1, OpSpan::stopped(121)),
            (2, OpSpan::stopped(122)),
        ],
    );
    assert_eq!(results, vec![true; 6]);
    assert_eq!(keys(&linearizer), vec![(RegisterState::Known(7), vec![1, 1, 1])]);
}

#[test]
fn clones_are_independent() {
    let mut linearizer = Linearizer::new(2);
    let results = feed_all(
        &mut linearizer,
        &[
            (0, OpSpan::put(55, 1, 5)),
            (1, OpSpan::put(66, 3, 6)),
            (1, OpSpan::get(Some(77), 10, 12)),
        ],
    );
    assert_eq!(results, vec![true; 3]);
    let before = linearizer.to_string();

    let mut early = linearizer.clone();
    assert!(early.feed_span(0, OpSpan::put(77, 7, 9)));
    assert_eq!(keys(&early), vec![(RegisterState::Known(77), vec![0, 1])]);

    let mut late = linearizer.clone();
    assert!(!late.feed_span(0, OpSpan::put(77, 13, 14)));
    assert!(late.possibilities().is_empty());

    assert_eq!(linearizer.to_string(), before);
    assert_eq!(linearizer.possibilities().len(), 2);
}

#[test]
fn equality_ignores_history() {
    let mut first = Possibility::initial(2);
    first.append_span(0, OpSpan::put(7, 100, 110));
    first.append_span(1, OpSpan::put(7, 101, 111));
    let second = first.clone();
    let a = first.clone().apply_head(0).unwrap().apply_head(1).unwrap();
    let b = second.apply_head(1).unwrap().apply_head(0).unwrap();
    assert_ne!(a.to_string(), b.to_string());
    assert!(a == b);
    assert!(a != first);
}
