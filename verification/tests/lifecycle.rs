use aish::coordinator::Phase;
use aish::lifecycle::{self, LifecycleEvent, LifecycleState, TableError, Transition, TransitionTable};
use aish::loopguard::Disposition;
use std::collections::HashSet;

#[test]
fn canonical_table_is_valid() {
    let table = TransitionTable::canonical();
    assert_eq!(table.states().len(), 7);
    assert_eq!(table.events().len(), 10);
    assert_eq!(table.transitions().len(), 11);
}

#[test]
fn duplicate_state_is_rejected() {
    let err = TransitionTable::build(
        vec![LifecycleState::Running, LifecycleState::Running],
        vec![LifecycleEvent::Complete],
        vec![],
    )
    .unwrap_err();
    assert_eq!(err, TableError::DuplicateState("running"));
}

#[test]
fn duplicate_event_is_rejected() {
    let err = TransitionTable::build(
        vec![LifecycleState::Running],
        vec![LifecycleEvent::Complete, LifecycleEvent::Complete],
        vec![],
    )
    .unwrap_err();
    assert_eq!(err, TableError::DuplicateEvent("complete"));
}

#[test]
fn unknown_from_state_is_rejected() {
    let err = TransitionTable::build(
        vec![LifecycleState::Running, LifecycleState::Done],
        vec![LifecycleEvent::Start],
        vec![Transition {
            from: LifecycleState::Spawned,
            event: LifecycleEvent::Start,
            to: LifecycleState::Running,
        }],
    )
    .unwrap_err();
    assert_eq!(err, TableError::UnknownFromState("spawned"));
}

#[test]
fn unknown_to_state_is_rejected() {
    let err = TransitionTable::build(
        vec![LifecycleState::Running],
        vec![LifecycleEvent::Complete],
        vec![Transition {
            from: LifecycleState::Running,
            event: LifecycleEvent::Complete,
            to: LifecycleState::Done, // not in the state set
        }],
    )
    .unwrap_err();
    assert_eq!(err, TableError::UnknownToState("done"));
}

#[test]
fn unknown_event_is_rejected() {
    let err = TransitionTable::build(
        vec![LifecycleState::Running, LifecycleState::Done],
        vec![LifecycleEvent::Fail], // `Complete` not declared
        vec![Transition {
            from: LifecycleState::Running,
            event: LifecycleEvent::Complete,
            to: LifecycleState::Done,
        }],
    )
    .unwrap_err();
    assert_eq!(err, TableError::UnknownEvent("complete"));
}

#[test]
fn nondeterministic_edge_is_rejected() {
    let err = TransitionTable::build(
        vec![
            LifecycleState::Running,
            LifecycleState::SoftFailed,
            LifecycleState::Failed,
        ],
        vec![LifecycleEvent::SoftFail],
        vec![
            Transition {
                from: LifecycleState::Running,
                event: LifecycleEvent::SoftFail,
                to: LifecycleState::SoftFailed,
            },
            Transition {
                from: LifecycleState::Running,
                event: LifecycleEvent::SoftFail,
                to: LifecycleState::Failed,
            },
        ],
    )
    .unwrap_err();
    assert_eq!(
        err,
        TableError::NondeterministicEdge {
            from: "running",
            event: "soft_fail",
        }
    );
}

#[test]
fn happy_path_spawn_to_done() {
    let m = TransitionTable::canonical();
    let mut st = LifecycleState::Spawned;
    st = m.next(st, LifecycleEvent::Start).unwrap();
    assert_eq!(st, LifecycleState::Running);
    st = m.next(st, LifecycleEvent::Complete).unwrap();
    assert_eq!(st, LifecycleState::Done);
    assert!(st.is_terminal());
}

#[test]
fn soft_fail_recover_then_complete() {
    let m = TransitionTable::canonical();
    let st = LifecycleState::Running;
    let st = m.next(st, LifecycleEvent::SoftFail).unwrap();
    assert_eq!(st, LifecycleState::SoftFailed);
    let st = m.next(st, LifecycleEvent::Recover).unwrap();
    assert_eq!(st, LifecycleState::Running);
    let st = m.next(st, LifecycleEvent::Complete).unwrap();
    assert_eq!(st, LifecycleState::Done);
}

#[test]
fn soft_fail_flag_to_failed() {
    let m = TransitionTable::canonical();
    let st = m
        .next(LifecycleState::Running, LifecycleEvent::SoftFail)
        .unwrap();
    let st = m.next(st, LifecycleEvent::Flag).unwrap();
    assert_eq!(st, LifecycleState::Failed);
    assert!(st.is_terminal());
}

#[test]
fn batch_round_trip() {
    let m = TransitionTable::canonical();
    let st = m
        .next(LifecycleState::Running, LifecycleEvent::BatchSpawned)
        .unwrap();
    assert_eq!(st, LifecycleState::AwaitingBatch);
    let st = m.next(st, LifecycleEvent::BatchSettled).unwrap();
    assert_eq!(st, LifecycleState::Running);
}

#[test]
fn checkpoint_round_trip() {
    let m = TransitionTable::canonical();
    let st = m
        .next(LifecycleState::Running, LifecycleEvent::Pause)
        .unwrap();
    assert_eq!(st, LifecycleState::Checkpoint);
    let st = m.next(st, LifecycleEvent::Resume).unwrap();
    assert_eq!(st, LifecycleState::Running);
}

#[test]
fn module_level_convenience_fns() {
    assert_eq!(
        lifecycle::next(LifecycleState::Spawned, LifecycleEvent::Start),
        Some(LifecycleState::Running)
    );
    assert_eq!(
        lifecycle::next(LifecycleState::Spawned, LifecycleEvent::Complete),
        None
    );
    assert!(lifecycle::diagram().contains("--start--> running"));
}

#[test]
fn is_legal_matches_next() {
    let m = TransitionTable::canonical();
    for &st in &LifecycleState::ALL {
        for ev in LifecycleEvent::ALL {
            assert_eq!(m.is_legal(st, ev), m.next(st, ev).is_some());
        }
    }
    assert!(m.is_legal(LifecycleState::Running, LifecycleEvent::Complete));
    assert!(!m.is_legal(LifecycleState::Done, LifecycleEvent::Start));
}

#[test]
fn illegal_edges_are_rejected() {
    let m = TransitionTable::canonical();
    assert!(m.next(LifecycleState::Spawned, LifecycleEvent::Complete).is_none());
    assert!(m.next(LifecycleState::Running, LifecycleEvent::Recover).is_none());
    assert!(m.next(LifecycleState::Running, LifecycleEvent::Flag).is_none());
    assert!(m.next(LifecycleState::SoftFailed, LifecycleEvent::Complete).is_none());
}

#[test]
fn terminal_states_have_no_outgoing_edges() {
    let m = TransitionTable::canonical();
    for term in [LifecycleState::Done, LifecycleState::Failed] {
        assert!(term.is_terminal());
        assert!(m.outgoing(term).is_empty());
        for ev in LifecycleEvent::ALL {
            assert!(
                m.next(term, ev).is_none(),
                "terminal {term:?} accepted {ev:?}"
            );
        }
    }
}

#[test]
fn every_non_terminal_state_is_reachable_and_escapable() {
    let m = TransitionTable::canonical();
    let mut targets: HashSet<LifecycleState> = HashSet::new();
    for t in m.transitions() {
        targets.insert(t.to);
    }
    for st in m.states() {
        if !st.is_terminal() {
            assert!(!m.outgoing(*st).is_empty(), "non-terminal {st:?} is a dead end");
        }
        if *st != LifecycleState::Spawned {
            assert!(targets.contains(st), "{st:?} is unreachable");
        }
    }
}

#[test]
fn diagram_renders_states_and_edges() {
    let d = TransitionTable::canonical().diagram();
    assert!(d.contains("worker/coordinator lifecycle"));
    assert!(d.contains("spawned"));
    assert!(d.contains("--start--> running"));
    assert!(d.contains("--soft_fail--> soft_failed"));
    assert!(d.contains("--flag--> failed"));
    assert!(d.contains("done"));
    assert!(d.contains("(terminal)"));
    assert_eq!(lifecycle::diagram(), d);
}

#[test]
fn state_name_round_trip() {
    for st in LifecycleState::ALL {
        assert_eq!(LifecycleState::parse(st.as_str()), Some(st));
    }
    assert_eq!(LifecycleState::parse("nonsense"), None);
}

#[test]
fn all_arrays_have_no_dupes() {
    let states: HashSet<_> = LifecycleState::ALL.iter().map(|s| s.as_str()).collect();
    assert_eq!(states.len(), LifecycleState::ALL.len());
    let events: HashSet<_> = LifecycleEvent::ALL.iter().map(|e| e.as_str()).collect();
    assert_eq!(events.len(), LifecycleEvent::ALL.len());
}

#[test]
fn phase_bridge_is_total_and_correct() {
    assert_eq!(LifecycleState::from_phase(Phase::Coordinating), LifecycleState::Running);
    assert_eq!(
        LifecycleState::from_phase(Phase::AwaitingBatch),
        LifecycleState::AwaitingBatch
    );
    assert_eq!(LifecycleState::from_phase(Phase::Checkpoint), LifecycleState::Checkpoint);
    assert_eq!(LifecycleState::from_phase(Phase::Done), LifecycleState::Done);
    assert_eq!(LifecycleState::from_phase(Phase::Failed), LifecycleState::Failed);
}

#[test]
fn worker_status_bridge() {
    assert_eq!(
        LifecycleState::from_worker_status("running"),
        Some(LifecycleState::Running)
    );
    assert_eq!(LifecycleState::from_worker_status("done"), Some(LifecycleState::Done));
    assert_eq!(
        LifecycleState::from_worker_status("failed"),
        Some(LifecycleState::Failed)
    );
    assert_eq!(LifecycleState::from_worker_status("weird"), None);
}

#[test]
fn disposition_bridge_maps_recovery_events() {
    assert_eq!(
        LifecycleEvent::from_disposition(Disposition::Resume),
        Some(LifecycleEvent::Recover)
    );
    assert_eq!(
        LifecycleEvent::from_disposition(Disposition::Nudge),
        Some(LifecycleEvent::Recover)
    );
    assert_eq!(
        LifecycleEvent::from_disposition(Disposition::FlagOperator),
        Some(LifecycleEvent::Flag)
    );
    assert_eq!(LifecycleEvent::from_disposition(Disposition::NoAction), None);
}

#[test]
fn disposition_then_transition_end_to_end() {
    let m = TransitionTable::canonical();
    let st = LifecycleState::SoftFailed;
    let ev = LifecycleEvent::from_disposition(Disposition::FlagOperator)
        .expect("flag maps to an event");
    assert_eq!(m.next(st, ev), Some(LifecycleState::Failed));
}

#[test]
fn table_errors_speak() {
    assert!(TableError::DuplicateState("running").message().contains("running"));
    let e = TableError::NondeterministicEdge { from: "running", event: "soft_fail" };
    assert!(e.message().contains("running") && e.message().contains("soft_fail"));
    assert_eq!(LifecycleState::AwaitingBatch.to_string(), "awaiting_batch");
    assert_eq!(LifecycleEvent::BatchSettled.to_string(), "batch_settled");
}

#[test]
fn edges_leave_in_table_order() {
    let m = TransitionTable::canonical();
    let out = m.outgoing(LifecycleState::SoftFailed);
    assert_eq!(
        out,
        vec![
            (LifecycleEvent::Recover, LifecycleState::Running),
            (LifecycleEvent::Flag, LifecycleState::Failed),
        ]
    );
    assert!(m.diagram().contains("\ndone  (terminal)\n  · no outgoing transitions\n"));
}
