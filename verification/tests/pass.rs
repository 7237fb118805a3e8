//! The rules of a tick, one answer at a time.

use script_bridge::manager::ScriptManager;
use script_bridge::pass::{Action, Event, TickPass};
use script_bridge::report::{Failure, FailureKind, TickReport};
use script_bridge::transform::Transform;

/// A pass over the given entities.
fn pass_over(entities: &[u64]) -> TickPass {
    let mut manager: ScriptManager<()> = ScriptManager::new();
    for entity in entities {
        manager.add_script(*entity, ());
    }
    manager.begin_tick()
}

fn sixteen() -> Vec<u32> {
    (100..116).collect()
}

fn sixteen_transform() -> Transform {
    Transform {
        elements: [100, 101, 102, 103, 104, 105, 106, 107, 108, 109, 110, 111, 112, 113, 114, 115],
    }
}

#[test]
fn pass_over_nothing_is_done_at_once() {
    let pass = pass_over(&[]);
    assert!(pass.is_done());
    assert_eq!(pass.position(), 0);
    assert_eq!(pass.pending(), Action::Done);
    let pass = pass.resolve(Event::Stepped).resolve(Event::StoreFailed);
    assert_eq!(pass.pending(), Action::Done);
    assert_eq!(pass.into_report(), TickReport { written: 0, failures: Vec::new() });
}

#[test]
fn pass_asks_for_step_then_query_then_write() {
    let pass = pass_over(&[4]);
    assert!(!pass.is_done());
    assert_eq!(pass.pending(), Action::Advance(4));
    let pass = pass.resolve(Event::Stepped);
    assert_eq!(pass.pending(), Action::Query(4));
    assert_eq!(pass.position(), 0);
    let pass = pass.resolve(Event::Elements(sixteen()));
    assert_eq!(pass.pending(), Action::Write(4, sixteen_transform()));
    assert_eq!(pass.position(), 0);
    let pass = pass.resolve(Event::Stored);
    assert_eq!(pass.pending(), Action::Done);
    assert_eq!(pass.position(), 1);
    assert!(pass.is_done());
    assert_eq!(pass.into_report(), TickReport { written: 1, failures: Vec::new() });
}

#[test]
fn pass_visits_by_increasing_identifier() {
    let mut pass = pass_over(&[30, 10, 20]);
    let mut visited = Vec::new();
    while let Action::Advance(entity) = pass.pending() {
        visited.push((pass.position(), entity));
        pass = pass.resolve(Event::StepFailed);
    }
    assert_eq!(visited, vec![(0, 10), (1, 20), (2, 30)]);
    assert!(pass.is_done());
}

#[test]
fn failed_step_moves_on_without_query() {
    let pass = pass_over(&[1, 2]);
    let pass = pass.resolve(Event::StepFailed);
    assert_eq!(pass.pending(), Action::Advance(2));
    assert_eq!(pass.position(), 1);
    let pass = pass.resolve(Event::Stepped).resolve(Event::Elements(sixteen()));
    assert_eq!(pass.pending(), Action::Write(2, sixteen_transform()));
    let pass = pass.resolve(Event::Stored);
    assert!(pass.is_done());
    let report = pass.into_report();
    assert_eq!(report.written, 1);
    assert_eq!(report.failures, vec![Failure { entity: 1, kind: FailureKind::ScriptStep }]);
    assert_eq!(report.failed_entities(), vec![1]);
}

#[test]
fn fifteen_and_seventeen_elements_are_malformed() {
    for length in [0usize, 1, 15, 17, 32] {
        let pass = pass_over(&[6, 9]).resolve(Event::Stepped);
        let pass = pass.resolve(Event::Elements(vec![7; length]));
        assert_eq!(pass.pending(), Action::Advance(9), "{} elements", length);
        let report = pass.into_report();
        assert_eq!(
            report.failures,
            vec![Failure { entity: 6, kind: FailureKind::MalformedTransform }]
        );
    }
}

#[test]
fn no_elements_is_malformed() {
    let pass = pass_over(&[6]).resolve(Event::Stepped).resolve(Event::NoElements);
    assert!(pass.is_done());
    let report = pass.into_report();
    assert_eq!(report.failures, vec![Failure { entity: 6, kind: FailureKind::MalformedTransform }]);
    assert_eq!(report.failed_entities(), vec![6]);
}

#[test]
fn refused_write_is_recorded_as_store_failure() {
    let pass = pass_over(&[3])
        .resolve(Event::Stepped)
        .resolve(Event::Elements(sixteen()))
        .resolve(Event::StoreFailed);
    assert!(pass.is_done());
    let report = pass.into_report();
    assert_eq!(report.written, 0);
    assert_eq!(report.failures, vec![Failure { entity: 3, kind: FailureKind::StoreWrite }]);
    assert!(report.failed_entities().is_empty());
}

#[test]
fn event_out_of_turn_is_dropped() {
    let pass = pass_over(&[1]);
    // Waiting for the step: answers to a query or a write change nothing.
    let pass = pass
        .resolve(Event::Elements(sixteen()))
        .resolve(Event::NoElements)
        .resolve(Event::Stored)
        .resolve(Event::StoreFailed);
    assert_eq!(pass.pending(), Action::Advance(1));
    let pass = pass.resolve(Event::Stepped);
    // Waiting for the query.
    let pass = pass
        .resolve(Event::Stepped)
        .resolve(Event::StepFailed)
        .resolve(Event::Stored)
        .resolve(Event::StoreFailed);
    assert_eq!(pass.pending(), Action::Query(1));
    let pass = pass.resolve(Event::Elements(sixteen()));
    // Waiting for the write.
    let pass = pass
        .resolve(Event::Stepped)
        .resolve(Event::StepFailed)
        .resolve(Event::Elements(vec![1, 2]))
        .resolve(Event::NoElements);
    assert_eq!(pass.pending(), Action::Write(1, sixteen_transform()));
    let pass = pass.resolve(Event::Stored);
    assert!(pass.is_done());
    assert_eq!(pass.into_report(), TickReport { written: 1, failures: Vec::new() });
}

#[test]
fn report_of_unfinished_pass_holds_failures_so_far() {
    let pass = pass_over(&[1, 2, 3]).resolve(Event::StepFailed).resolve(Event::Stepped);
    assert!(!pass.is_done());
    let report = pass.into_report();
    assert_eq!(report.written, 0);
    assert_eq!(report.failures, vec![Failure { entity: 1, kind: FailureKind::ScriptStep }]);
}

#[test]
fn failures_are_reported_by_increasing_identifier() {
    let pass = pass_over(&[5, 3, 8, 1])
        .resolve(Event::StepFailed)
        .resolve(Event::Stepped)
        .resolve(Event::Elements(sixteen()))
        .resolve(Event::StoreFailed)
        .resolve(Event::Stepped)
        .resolve(Event::NoElements)
        .resolve(Event::Stepped)
        .resolve(Event::Elements(sixteen()))
        .resolve(Event::Stored);
    assert!(pass.is_done());
    assert_eq!(pass.position(), 4);
    let report = pass.into_report();
    assert_eq!(report.written, 1);
    assert_eq!(
        report.failures,
        vec![
            Failure { entity: 1, kind: FailureKind::ScriptStep },
            Failure { entity: 3, kind: FailureKind::StoreWrite },
            Failure { entity: 5, kind: FailureKind::MalformedTransform },
        ]
    );
    assert_eq!(report.failed_entities(), vec![1, 5]);
}

#[test]
fn from_elements_takes_exactly_sixteen() {
    assert_eq!(Transform::from_elements(&sixteen()), Some(sixteen_transform()));
    assert_eq!(Transform::from_elements(&Vec::new()), None);
    assert_eq!(Transform::from_elements(&vec![0; 15]), None);
    assert_eq!(Transform::from_elements(&vec![0; 17]), None);
    assert_eq!(Transform::from_elements(&vec![0; 16]), Some(Transform { elements: [0; 16] }));
    assert_eq!(
        Transform::from_elements(&vec![u32::MAX; 16]),
        Some(Transform { elements: [u32::MAX; 16] })
    );
}

#[test]
fn failed_entities_leaves_out_store_failures() {
    let report = TickReport {
        written: 3,
        failures: vec![
            Failure { entity: 2, kind: FailureKind::StoreWrite },
            Failure { entity: 4, kind: FailureKind::MalformedTransform },
            Failure { entity: 6, kind: FailureKind::StoreWrite },
            Failure { entity: 8, kind: FailureKind::ScriptStep },
        ],
    };
    assert_eq!(report.failed_entities(), vec![4, 8]);
    assert!(TickReport { written: 0, failures: Vec::new() }.failed_entities().is_empty());
}

/// The six kinds of event, by number.
fn event(kind: usize) -> Event {
    match kind {
        0 => Event::Stepped,
        1 => Event::StepFailed,
        2 => Event::Elements(sixteen()),
        3 => Event::Elements(vec![1, 2, 3]),
        4 => Event::NoElements,
        5 => Event::Stored,
        _ => Event::StoreFailed,
    }
}

#[test]
fn every_short_sequence_of_events_keeps_the_account() {
    // All sequences of six events over two entities.
    for code in 0..7usize.pow(6) {
        let mut pass = pass_over(&[20, 10]);
        let mut rest = code;
        let mut writes: Vec<u64> = Vec::new();
        for _ in 0..6 {
            let next = event(rest % 7);
            rest /= 7;
            let asked = pass.pending();
            let before = pass.position();
            pass = pass.resolve(next);
            if let Action::Write(entity, transform) = asked {
                if pass.position() > before {
                    assert_eq!(transform, sixteen_transform());
                    writes.push(entity);
                }
            }
            assert!(pass.position() >= before);
            assert!(pass.position() <= 2);
            assert_eq!(pass.is_done(), pass.position() == 2);
            assert_eq!(pass.is_done(), pass.pending() == Action::Done);
        }
        let dealt_with = pass.position();
        let report = pass.into_report();
        assert_eq!(report.written + report.failures.len(), dealt_with);
        for pair in report.failures.windows(2) {
            assert!(pair[0].entity < pair[1].entity);
        }
        for failure in &report.failures {
            assert!(failure.entity == 10 || failure.entity == 20);
            if failure.kind != FailureKind::StoreWrite {
                assert!(!writes.contains(&failure.entity), "sequence {}", code);
            }
        }
        for entity in report.failed_entities() {
            assert!(!writes.contains(&entity));
        }
    }
}
