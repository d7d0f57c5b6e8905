use std::time::Duration;

use bee_runtime::runtime::supervisor::{
    deadline_passed, startup_order, supervisor_step, SupervisorAction, SupervisorEvent, SupervisorState,
};
use bee_runtime::service::DynServiceError;
use bee_runtime::{RuntimeError, ServiceSpec, ShutdownReason};

type State = SupervisorState<String>;
type Event = SupervisorEvent<String>;

fn timeout() -> Duration {
    Duration::from_secs(3)
}

fn failure(name: &'static str) -> DynServiceError<String> {
    DynServiceError { service: name, source: "boom".to_string() }
}

fn run(events: Vec<Event>) -> Option<Result<(), RuntimeError<String>>> {
    let mut state: State = SupervisorState::Watching;
    for ev in events {
        let (next, action) = supervisor_step(state, ev, timeout());
        state = next;
        if let SupervisorAction::Finish(r) = action {
            return Some(r);
        }
    }
    None
}

#[test]
fn shutdown_request_keeps_recorded_reason() {
    let (s, a) = supervisor_step::<String>(SupervisorState::Watching, SupervisorEvent::ShutdownRequested, timeout());
    assert!(matches!(s, SupervisorState::Draining { failure: None }));
    assert!(matches!(a, SupervisorAction::BeginShutdown(None)));
}

#[test]
fn all_exited_shuts_down_gracefully() {
    let (s, a) = supervisor_step::<String>(SupervisorState::Watching, SupervisorEvent::AllExited, timeout());
    assert!(matches!(s, SupervisorState::Draining { failure: None }));
    assert!(matches!(a, SupervisorAction::BeginShutdown(None)));
}

#[test]
fn clean_exit_keeps_watching() {
    let (s, a) = supervisor_step::<String>(SupervisorState::Watching, SupervisorEvent::ServiceExited, timeout());
    assert!(matches!(s, SupervisorState::Watching));
    assert!(matches!(a, SupervisorAction::Wait));
    assert!(run(vec![SupervisorEvent::ServiceExited, SupervisorEvent::ServiceExited]).is_none());
}

#[test]
fn failure_requests_shutdown_for_service_failed() {
    let (s, a) = supervisor_step(SupervisorState::Watching, SupervisorEvent::ServiceFailed(failure("db")), timeout());
    match s {
        SupervisorState::Draining { failure: Some(e) } => assert_eq!(e.service, "db"),
        _ => panic!("failure not remembered"),
    }
    assert!(matches!(a, SupervisorAction::BeginShutdown(Some(ShutdownReason::ServiceFailed))));
}

#[test]
fn aborted_task_is_reported_as_unknown() {
    let (s, a) = supervisor_step::<String>(
        SupervisorState::Watching,
        SupervisorEvent::TaskAborted("panicked".to_string()),
        timeout(),
    );
    match s {
        SupervisorState::Draining { failure: Some(e) } => {
            assert_eq!(e.service, "<unknown>");
            assert_eq!(e.source, "panicked");
        }
        _ => panic!("abort not remembered"),
    }
    assert!(matches!(a, SupervisorAction::BeginShutdown(Some(ShutdownReason::ServiceFailed))));
}

#[test]
fn failure_is_returned_after_draining() {
    let r = run(vec![
        SupervisorEvent::ServiceExited,
        SupervisorEvent::ServiceFailed(failure("cache")),
        SupervisorEvent::TaskEnded,
        SupervisorEvent::WaitElapsed,
        SupervisorEvent::NoTaskLeft,
    ]);
    match r {
        Some(Err(RuntimeError::ServiceFailed(e))) => {
            assert_eq!(e.service, "cache");
            assert_eq!(e.source, "boom");
        }
        other => panic!("unexpected: {:?}", other),
    }
}

#[test]
fn graceful_shutdown_returns_ok() {
    let r = run(vec![SupervisorEvent::ShutdownRequested, SupervisorEvent::TaskEnded, SupervisorEvent::NoTaskLeft]);
    assert!(matches!(r, Some(Ok(()))));
}

#[test]
fn drain_deadline_gives_timeout_error() {
    let r = run(vec![
        SupervisorEvent::ServiceFailed(failure("x")),
        SupervisorEvent::WaitElapsed,
        SupervisorEvent::DeadlinePassed,
    ]);
    match r {
        Some(Err(RuntimeError::ShutdownTimeout(d))) => assert_eq!(d, Duration::from_secs(3)),
        other => panic!("unexpected: {:?}", other),
    }
}

#[test]
fn stopped_supervisor_ignores_events() {
    let (s, a) = supervisor_step::<String>(SupervisorState::Stopped, SupervisorEvent::NoTaskLeft, timeout());
    assert!(matches!(s, SupervisorState::Stopped));
    assert!(matches!(a, SupervisorAction::Wait));
}

#[test]
fn events_out_of_place_are_ignored() {
    let (s, a) = supervisor_step::<String>(SupervisorState::Watching, SupervisorEvent::DeadlinePassed, timeout());
    assert!(matches!(s, SupervisorState::Watching));
    assert!(matches!(a, SupervisorAction::Wait));
    let (s, a) = supervisor_step::<String>(
        SupervisorState::Draining { failure: None },
        SupervisorEvent::ServiceFailed(failure("late")),
        timeout(),
    );
    assert!(matches!(s, SupervisorState::Draining { failure: None }));
    assert!(matches!(a, SupervisorAction::Wait));
}

#[test]
fn startup_order_maps_graph_errors() {
    let specs = vec![
        ServiceSpec { name: "a", deps: vec!["b"], factory: () },
        ServiceSpec { name: "b", deps: vec!["a"], factory: () },
    ];
    assert!(matches!(startup_order::<(), String>(&specs), Err(RuntimeError::Dag(_))));
    let specs = vec![
        ServiceSpec { name: "a", deps: vec![], factory: () },
        ServiceSpec { name: "b", deps: vec!["a"], factory: () },
    ];
    assert_eq!(startup_order::<(), String>(&specs).unwrap(), vec![0, 1]);
}

#[test]
fn deadline_passes_once_the_timeout_is_reached() {
    assert!(!deadline_passed(Duration::from_millis(2999), Duration::from_secs(3)));
    assert!(deadline_passed(Duration::from_secs(3), Duration::from_secs(3)));
    assert!(deadline_passed(Duration::from_secs(4), Duration::from_secs(3)));
    assert!(deadline_passed(Duration::ZERO, Duration::ZERO));
}
