//! The decisions of the supervisor: the order in which services start, and
//! what to do on each thing that happens while they run and while they stop.
//!
//! The supervisor itself (spawning tasks, waiting on them, timers) is a loop
//! that feeds events to `supervisor_step` and performs the actions it returns.
use vstd::prelude::*;
use std::time::Duration;

use tokio_util::sync::CancellationToken;

use crate::runtime::dag::{
    all_deps_known, first_unknown, in_ready_order, is_topo_order, name_views, stuck_names, topo_sort, DagError,
};
use crate::runtime::types::{child_of_token, RuntimeError, ShutdownReason};
use crate::service::{DynServiceError, ServiceName, ServiceSpec};
use crate::util::dedup_first;

verus! {

/// The order in which to start the services: a topological order of their
/// dependency graph, or the graph's error.
pub fn startup_order<F, E>(specs: &[ServiceSpec<F>]) -> (r: Result<Vec<usize>, RuntimeError<E>>)
    ensures
        r matches Ok(order) ==> is_topo_order(specs@, order@),
        r matches Ok(order) ==> in_ready_order(specs@, order@),
        r is Ok <==> exists|o: Seq<usize>| is_topo_order(specs@, o),
        r matches Err(e) ==> e is Dag,
        (r matches Err(RuntimeError::Dag(DagError::UnknownDependency { .. }))) <==> !all_deps_known(
            specs@,
        ),
        r matches Err(RuntimeError::Dag(DagError::UnknownDependency { service, dep })) ==> exists|
            v: int,
            k: int,
        | first_unknown(specs@, v, k) && service == specs@[v].name && dep == specs@[v].deps@[k],
        r matches Err(RuntimeError::Dag(DagError::Cycle(names))) ==> name_views(names@)
            == dedup_first(stuck_names(specs@)),
{
    match topo_sort(specs) {
        Ok(order) => Ok(order),
        Err(e) => Err(RuntimeError::Dag(e)),
    }
}

/// The cancellation token of one service: a child of the runtime's root token,
/// so that cancelling the runtime cancels every service.
pub fn child_service_token(root: &CancellationToken, _name: ServiceName) -> (t: CancellationToken) {
    child_of_token(root)
}

/// Whether `a < b` holds for two durations.
pub uninterp spec fn duration_less(a: Duration, b: Duration) -> bool;

/// Calls `<Duration as PartialOrd>::lt`, which compares two durations (a
/// total order on their length); its value is named, not described.
#[verifier::external_body]
fn shorter(a: Duration, b: Duration) -> (r: bool)
    ensures
        r == duration_less(a, b),
{
    a < b
}

/// While stopping, whether the deadline has passed: the time spent draining
/// is no longer shorter than the shutdown timeout.
pub fn deadline_passed(elapsed: Duration, timeout: Duration) -> (r: bool)
    ensures
        r == !duration_less(elapsed, timeout),
{
    !shorter(elapsed, timeout)
}

/// Where the supervisor is.
pub enum SupervisorState<E> {
    /// The services run; waiting for a shutdown request or for a service to
    /// end.
    Watching,
    /// Shutdown was requested; waiting for the services to stop. Holds the
    /// failure to report once they have, if a service failed.
    Draining { failure: Option<DynServiceError<E>> },
    /// The supervisor has returned.
    Stopped,
}

/// What the supervisor observes.
pub enum SupervisorEvent<E> {
    /// Shutdown was requested through a handle.
    ShutdownRequested,
    /// No service task is left.
    AllExited,
    /// A service returned without error.
    ServiceExited,
    /// A service returned an error.
    ServiceFailed(DynServiceError<E>),
    /// A service task ended without returning (it panicked or was aborted);
    /// the error that describes it.
    TaskAborted(E),
    /// While stopping: the shutdown timeout has passed.
    DeadlinePassed,
    /// While stopping: one more task has ended.
    TaskEnded,
    /// While stopping: no task is left.
    NoTaskLeft,
    /// While stopping: a short wait passed with no task ending.
    WaitElapsed,
}

/// What the supervisor does next.
pub enum SupervisorAction<E> {
    /// Keep waiting for the next event.
    Wait,
    /// Request shutdown (with this reason, or keeping the recorded one when
    /// `None`), then wait for the services to stop.
    BeginShutdown(Option<ShutdownReason>),
    /// Return this result from running the runtime.
    Finish(Result<(), RuntimeError<E>>),
}

/// The supervisor's decision on `event` in `state`, where `timeout` is the
/// runtime's shutdown timeout.
pub open spec fn step_spec<E>(state: SupervisorState<E>, event: SupervisorEvent<E>, timeout: Duration) -> (
    SupervisorState<E>,
    SupervisorAction<E>,
) {
    match state {
        SupervisorState::Watching => match event {
            SupervisorEvent::ShutdownRequested => (
                SupervisorState::Draining { failure: None },
                SupervisorAction::BeginShutdown(None),
            ),
            SupervisorEvent::AllExited => (
                SupervisorState::Draining { failure: None },
                SupervisorAction::BeginShutdown(None),
            ),
            SupervisorEvent::ServiceFailed(e) => (
                SupervisorState::Draining { failure: Some(e) },
                SupervisorAction::BeginShutdown(Some(ShutdownReason::ServiceFailed)),
            ),
            SupervisorEvent::TaskAborted(j) => (
                SupervisorState::Draining { failure: Some(aborted_failure(j)) },
                SupervisorAction::BeginShutdown(Some(ShutdownReason::ServiceFailed)),
            ),
            _ => (SupervisorState::Watching, SupervisorAction::Wait),
        },
        SupervisorState::Draining { failure } => match event {
            SupervisorEvent::DeadlinePassed => (
                SupervisorState::Stopped,
                SupervisorAction::Finish(Err(RuntimeError::ShutdownTimeout(timeout))),
            ),
            SupervisorEvent::NoTaskLeft => (
                SupervisorState::Stopped,
                SupervisorAction::Finish(
                    match failure {
                        Some(e) => Err(RuntimeError::ServiceFailed(e)),
                        None => Ok(()),
                    },
                ),
            ),
            _ => (SupervisorState::Draining { failure }, SupervisorAction::Wait),
        },
        SupervisorState::Stopped => (SupervisorState::Stopped, SupervisorAction::Wait),
    }
}

/// The failure reported for a task that ended without returning: it is put
/// down to a service named `"<unknown>"`.
pub open spec fn aborted_failure<E>(j: E) -> DynServiceError<E> {
    DynServiceError { service: "<unknown>", source: j }
}

/// The supervisor's decision on `event` in `state`:
///
/// - while watching, a shutdown request or the end of all tasks starts a
///   graceful shutdown that keeps the recorded reason; a failed service (or a
///   task that ended without returning, reported under `"<unknown>"`) starts a
///   shutdown for `ServiceFailed` and is remembered; a service that returns
///   without error changes nothing;
/// - while stopping, the deadline ends the run with `ShutdownTimeout`, the end
///   of all tasks ends it with the remembered failure (or success), and
///   anything else means waiting on;
/// - once stopped, nothing changes.
pub fn supervisor_step<E>(state: SupervisorState<E>, event: SupervisorEvent<E>, timeout: Duration) -> (r: (
    SupervisorState<E>,
    SupervisorAction<E>,
))
    ensures
        r == step_spec(state, event, timeout),
        state is Draining && event is DeadlinePassed ==> r.0 is Stopped && r.1
            == SupervisorAction::<E>::Finish(Err(RuntimeError::ShutdownTimeout(timeout))),
        r.1 matches SupervisorAction::Finish(Ok(())) ==> state is Draining && event is NoTaskLeft,
{
    match state {
        SupervisorState::Watching => match event {
            SupervisorEvent::ShutdownRequested => (
                SupervisorState::Draining { failure: None },
                SupervisorAction::BeginShutdown(None),
            ),
            SupervisorEvent::AllExited => (
                SupervisorState::Draining { failure: None },
                SupervisorAction::BeginShutdown(None),
            ),
            SupervisorEvent::ServiceFailed(e) => (
                SupervisorState::Draining { failure: Some(e) },
                SupervisorAction::BeginShutdown(Some(ShutdownReason::ServiceFailed)),
            ),
            SupervisorEvent::TaskAborted(j) => (
                SupervisorState::Draining { failure: Some(DynServiceError { service: "<unknown>", source: j }) },
                SupervisorAction::BeginShutdown(Some(ShutdownReason::ServiceFailed)),
            ),
            _ => (SupervisorState::Watching, SupervisorAction::Wait),
        },
        SupervisorState::Draining { failure } => match event {
            SupervisorEvent::DeadlinePassed => (
                SupervisorState::Stopped,
                SupervisorAction::Finish(Err(RuntimeError::ShutdownTimeout(timeout))),
            ),
            SupervisorEvent::NoTaskLeft => (
                SupervisorState::Stopped,
                SupervisorAction::Finish(
                    match failure {
                        Some(e) => Err(RuntimeError::ServiceFailed(e)),
                        None => Ok(()),
                    },
                ),
            ),
            _ => (SupervisorState::Draining { failure }, SupervisorAction::Wait),
        },
        SupervisorState::Stopped => (SupervisorState::Stopped, SupervisorAction::Wait),
    }
}

/// The result a run from `state` through `events` returns: that of the
/// first `Finish` action, if there is one.
pub open spec fn run_result<E>(state: SupervisorState<E>, events: Seq<SupervisorEvent<E>>, timeout: Duration) -> Option<
    Result<(), RuntimeError<E>>,
>
    decreases events.len(),
{
    if events.len() == 0 {
        None
    } else {
        let (next, action) = step_spec(state, events[0], timeout);
        match action {
            SupervisorAction::Finish(r) => Some(r),
            _ => run_result(next, events.drop_first(), timeout),
        }
    }
}

/// A failure is never lost: once a service has failed, the run can only end
/// with that failure, or with the shutdown timeout if the services do not stop
/// in time.
pub proof fn lemma_failure_is_reported<E>(
    e: DynServiceError<E>,
    events: Seq<SupervisorEvent<E>>,
    timeout: Duration,
)
    ensures
        run_result(SupervisorState::Draining { failure: Some(e) }, events, timeout) matches Some(r)
            ==> r == Err::<(), RuntimeError<E>>(RuntimeError::ServiceFailed(e)) || r == Err::<
            (),
            RuntimeError<E>,
        >(RuntimeError::ShutdownTimeout(timeout)),
    decreases events.len(),
{
    if events.len() > 0 {
        lemma_failure_is_reported(e, events.drop_first(), timeout);
    }
}

/// A service failure seen while watching ends the run in an error.
pub proof fn lemma_failure_ends_in_error<E>(
    e: DynServiceError<E>,
    events: Seq<SupervisorEvent<E>>,
    timeout: Duration,
)
    ensures
        run_result(
            SupervisorState::Watching,
            seq![SupervisorEvent::ServiceFailed(e)] + events,
            timeout,
        ) matches Some(r) ==> r is Err,
{
    let all = seq![SupervisorEvent::ServiceFailed(e)] + events;
    assert(all[0] == SupervisorEvent::ServiceFailed(e));
    assert(all.drop_first() =~= events);
    lemma_failure_is_reported(e, events, timeout);
}

/// A graceful shutdown (requested, or every service gone) ends the run
/// successfully, or with the shutdown timeout if the services do not stop in
/// time.
pub proof fn lemma_graceful_shutdown<E>(events: Seq<SupervisorEvent<E>>, timeout: Duration)
    ensures
        run_result(SupervisorState::Draining { failure: None }, events, timeout) matches Some(r)
            ==> r is Ok || r == Err::<(), RuntimeError<E>>(RuntimeError::ShutdownTimeout(timeout)),
    decreases events.len(),
{
    if events.len() > 0 {
        lemma_graceful_shutdown(events.drop_first(), timeout);
    }
}

/// Services that return without error do not stop the runtime: the
/// supervisor keeps watching and never returns.
pub proof fn lemma_clean_exits_keep_running<E>(events: Seq<SupervisorEvent<E>>, timeout: Duration)
    requires
        forall|i: int| 0 <= i < events.len() ==> #[trigger] events[i] is ServiceExited,
    ensures
        run_result(SupervisorState::Watching, events, timeout) is None,
    decreases events.len(),
{
    if events.len() > 0 {
        assert(events[0] is ServiceExited);
        assert forall|i: int| 0 <= i < events.drop_first().len() implies #[trigger] events.drop_first()[i] is ServiceExited by {
            assert(events.drop_first()[i] == events[i + 1]);
        }
        lemma_clean_exits_keep_running(events.drop_first(), timeout);
    }
}

/// Once the supervisor has returned, nothing makes it return again.
pub proof fn lemma_stopped_is_final<E>(events: Seq<SupervisorEvent<E>>, timeout: Duration)
    ensures
        run_result(SupervisorState::Stopped, events, timeout) is None,
    decreases events.len(),
{
    if events.len() > 0 {
        lemma_stopped_is_final(events.drop_first(), timeout);
    }
}

/// When the shutdown timeout passes while the services are stopping, the
/// run ends with `ShutdownTimeout(timeout)`, whether or not a service had
/// failed: the services did not stop in time.
pub proof fn lemma_deadline_ends_in_timeout<E>(failure: Option<DynServiceError<E>>, timeout: Duration)
    ensures
        step_spec(SupervisorState::Draining { failure }, SupervisorEvent::<E>::DeadlinePassed, timeout) == (
            SupervisorState::<E>::Stopped,
            SupervisorAction::<E>::Finish(Err(RuntimeError::ShutdownTimeout(timeout))),
        ),
        forall|events: Seq<SupervisorEvent<E>>|
            run_result(
                SupervisorState::Draining { failure },
                seq![SupervisorEvent::<E>::DeadlinePassed] + events,
                timeout,
            ) == Some(Err::<(), RuntimeError<E>>(RuntimeError::ShutdownTimeout(timeout))),
{
    assert forall|events: Seq<SupervisorEvent<E>>|
        run_result(
            SupervisorState::Draining { failure },
            seq![SupervisorEvent::<E>::DeadlinePassed] + events,
            timeout,
        ) == Some(Err::<(), RuntimeError<E>>(RuntimeError::ShutdownTimeout(timeout))) by {
        let all = seq![SupervisorEvent::<E>::DeadlinePassed] + events;
        assert(all[0] == SupervisorEvent::<E>::DeadlinePassed);
    }
}

/// The run only ever returns `Ok` once every task has stopped: the event
/// that ends a successful run is `NoTaskLeft`, reached through a graceful
/// shutdown with no failure recorded.
pub proof fn lemma_ok_needs_all_stopped<E>(
    state: SupervisorState<E>,
    events: Seq<SupervisorEvent<E>>,
    timeout: Duration,
)
    ensures
        run_result(state, events, timeout) == Some(Ok::<(), RuntimeError<E>>(())) ==> exists|i: int|
            0 <= i < events.len() && #[trigger] events[i] is NoTaskLeft,
    decreases events.len(),
{
    if events.len() > 0 {
        let (next, action) = step_spec(state, events[0], timeout);
        lemma_ok_needs_all_stopped(next, events.drop_first(), timeout);
        if run_result(state, events, timeout) == Some(Ok::<(), RuntimeError<E>>(())) {
            if action is Finish {
                assert(events[0] is NoTaskLeft);
            } else {
                let i = choose|i: int| 0 <= i < events.drop_first().len() && #[trigger] events.drop_first()[i] is NoTaskLeft;
                assert(events[i + 1] is NoTaskLeft);
            }
        }
    }
}

/// What the supervisor does while watching: a shutdown request or the end
/// of all tasks starts a graceful shutdown keeping the recorded reason; a
/// failure (or a task that ended without returning, put down to
/// `"<unknown>"`) starts a shutdown for `ServiceFailed` and is kept to be
/// reported; a clean exit changes nothing.
pub proof fn lemma_watching_decisions<E>(e: DynServiceError<E>, j: E, timeout: Duration)
    ensures
        step_spec(SupervisorState::<E>::Watching, SupervisorEvent::<E>::ShutdownRequested, timeout) == (
            SupervisorState::<E>::Draining { failure: None },
            SupervisorAction::<E>::BeginShutdown(None),
        ),
        step_spec(SupervisorState::<E>::Watching, SupervisorEvent::<E>::AllExited, timeout) == (
            SupervisorState::<E>::Draining { failure: None },
            SupervisorAction::<E>::BeginShutdown(None),
        ),
        step_spec(SupervisorState::<E>::Watching, SupervisorEvent::<E>::ServiceExited, timeout) == (
            SupervisorState::<E>::Watching,
            SupervisorAction::<E>::Wait,
        ),
        step_spec(SupervisorState::Watching, SupervisorEvent::ServiceFailed(e), timeout) == (
            SupervisorState::<E>::Draining { failure: Some(e) },
            SupervisorAction::<E>::BeginShutdown(Some(ShutdownReason::ServiceFailed)),
        ),
        step_spec(SupervisorState::Watching, SupervisorEvent::TaskAborted(j), timeout).1
            == SupervisorAction::<E>::BeginShutdown(Some(ShutdownReason::ServiceFailed)),
        step_spec(SupervisorState::Watching, SupervisorEvent::TaskAborted(j), timeout).0 matches SupervisorState::Draining {
            failure: Some(f),
        } && f.source == j && f.service == "<unknown>",
{
}

/// What the supervisor does while the services stop: when none is left it
/// returns the recorded failure, or `Ok` after a graceful shutdown; while
/// tasks are still ending it keeps waiting, holding on to the failure.
pub proof fn lemma_draining_decisions<E>(failure: Option<DynServiceError<E>>, timeout: Duration)
    ensures
        failure matches Some(e) ==> step_spec(
            SupervisorState::Draining { failure },
            SupervisorEvent::<E>::NoTaskLeft,
            timeout,
        ) == (SupervisorState::<E>::Stopped, SupervisorAction::<E>::Finish(Err(RuntimeError::ServiceFailed(e)))),
        failure is None ==> step_spec(
            SupervisorState::Draining { failure },
            SupervisorEvent::<E>::NoTaskLeft,
            timeout,
        ) == (SupervisorState::<E>::Stopped, SupervisorAction::<E>::Finish(Ok(()))),
        step_spec(SupervisorState::Draining { failure }, SupervisorEvent::<E>::TaskEnded, timeout) == (
            SupervisorState::<E>::Draining { failure },
            SupervisorAction::<E>::Wait,
        ),
        step_spec(SupervisorState::Draining { failure }, SupervisorEvent::<E>::WaitElapsed, timeout) == (
            SupervisorState::<E>::Draining { failure },
            SupervisorAction::<E>::Wait,
        ),
{
}

} // verus!
