//! What a routing worker decides between its calls, and when a layout replaces the
//! best one.
//!
//! A worker polls the stop flag, reserves an order, routes it on a copy of the input and
//! releases it with the fitness found. The waiting, the locking and the copying are the
//! caller's; the decisions are here.
//!
//! The stop flag is polled before every reservation, also after a wait, so that a worker
//! that finds nothing to reserve still sees the flag. An attempt that was aborted, or whose
//! input has changed meanwhile, is dropped without a fitness for its order: whoever changes
//! the input starts the genetic algorithm over, which takes all reservations back.

use crate::layout::Layout;
use vstd::prelude::*;

verus! {

/// Where a worker stands.
#[derive(Clone, Copy, PartialEq, Eq, Structural, Debug)]
pub enum WorkerState {
    /// About to poll the stop flag.
    Polling,
    /// About to reserve an order.
    Reserving,
    /// Routing the order at the place given.
    Routing { ordering_idx: usize },
    /// At its end.
    Stopped,
}

/// What a worker learns from the call it was told to make.
#[derive(Clone, Copy, PartialEq, Eq, Structural, Debug)]
pub enum WorkerEvent {
    /// The stop flag was polled.
    StopPolled { stopped: bool },
    /// A reservation was tried.
    Reserved { ordering_idx: Option<usize> },
    /// The attempt has ended; `aborted` says that the stop flag ended it early, `stale` that
    /// the input has changed since the copy was taken.
    Routed { aborted: bool, stale: bool },
}

/// What a worker is to do next.
#[derive(Clone, Copy, PartialEq, Eq, Structural, Debug)]
pub enum WorkerAction {
    /// Poll the stop flag.
    PollStop,
    /// Try to reserve an order.
    Reserve,
    /// Wait a little, then poll the stop flag.
    WaitAndPoll,
    /// Copy the input and route the order at the place given.
    Route { ordering_idx: usize },
    /// Release the order with the fitness found, offer the layout as the best one, then
    /// poll the stop flag.
    ReleaseAndPoll { ordering_idx: usize },
    /// Drop the layout without releasing the order, then poll the stop flag.
    DiscardAndPoll,
    /// End.
    Finish,
}

/// The state that follows `state` on `event`, and what to do next. An event that does
/// not belong to the state ends the worker.
pub open spec fn worker_step_spec(state: WorkerState, event: WorkerEvent) -> (WorkerState, WorkerAction) {
    match (state, event) {
        (WorkerState::Polling, WorkerEvent::StopPolled { stopped }) => if stopped {
            (WorkerState::Stopped, WorkerAction::Finish)
        } else {
            (WorkerState::Reserving, WorkerAction::Reserve)
        },
        (WorkerState::Reserving, WorkerEvent::Reserved { ordering_idx }) => match ordering_idx {
            Some(i) => (WorkerState::Routing { ordering_idx: i }, WorkerAction::Route { ordering_idx: i }),
            None => (WorkerState::Polling, WorkerAction::WaitAndPoll),
        },
        (WorkerState::Routing { ordering_idx }, WorkerEvent::Routed { aborted, stale }) => if aborted || stale {
            (WorkerState::Polling, WorkerAction::DiscardAndPoll)
        } else {
            (WorkerState::Polling, WorkerAction::ReleaseAndPoll { ordering_idx })
        },
        _ => (WorkerState::Stopped, WorkerAction::Finish),
    }
}

/// The state that follows `state` on `event`, and what to do next.
pub fn worker_step(state: WorkerState, event: WorkerEvent) -> (r: (WorkerState, WorkerAction))
    ensures
        r == worker_step_spec(state, event),
{
    match state {
        WorkerState::Polling => match event {
            WorkerEvent::StopPolled { stopped } => if stopped {
                (WorkerState::Stopped, WorkerAction::Finish)
            } else {
                (WorkerState::Reserving, WorkerAction::Reserve)
            },
            _ => (WorkerState::Stopped, WorkerAction::Finish),
        },
        WorkerState::Reserving => match event {
            WorkerEvent::Reserved { ordering_idx } => match ordering_idx {
                Some(i) => (WorkerState::Routing { ordering_idx: i }, WorkerAction::Route { ordering_idx: i }),
                None => (WorkerState::Polling, WorkerAction::WaitAndPoll),
            },
            _ => (WorkerState::Stopped, WorkerAction::Finish),
        },
        WorkerState::Routing { ordering_idx } => match event {
            WorkerEvent::Routed { aborted, stale } => if aborted || stale {
                (WorkerState::Polling, WorkerAction::DiscardAndPoll)
            } else {
                (WorkerState::Polling, WorkerAction::ReleaseAndPoll { ordering_idx })
            },
            _ => (WorkerState::Stopped, WorkerAction::Finish),
        },
        WorkerState::Stopped => (WorkerState::Stopped, WorkerAction::Finish),
    }
}

/// Whether `working` is to replace `best`: it has more completed routes, or as many at a
/// lower cost, or `best` was derived from another input than `input`.
pub open spec fn promotes(working: &Layout, best: &Layout, input: &Layout) -> bool {
    ||| working.n_completed_routes > best.n_completed_routes
    ||| (working.n_completed_routes == best.n_completed_routes && working.cost < best.cost)
    ||| best.base_timestamp != input.base_timestamp
}

/// Whether `working` is to replace `best` as the best layout for `input`.
pub fn should_promote(working: &Layout, best: &Layout, input: &Layout) -> (r: bool)
    ensures
        r == promotes(working, best, input),
{
    let has_more_completed_routes = working.n_completed_routes > best.n_completed_routes;
    let has_equal_routes_and_better_score = working.n_completed_routes == best.n_completed_routes
        && working.cost < best.cost;
    let is_based_on_other_layout = !best.is_based_on(input);
    has_more_completed_routes || has_equal_routes_and_better_score || is_based_on_other_layout
}

} // verus!
