//! The life cycle of the conduit: disconnected, connected, disconnected
//! again. The conduit itself, with its tasks and channels, belongs to the
//! program; here is what it decides from its state.

use crate::constants::NUMBER_OF_COBOS;
use vstd::prelude::*;

verus! {

/// Whether the services run.
#[derive(Debug, Clone, Copy, PartialEq, Eq, Structural)]
pub enum ConduitState {
    Disconnected,
    Connected,
}

/// What the conduit is to do on a request.
#[derive(Debug, Clone, Copy, PartialEq, Eq, Structural)]
pub enum ConduitAction {
    /// Load the pad map, then start this many receivers and one event builder.
    Start(u8),
    /// Tell every task to stop and wait for each.
    Stop,
    /// Nothing but a warning: the request does not fit the state.
    Warn,
}

/// On a request to connect: start the services unless they run.
pub fn on_connect(state: ConduitState) -> (action: ConduitAction)
    ensures
        action == (match state {
            ConduitState::Disconnected => ConduitAction::Start(NUMBER_OF_COBOS),
            ConduitState::Connected => ConduitAction::Warn,
        }),
{
    match state {
        ConduitState::Disconnected => ConduitAction::Start(NUMBER_OF_COBOS),
        ConduitState::Connected => ConduitAction::Warn,
    }
}

/// On a request to disconnect: stop the services if they run.
pub fn on_disconnect(state: ConduitState) -> (action: ConduitAction)
    ensures
        action == (match state {
            ConduitState::Connected => ConduitAction::Stop,
            ConduitState::Disconnected => ConduitAction::Warn,
        }),
{
    match state {
        ConduitState::Connected => ConduitAction::Stop,
        ConduitState::Disconnected => ConduitAction::Warn,
    }
}

/// The state after `action` was carried out; `started` says whether a start
/// got as far as spawning the tasks (it does not when the pad map fails to load).
pub fn next_state(state: ConduitState, action: ConduitAction, started: bool) -> (next: ConduitState)
    ensures
        next == (match action {
            ConduitAction::Start(_) => if started {
                ConduitState::Connected
            } else {
                state
            },
            ConduitAction::Stop => ConduitState::Disconnected,
            ConduitAction::Warn => state,
        }),
{
    match action {
        ConduitAction::Start(_) => if started {
            ConduitState::Connected
        } else {
            state
        },
        ConduitAction::Stop => ConduitState::Disconnected,
        ConduitAction::Warn => state,
    }
}

/// Whether the conduit is connected.
pub fn is_connected(state: ConduitState) -> (r: bool)
    ensures
        r == (state == ConduitState::Connected),
{
    match state {
        ConduitState::Connected => true,
        ConduitState::Disconnected => false,
    }
}

/// The least capacity of the channel that tells the tasks to stop: one place
/// per receiver, one for the builder and one to spare.
pub fn cancel_capacity() -> (n: usize)
    ensures
        n == NUMBER_OF_COBOS + 2,
{
    NUMBER_OF_COBOS as usize + 2
}

} // verus!
