//! Following i3's workspace events: when to refresh the workspace lists, and
//! when to connect again.

use vstd::prelude::*;

verus! {

/// How long to wait before connecting to i3 again, in milliseconds.
pub const BACKOFF_MS: u64 = 2000;

/// What came of the last step of the tracker.
#[derive(Clone, Copy, Debug, PartialEq, Eq, Structural)]
pub enum TrackerEvent {
    /// Connecting to the event socket succeeded or not.
    Connected(bool),
    /// Subscribing to workspace events succeeded or not.
    Subscribed(bool),
    /// A workspace event arrived.
    Workspace,
    /// Some other event arrived.
    Other,
    /// The next event could not be read.
    Failed,
    /// There are no more events.
    Ended,
}

/// What the tracker does next.
#[derive(Clone, Copy, Debug, PartialEq, Eq, Structural)]
pub enum TrackerAction {
    /// Subscribe to workspace events.
    Subscribe,
    /// Read the next event.
    Listen,
    /// Refresh the workspace lists, save the memory, then read the next event.
    Refresh,
    /// Drop the connection, wait, then connect again (e.g. after an i3 restart).
    Reconnect,
}

/// How the tracker goes on after an event.
pub open spec fn tracker_next(event: TrackerEvent) -> TrackerAction {
    match event {
        TrackerEvent::Connected(true) => TrackerAction::Subscribe,
        TrackerEvent::Subscribed(true) => TrackerAction::Listen,
        TrackerEvent::Workspace => TrackerAction::Refresh,
        TrackerEvent::Other => TrackerAction::Listen,
        _ => TrackerAction::Reconnect,
    }
}

/// Decides how the tracker goes on after an event.
pub fn track_i3(event: TrackerEvent) -> (action: TrackerAction)
    ensures
        action == tracker_next(event),
{
    match event {
        TrackerEvent::Connected(succeeded) => if succeeded {
            TrackerAction::Subscribe
        } else {
            TrackerAction::Reconnect
        },
        TrackerEvent::Subscribed(succeeded) => if succeeded {
            TrackerAction::Listen
        } else {
            TrackerAction::Reconnect
        },
        TrackerEvent::Workspace => TrackerAction::Refresh,
        TrackerEvent::Other => TrackerAction::Listen,
        TrackerEvent::Failed => TrackerAction::Reconnect,
        TrackerEvent::Ended => TrackerAction::Reconnect,
    }
}

/// The memory is refreshed on workspace events and on nothing else.
pub proof fn law_refresh_on_workspace_events_only(event: TrackerEvent)
    ensures
        tracker_next(event) == TrackerAction::Refresh <==> event == TrackerEvent::Workspace,
{
}

/// The tracker waits two seconds before it connects again.
pub proof fn law_backoff_is_two_seconds()
    ensures
        BACKOFF_MS == 2 * 1000,
{
}

} // verus!
