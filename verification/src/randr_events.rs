//! X11 RandR events: which of them are a change of the monitor layout.

use vstd::prelude::*;

verus! {

/// What came of waiting for the next X event.
#[derive(Clone, Copy, Debug, PartialEq, Eq, Structural)]
pub enum LayoutEvent {
    /// RandR told that the screen changed.
    ScreenChange,
    /// RandR told that an output or a CRTC changed.
    Notify,
    /// An event of another kind arrived.
    Other,
    /// The event stream broke: a fatal X error.
    Failed,
}

/// What the watcher does next.
#[derive(Clone, Copy, Debug, PartialEq, Eq, Structural)]
pub enum WatchAction {
    /// Wait for the next event.
    Wait,
    /// A single plug/unplug emits a burst of events; drain the queue, so that it
    /// is reconciled once against the settled state, then reconcile.
    DrainAndReconcile,
    /// Stop watching.
    Stop,
}

/// Whether an event is a change of the monitor layout.
pub open spec fn is_layout_change(event: LayoutEvent) -> bool {
    event == LayoutEvent::ScreenChange || event == LayoutEvent::Notify
}

/// Decides what to do about an event.
pub fn watch(event: LayoutEvent) -> (action: WatchAction)
    ensures
        action == (if is_layout_change(event) {
            WatchAction::DrainAndReconcile
        } else if event == LayoutEvent::Failed {
            WatchAction::Stop
        } else {
            WatchAction::Wait
        }),
{
    match event {
        LayoutEvent::ScreenChange => WatchAction::DrainAndReconcile,
        LayoutEvent::Notify => WatchAction::DrainAndReconcile,
        LayoutEvent::Other => WatchAction::Wait,
        LayoutEvent::Failed => WatchAction::Stop,
    }
}

} // verus!
