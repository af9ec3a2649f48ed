//! Remembers which i3 workspaces, resolution, position and primary flag
//! belonged to each monitor, and works out how to restore them when the monitor
//! reconnects.
//!
//! The library holds the rules: reading the report of the displays, keeping the
//! memory of each output, and deciding what to run and what to wait for. It
//! performs no input or output; the daemon around it does that and hands the
//! replies over as plain values.

pub mod decimal;
pub mod history;
pub mod i3;
pub mod layout;
pub mod memory;
pub mod names;
pub mod output;
pub mod randr;
pub mod randr_events;
pub mod reconcile;
pub mod report;
pub mod restore;
pub mod state_file;
pub mod text;
pub mod tracker;
pub mod xrandr;
