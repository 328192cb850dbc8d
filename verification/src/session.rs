//! When the session ends.

use vstd::prelude::*;

verus! {

/// What of a window event matters to the session.
#[derive(Clone, Copy, Debug, PartialEq, Eq, Structural)]
pub struct WindowSignals {
    /// The user asked for the window to be closed.
    pub close_requested: bool,
    /// The escape key went down.
    pub escape_down: bool,
}

/// What the session does after an event.
#[derive(Clone, Copy, Debug, PartialEq, Eq, Structural)]
pub enum Flow {
    Continue,
    Quit,
}

/// The session ends on a window event that asks for the window to be closed
/// or that reports the escape key, and goes on after every other event.
pub open spec fn flow_after(event: Option<WindowSignals>) -> Flow {
    match event {
        Some(w) => if w.close_requested || w.escape_down {
            Flow::Quit
        } else {
            Flow::Continue
        },
        None => Flow::Continue,
    }
}

/// Decides what the session does after an event: `event` holds the signals
/// of a window event and is `None` for an event of another kind.
pub fn handle_event(event: Option<WindowSignals>) -> (flow: Flow)
    ensures
        flow == flow_after(event),
{
    match event {
        Some(w) => {
            if w.close_requested || w.escape_down {
                Flow::Quit
            } else {
                Flow::Continue
            }
        },
        None => Flow::Continue,
    }
}

} // verus!
