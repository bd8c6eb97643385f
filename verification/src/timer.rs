//! An explicit-clock timer for input debouncing: callers hand in the
//! current time in milliseconds, so the behavior is deterministic and
//! testable.

use vstd::prelude::*;
use crate::event::Event;

verus! {

/// A one-shot countdown. A timer that was never started counts as
/// expired.
#[derive(Clone, Copy, PartialEq, Eq, Structural, Debug)]
pub struct Timer {
    running: bool,
    start_ms: u64,
    duration_ms: u64,
}

impl Timer {
    pub closed spec fn is_running(self) -> bool {
        self.running
    }

    pub closed spec fn start_spec(self) -> int {
        self.start_ms as int
    }

    pub closed spec fn duration_spec(self) -> int {
        self.duration_ms as int
    }

    /// Whether the countdown has run out at time `now_ms`.
    pub open spec fn expired_spec(self, now_ms: int) -> bool {
        !self.is_running() || now_ms - self.start_spec() >= self.duration_spec()
    }

    pub fn new() -> (t: Timer)
        ensures
            !t.is_running(),
    {
        Timer { running: false, start_ms: 0, duration_ms: 0 }
    }

    /// Starts (or restarts) the countdown at `now_ms` for
    /// `duration_ms` milliseconds.
    pub fn start(&mut self, now_ms: u64, duration_ms: u64)
        ensures
            final(self).is_running(),
            final(self).start_spec() == now_ms,
            final(self).duration_spec() == duration_ms,
    {
        self.running = true;
        self.start_ms = now_ms;
        self.duration_ms = duration_ms;
    }

    pub fn expired(&self, now_ms: u64) -> (b: bool)
        ensures
            b == self.expired_spec(now_ms as int),
    {
        if !self.running {
            true
        } else if now_ms < self.start_ms {
            false
        } else {
            now_ms - self.start_ms >= self.duration_ms
        }
    }
}

/// Whether canvas writes are suppressed: the pointer is over a panel,
/// or the cooldown after a panel interaction has not yet run out.
pub open spec fn canvas_blocked_spec(mouse_over_gui: bool, rest: Timer, now_ms: int) -> bool {
    mouse_over_gui || !rest.expired_spec(now_ms)
}

pub fn canvas_blocked(mouse_over_gui: bool, rest: &Timer, now_ms: u64) -> (b: bool)
    ensures
        b == canvas_blocked_spec(mouse_over_gui, *rest, now_ms as int),
{
    mouse_over_gui || !rest.expired(now_ms)
}

/// Whether `event` may reach the canvas core right now: drawing events
/// are dropped while the canvas is blocked, everything else passes.
pub fn allow_event(event: &Event, mouse_over_gui: bool, rest: &Timer, now_ms: u64) -> (b: bool)
    ensures
        b == (!event.is_drawing_spec() || !canvas_blocked_spec(
            mouse_over_gui,
            *rest,
            now_ms as int,
        )),
{
    !event.is_drawing_event() || !canvas_blocked(mouse_over_gui, rest, now_ms)
}

} // verus!
