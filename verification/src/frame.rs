//! What waits for the next frame: moves of a drag and finished background work come far
//! faster than frames, so they are marked, and the next redraw does the work once.
use vstd::prelude::*;

verus! {

/// The time between two steps of a drag that scrolls by itself, in milliseconds.
pub const DRAG_TICK_MS: u64 = 16;

/// The pointer's drag and the work that waits for the next redraw.
#[derive(Debug, Clone, Copy, PartialEq, Eq, Structural)]
pub struct Frame {
    pub mouse_down: bool,
    /// The drag sits in a hot zone at the edge of the viewport, where it scrolls.
    pub at_edge: bool,
    /// The pointer moved during a drag.
    pub drag_pending: bool,
    /// Background work finished that changes the layout.
    pub rebuild_pending: bool,
}

/// The work of a redraw, beside the drawing.
#[derive(Debug, Clone, Copy, PartialEq, Eq, Structural)]
pub struct FrameWork {
    /// The selection is extended to the pointer.
    pub extend_selection: bool,
    /// The document is laid out anew, and the images that came into view are loaded.
    pub rebuild: bool,
}

/// What the event loop does between events.
#[derive(Debug, Clone, Copy, PartialEq, Eq, Structural)]
pub enum Tick {
    /// It waits for the next event.
    Wait,
    /// It scrolls for the time since the last step, extends the selection, and wakes up
    /// again after [`DRAG_TICK_MS`].
    Scroll { elapsed: u64 },
}

impl Frame {
    /// After a press of the left button.
    pub open spec fn after_press(self) -> Frame {
        Frame { mouse_down: true, ..self }
    }

    /// After the left button was let go: the drag scrolls no more. A move that waits still
    /// extends the selection.
    pub open spec fn after_release(self) -> Frame {
        Frame { mouse_down: false, at_edge: false, ..self }
    }

    /// After a move of the pointer.
    pub open spec fn after_move(self, at_edge: bool) -> Frame {
        if self.mouse_down {
            Frame { at_edge, drag_pending: true, ..self }
        } else {
            self
        }
    }

    /// After background work finished.
    pub open spec fn after_work(self, has_window: bool) -> Frame {
        Frame { rebuild_pending: self.rebuild_pending || has_window, ..self }
    }

    /// After a redraw: nothing waits.
    pub open spec fn after_redraw(self) -> Frame {
        Frame { drag_pending: false, rebuild_pending: false, ..self }
    }

    /// What a redraw does.
    pub open spec fn work(self) -> FrameWork {
        FrameWork { extend_selection: self.drag_pending, rebuild: self.rebuild_pending }
    }

    /// What the event loop does at `now`, with the time of the last step, if there was one.
    /// The first step scrolls nothing: it starts the clock.
    pub open spec fn tick(self, now: u64, last: Option<u64>) -> Tick {
        if self.mouse_down && self.at_edge {
            Tick::Scroll {
                elapsed: match last {
                    Some(t) => if t <= now {
                        (now - t) as u64
                    } else {
                        0
                    },
                    None => 0,
                },
            }
        } else {
            Tick::Wait
        }
    }

    /// The time of the last step, after the event loop was asked at `now`.
    pub open spec fn stepped(self, now: u64) -> Option<u64> {
        if self.mouse_down && self.at_edge {
            Some(now)
        } else {
            None
        }
    }

    /// No drag, and nothing waits.
    pub fn new() -> (r: Frame)
        ensures
            r == (Frame {
                mouse_down: false,
                at_edge: false,
                drag_pending: false,
                rebuild_pending: false,
            }),
    {
        Frame { mouse_down: false, at_edge: false, drag_pending: false, rebuild_pending: false }
    }

    /// The left button was pressed.
    pub fn pressed(&mut self)
        ensures
            *final(self) == old(self).after_press(),
    {
        self.mouse_down = true;
    }

    /// The left button was let go.
    pub fn released(&mut self)
        ensures
            *final(self) == old(self).after_release(),
    {
        self.mouse_down = false;
        self.at_edge = false;
    }

    /// The pointer moved; `at_edge` says that a drag would scroll where it is now. A drag is
    /// marked, for the next redraw to extend the selection once.
    pub fn moved(&mut self, at_edge: bool)
        ensures
            *final(self) == old(self).after_move(at_edge),
    {
        if self.mouse_down {
            self.at_edge = at_edge;
            self.drag_pending = true;
        }
    }

    /// Background work finished that changes the layout.
    pub fn work_finished(&mut self, has_window: bool)
        ensures
            *final(self) == old(self).after_work(has_window),
    {
        if has_window {
            self.rebuild_pending = true;
        }
    }

    /// What a redraw does; nothing waits after it.
    pub fn redraw(&mut self) -> (r: FrameWork)
        ensures
            r == old(self).work(),
            *final(self) == old(self).after_redraw(),
    {
        let r = FrameWork { extend_selection: self.drag_pending, rebuild: self.rebuild_pending };
        self.drag_pending = false;
        self.rebuild_pending = false;
        r
    }

    /// What the event loop does between events. `now` is the time, and `last` that of the
    /// last step of the drag, which is brought up to date.
    pub fn about_to_wait(&self, now: u64, last: &mut Option<u64>) -> (r: Tick)
        ensures
            r == self.tick(now, *old(last)),
            *final(last) == self.stepped(now),
    {
        if self.mouse_down && self.at_edge {
            let elapsed: u64 = match *last {
                Some(t) => if t <= now {
                    now - t
                } else {
                    0
                },
                None => 0,
            };
            *last = Some(now);
            Tick::Scroll { elapsed }
        } else {
            *last = None;
            Tick::Wait
        }
    }
}

/// However often the pointer moves between two redraws, the selection is extended once; and
/// however much background work finishes, the document is laid out once.
pub proof fn law_bursts_collapse(f: Frame, a: bool, b: bool)
    ensures
        f.after_move(a).after_move(b) == f.after_move(b),
        f.after_work(a).after_work(b) == f.after_work(a || b),
        f.after_move(a).after_work(b) == f.after_work(b).after_move(a),
        f.after_redraw().work() == (FrameWork { extend_selection: false, rebuild: false }),
{
}

/// What was marked is done by the next redraw, also when the button was let go before it.
pub proof fn law_marked_work_is_done(f: Frame, at_edge: bool)
    ensures
        f.mouse_down ==> f.after_move(at_edge).work().extend_selection,
        f.after_work(true).work().rebuild,
        f.after_release().work() == f.work(),
{
}

/// A drag scrolls by itself only while the button is down at an edge, and never for more
/// than the time since the step before: its first step scrolls nothing.
pub proof fn law_scrolling_keeps_time(f: Frame, now: u64, later: u64)
    ensures
        f.after_release().tick(now, None) is Wait,
        f.tick(now, None) matches Tick::Scroll { elapsed } ==> elapsed == 0,
        now <= later ==> (f.tick(later, f.stepped(now)) matches Tick::Scroll { elapsed } ==> elapsed
            == later - now),
{
}

/// A drag: the button goes down, the pointer moves, and the selection follows with the next
/// redraw. At an edge the event loop scrolls until the button is let go; without the button
/// a move does nothing.
pub proof fn law_drags(f: Frame, at_edge: bool, now: u64, last: Option<u64>)
    ensures
        f.after_press().mouse_down,
        !f.after_release().mouse_down && !f.after_release().at_edge,
        f.after_press().after_move(at_edge).work().extend_selection,
        (f.after_press().after_move(at_edge).tick(now, last) is Scroll) == at_edge,
        f.after_press().after_move(at_edge).stepped(now) == (if at_edge {
            Some(now)
        } else {
            None
        }),
        f.after_press().after_move(at_edge).after_release().tick(now, last) is Wait,
        !f.mouse_down ==> f.after_move(at_edge) == f,
        !f.mouse_down ==> f.tick(now, last) is Wait,
        f.after_press().work() == f.work(),
        f.after_work(false) == f,
        f.after_work(true).work().rebuild && f.after_work(true).work().extend_selection
            == f.work().extend_selection,
        f.after_redraw().mouse_down == f.mouse_down && f.after_redraw().at_edge == f.at_edge,
{
}

} // verus!
