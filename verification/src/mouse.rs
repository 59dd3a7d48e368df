//! The pointer state that the renderer keeps from the window's mouse events.
use vstd::prelude::*;
use crate::raster::{WIDTH, HEIGHT};

verus! {

/// A window event, reduced to what the pointer state reads; positions in pixels.
#[derive(Clone, Copy, PartialEq, Eq, Structural, Debug)]
pub enum MouseEvent {
    /// The mouse moved; `left_pressed` tells whether the left button is held.
    Motion { left_pressed: bool, x: i32, y: i32 },
    /// A button was pressed; `left` tells whether it is the left one.
    ButtonDown { left: bool, x: i32, y: i32 },
    /// A button was released; `left` tells whether it is the left one.
    ButtonUp { left: bool, x: i32, y: i32 },
    /// Any other event.
    Other,
}

/// Whether the left button is down, and where the pointer is, in pixels.
#[derive(Clone, Copy, PartialEq, Eq, Structural, Debug)]
pub struct PointerState {
    pub down: bool,
    pub x: i32,
    pub y: i32,
}

/// The state after `e`: a motion event sets the button from the event and moves the
/// pointer; a left-button event, pressed or released, marks the button down; every
/// button event moves the pointer.
pub open spec fn spec_after(s: PointerState, e: MouseEvent) -> PointerState {
    match e {
        MouseEvent::Motion { left_pressed, x, y } => PointerState { down: left_pressed, x, y },
        MouseEvent::ButtonDown { left, x, y } => PointerState { down: left || s.down, x, y },
        MouseEvent::ButtonUp { left, x, y } => PointerState { down: left || s.down, x, y },
        MouseEvent::Other => s,
    }
}

/// The state after the events `es`, in order.
pub open spec fn spec_after_all(s: PointerState, es: Seq<MouseEvent>) -> PointerState
    decreases es.len(),
{
    if es.len() == 0 {
        s
    } else {
        spec_after(spec_after_all(s, es.drop_last()), es.last())
    }
}

impl PointerState {
    /// Button up, pointer at the centre of the frame.
    pub fn new() -> (s: PointerState)
        ensures
            s == (PointerState { down: false, x: 640, y: 480 }),
            2 * s.x == WIDTH && 2 * s.y == HEIGHT,
    {
        PointerState { down: false, x: WIDTH as i32 / 2, y: HEIGHT as i32 / 2 }
    }

    /// Takes one event into account.
    pub fn apply(&mut self, e: MouseEvent)
        ensures
            *final(self) == spec_after(*old(self), e),
    {
        match e {
            MouseEvent::Motion { left_pressed, x, y } => {
                self.down = left_pressed;
                self.x = x;
                self.y = y;
            },
            MouseEvent::ButtonDown { left, x, y } => {
                if left {
                    self.down = true;
                }
                self.x = x;
                self.y = y;
            },
            MouseEvent::ButtonUp { left, x, y } => {
                if left {
                    self.down = true;
                }
                self.x = x;
                self.y = y;
            },
            MouseEvent::Other => {},
        }
    }

    /// Takes the events `events` into account, in order.
    pub fn apply_all(&mut self, events: &[MouseEvent])
        ensures
            *final(self) == spec_after_all(*old(self), events@),
    {
        let mut k: usize = 0;
        while k < events.len()
            invariant
                k <= events@.len(),
                *self == spec_after_all(*old(self), events@.subrange(0, k as int)),
            decreases events@.len() - k,
        {
            let e = events[k];
            self.apply(e);
            assert(events@.subrange(0, k + 1).drop_last() =~= events@.subrange(0, k as int));
            k += 1;
        }
        assert(events@.subrange(0, events@.len() as int) =~= events@);
    }
}

/// A motion event sets the button state to the event's left-button flag and moves
/// the pointer to the event's position, whatever the state before.
pub proof fn lemma_motion_sets_button_and_position(s: PointerState, b: bool, x: i32, y: i32)
    ensures
        spec_after(s, MouseEvent::Motion { left_pressed: b, x, y }).down == b,
        spec_after(s, MouseEvent::Motion { left_pressed: b, x, y }).x == x,
        spec_after(s, MouseEvent::Motion { left_pressed: b, x, y }).y == y,
{
}

/// A button event moves the pointer to the event's position; an event of another
/// button than the left one leaves the button state as it was, and an event of the
/// left one (pressed or released) leaves it down. Events that are not mouse events
/// change nothing.
pub proof fn lemma_button_events(s: PointerState, left: bool, x: i32, y: i32)
    ensures
        spec_after(s, MouseEvent::ButtonDown { left, x, y }).x == x,
        spec_after(s, MouseEvent::ButtonDown { left, x, y }).y == y,
        spec_after(s, MouseEvent::ButtonUp { left, x, y }).x == x,
        spec_after(s, MouseEvent::ButtonUp { left, x, y }).y == y,
        !left ==> spec_after(s, MouseEvent::ButtonDown { left, x, y }).down == s.down,
        !left ==> spec_after(s, MouseEvent::ButtonUp { left, x, y }).down == s.down,
        left ==> spec_after(s, MouseEvent::ButtonDown { left, x, y }).down,
        left ==> spec_after(s, MouseEvent::ButtonUp { left, x, y }).down,
        spec_after(s, MouseEvent::Other) == s,
{
}

/// A batch of no events leaves the state alone; a batch followed by one more event
/// gives the state after the batch, updated by that event (whatever its kind); and
/// two batches in a row act as their concatenation.
pub proof fn lemma_batches_fold_events(s: PointerState, es: Seq<MouseEvent>, fs: Seq<MouseEvent>, e: MouseEvent)
    ensures
        spec_after_all(s, Seq::empty()) == s,
        spec_after_all(s, es.push(e)) == spec_after(spec_after_all(s, es), e),
        spec_after_all(s, es + fs) == spec_after_all(spec_after_all(s, es), fs),
    decreases fs.len(),
{
    assert(es.push(e).drop_last() =~= es);
    if fs.len() > 0 {
        lemma_batches_fold_events(s, es, fs.drop_last(), e);
        assert((es + fs).drop_last() =~= es + fs.drop_last());
        assert((es + fs).last() == fs.last());
    } else {
        assert(es + fs =~= es);
    }
}

/// Once a left-button event arrives the button counts as down, and only a later
/// motion event with the left button up releases it.
pub proof fn lemma_left_button_sticks(s: PointerState, es: Seq<MouseEvent>)
    requires
        s.down,
        forall|k: int| 0 <= k < es.len() ==> !(#[trigger] es[k] is Motion),
    ensures
        spec_after_all(s, es).down,
    decreases es.len(),
{
    if es.len() > 0 {
        lemma_left_button_sticks(s, es.drop_last());
    }
}

} // verus!
