//! Small tracked parts of the application state: window, keys, mouse and
//! time. Positions are carried in the crate's fixed-point coordinates; the
//! window and key identifiers are plain values standing for the windowing
//! backend's opaque handles.

use vstd::prelude::*;

verus! {

/// The max total number of buttons on a mouse.
pub const NUM_BUTTONS: usize = 9;

/// A 2D point in fixed-point coordinates.
#[derive(Clone, Copy, Debug, PartialEq, Eq, Structural)]
pub struct Point2 {
    pub x: i64,
    pub y: i64,
}

/// A window handle: the backend's identifier as a plain value.
#[derive(Clone, Copy, Debug, PartialEq, Eq, Structural)]
pub struct WindowId {
    pub value: u64,
}

/// State of the window in focus.
#[derive(Clone, Copy, Debug, PartialEq, Eq, Structural)]
pub struct Window {
    /// ID of the window currently in focus.
    pub id: Option<WindowId>,
}

impl Window {
    /// Initialise the window state.
    pub fn new() -> (w: Window)
        ensures
            w.id is None,
    {
        Window { id: None }
    }

    /// The focused window's identifier. Asking before any window has focus
    /// is a programmer error, ruled out by the precondition.
    pub fn id(&self) -> (r: WindowId)
        requires
            self.id is Some,
        ensures
            Some(r) == self.id,
    {
        match self.id {
            Some(v) => v,
            None => {
                proof {
                    assert(false);
                }
                WindowId { value: 0 }
            },
        }
    }
}

/// The state of the modifier keys.
#[derive(Clone, Copy, Debug, PartialEq, Eq, Structural, Default)]
pub struct ModifiersState {
    pub shift: bool,
    pub ctrl: bool,
    pub alt: bool,
    pub logo: bool,
}

/// The set of keys that are currently pressed, by key code.
#[derive(Clone, Debug, Default)]
pub struct Down {
    pub keys: Vec<u32>,
}

/// The state of the keyboard.
#[derive(Clone, Debug, Default)]
pub struct Keys {
    /// The state of the modifier keys.
    pub mods: ModifiersState,
    /// The keys currently held down.
    pub down: Down,
}

/// A mouse button.
#[derive(Clone, Copy, Debug, PartialEq, Eq, Structural)]
pub enum Button {
    Left,
    Right,
    Middle,
    Other(u16),
}

/// Whether a button is up or down; a pressed button remembers where it was
/// pressed.
#[derive(Clone, Copy, Debug, PartialEq, Eq, Structural)]
pub enum ButtonPosition {
    /// The button is up.
    Up,
    /// The button is down and was originally pressed at the given point.
    Down(Point2),
}

/// Where a pressed button moves when made relative to `xy`.
pub open spec fn rel_button(b: ButtonPosition, xy: Point2) -> ButtonPosition {
    match b {
        ButtonPosition::Down(p) => ButtonPosition::Down(
            Point2 { x: (p.x - xy.x) as i64, y: (p.y - xy.y) as i64 },
        ),
        ButtonPosition::Up => ButtonPosition::Up,
    }
}

/// Whether the press position (if any) can be shifted by `xy` without
/// leaving the representable range: the machine limit of `relative_to`.
pub open spec fn rel_in_range(b: ButtonPosition, xy: Point2) -> bool {
    match b {
        ButtonPosition::Down(p) => i64::MIN <= p.x - xy.x <= i64::MAX && i64::MIN <= p.y - xy.y
            <= i64::MAX,
        ButtonPosition::Up => true,
    }
}

impl ButtonPosition {
    /// If the button is down, its press position relative to `xy`.
    pub fn relative_to(self, xy: Point2) -> (r: ButtonPosition)
        requires
            rel_in_range(self, xy),
        ensures
            r == rel_button(self, xy),
    {
        match self {
            ButtonPosition::Down(pos) => ButtonPosition::Down(
                Point2 { x: pos.x - xy.x, y: pos.y - xy.y },
            ),
            ButtonPosition::Up => ButtonPosition::Up,
        }
    }

    /// Is the button down.
    pub fn is_down(&self) -> (r: bool)
        ensures
            r == (*self is Down),
    {
        match *self {
            ButtonPosition::Down(_) => true,
            _ => false,
        }
    }

    /// Is the button up.
    pub fn is_up(&self) -> (r: bool)
        ensures
            r == (*self is Up),
    {
        match *self {
            ButtonPosition::Up => true,
            _ => false,
        }
    }

    /// The position at which the button was pressed, if it is down.
    pub fn if_down(&self) -> (r: Option<Point2>)
        ensures
            match *self {
                ButtonPosition::Down(p) => r == Some(p),
                ButtonPosition::Up => r is None,
            },
    {
        match *self {
            ButtonPosition::Down(xy) => Some(xy),
            _ => None,
        }
    }
}

/// The slot a button is stored in.
pub open spec fn button_to_idx_spec(button: Button) -> int {
    match button {
        Button::Other(n) => n as int,
        Button::Left => 6,
        Button::Right => 7,
        Button::Middle => 8,
    }
}

/// The button a slot stands for.
pub open spec fn idx_to_button_spec(i: int) -> Button {
    if 0 <= i <= 5 {
        Button::Other(i as u16)
    } else if i == 6 {
        Button::Left
    } else if i == 7 {
        Button::Right
    } else if i == 8 {
        Button::Middle
    } else {
        Button::Other(65535)
    }
}

fn idx_to_button(i: usize) -> (b: Button)
    ensures
        b == idx_to_button_spec(i as int),
{
    if i <= 5 {
        Button::Other(i as u16)
    } else if i == 6 {
        Button::Left
    } else if i == 7 {
        Button::Right
    } else if i == 8 {
        Button::Middle
    } else {
        Button::Other(65535)
    }
}

fn button_to_idx(button: Button) -> (i: usize)
    ensures
        i == button_to_idx_spec(button),
{
    match button {
        Button::Other(n) => n as usize,
        Button::Left => 6,
        Button::Right => 7,
        Button::Middle => 8,
    }
}

/// Stores the state of all mouse buttons; a pressed button remembers the
/// position of the mouse when it went down.
#[derive(Clone, Debug, PartialEq)]
pub struct ButtonMap {
    buttons: Vec<ButtonPosition>,
}

impl View for ButtonMap {
    type V = Seq<ButtonPosition>;

    closed spec fn view(&self) -> Seq<ButtonPosition> {
        self.buttons@
    }
}

impl ButtonMap {
    /// One slot per button, always.
    pub open spec fn wf(&self) -> bool {
        self@.len() == 9
    }

    /// A map with every button up.
    pub fn new() -> (m: ButtonMap)
        ensures
            m.wf(),
            forall|j: int| 0 <= j < 9 ==> m@[j] == ButtonPosition::Up,
    {
        let mut buttons: Vec<ButtonPosition> = Vec::new();
        while buttons.len() < NUM_BUTTONS
            invariant
                buttons@.len() <= 9,
                forall|j: int| 0 <= j < buttons@.len() ==> buttons@[j] == ButtonPosition::Up,
            decreases 9 - buttons@.len(),
        {
            buttons.push(ButtonPosition::Up);
        }
        ButtonMap { buttons }
    }

    /// A copy of the map with every press position relative to `xy`.
    pub fn relative_to(self, xy: Point2) -> (m: ButtonMap)
        requires
            self.wf(),
            forall|j: int| 0 <= j < 9 ==> rel_in_range(self@[j], xy),
        ensures
            m.wf(),
            forall|j: int| 0 <= j < 9 ==> m@[j] == rel_button(self@[j], xy),
    {
        let mut buttons: Vec<ButtonPosition> = Vec::new();
        let mut i: usize = 0;
        while i < NUM_BUTTONS
            invariant
                self.wf(),
                forall|j: int| 0 <= j < 9 ==> rel_in_range(self@[j], xy),
                i <= 9,
                buttons@.len() == i,
                forall|j: int| 0 <= j < i ==> buttons@[j] == rel_button(self@[j], xy),
            decreases 9 - i,
        {
            let b = self.buttons[i];
            buttons.push(b.relative_to(xy));
            i = i + 1;
        }
        ButtonMap { buttons }
    }

    /// The state of the left mouse button.
    pub fn left(&self) -> (b: &ButtonPosition)
        requires
            self.wf(),
        ensures
            *b == self@[6],
    {
        &self.buttons[6]
    }

    /// The state of the middle mouse button.
    pub fn middle(&self) -> (b: &ButtonPosition)
        requires
            self.wf(),
        ensures
            *b == self@[8],
    {
        &self.buttons[8]
    }

    /// The state of the right mouse button.
    pub fn right(&self) -> (b: &ButtonPosition)
        requires
            self.wf(),
        ensures
            *b == self@[7],
    {
        &self.buttons[7]
    }

    /// Set the button down, remembering where. A button outside the map (a
    /// high `Other` code) is a programmer error, ruled out by the
    /// precondition.
    pub fn press(&mut self, button: Button, xy: Point2)
        requires
            old(self).wf(),
            button_to_idx_spec(button) < 9,
        ensures
            final(self).wf(),
            final(self)@ == old(self)@.update(button_to_idx_spec(button), ButtonPosition::Down(xy)),
    {
        let i = button_to_idx(button);
        let slot = &mut self.buttons[i];
        *slot = ButtonPosition::Down(xy);
        proof {
            assert(self@ =~= old(self)@.update(button_to_idx_spec(button), ButtonPosition::Down(xy)));
        }
    }

    /// Set the button up.
    pub fn release(&mut self, button: Button)
        requires
            old(self).wf(),
            button_to_idx_spec(button) < 9,
        ensures
            final(self).wf(),
            final(self)@ == old(self)@.update(button_to_idx_spec(button), ButtonPosition::Up),
    {
        let i = button_to_idx(button);
        let slot = &mut self.buttons[i];
        *slot = ButtonPosition::Up;
        proof {
            assert(self@ =~= old(self)@.update(button_to_idx_spec(button), ButtonPosition::Up));
        }
    }

    /// A cursor over all pressed buttons and where they were pressed.
    pub fn pressed(&self) -> (it: PressedButtons<'_>)
        requires
            self.wf(),
        ensures
            it.map == self,
            it.idx == 0,
    {
        PressedButtons { map: self, idx: 0 }
    }
}

/// The first pressed slot at or after `from`, if any.
pub open spec fn first_down_at(s: Seq<ButtonPosition>, from: int) -> Option<int>
    decreases s.len() - from,
{
    if from < 0 || from >= s.len() {
        None
    } else if s[from] is Down {
        Some(from)
    } else {
        first_down_at(s, from + 1)
    }
}

/// A cursor yielding all pressed buttons of a map, in slot order, with the
/// position each was pressed at.
pub struct PressedButtons<'a> {
    pub map: &'a ButtonMap,
    pub idx: usize,
}

impl<'a> PressedButtons<'a> {
    /// The next pressed button at or after the cursor, advancing past it.
    pub fn next(&mut self) -> (r: Option<(Button, Point2)>)
        requires
            old(self).map.wf(),
        ensures
            final(self).map == old(self).map,
            match first_down_at(old(self).map@, old(self).idx as int) {
                Some(j) => {
                    &&& final(self).idx == j + 1
                    &&& old(self).map@[j] is Down
                    &&& r == Some((idx_to_button_spec(j), old(self).map@[j]->Down_0))
                },
                None => r is None,
            },
    {
        while self.idx < NUM_BUTTONS
            invariant
                self.map.wf(),
                self.map == old(self).map,
                first_down_at(self.map@, old(self).idx as int) == first_down_at(
                    self.map@, self.idx as int),
            decreases 9 - self.idx,
        {
            let i = self.idx;
            let b = self.map.buttons[i];
            match b {
                ButtonPosition::Down(xy) => {
                    self.idx = i + 1;
                    return Some((idx_to_button(i), xy));
                },
                ButtonPosition::Up => {
                    self.idx = i + 1;
                },
            }
        }
        None
    }
}

/// The state of the mouse at a single moment in time.
#[derive(Clone, Debug, PartialEq)]
pub struct Mouse {
    /// The last window in focus, if any.
    pub window: Option<WindowId>,
    /// Position relative to the middle of the window, fixed point.
    pub x: i64,
    pub y: i64,
    /// The state of each mouse button.
    pub buttons: ButtonMap,
}

impl Mouse {
    /// A mouse over no window, at the origin, with every button up.
    pub fn new() -> (m: Mouse)
        ensures
            m.window is None,
            m.x == 0,
            m.y == 0,
            m.buttons.wf(),
            forall|j: int| 0 <= j < 9 ==> m.buttons@[j] == ButtonPosition::Up,
    {
        Mouse { window: None, buttons: ButtonMap::new(), x: 0, y: 0 }
    }

    /// The position of the mouse relative to the middle of the window.
    pub fn position(&self) -> (p: Point2)
        ensures
            p.x == self.x,
            p.y == self.y,
    {
        Point2 { x: self.x, y: self.y }
    }
}

/// A span of time: whole seconds and the nanoseconds into the next one.
#[derive(Clone, Copy, Debug, PartialEq, Eq, Structural, Default)]
pub struct TimeSpan {
    pub secs: u64,
    pub nanos: u32,
}

/// The state of time tracked by the application.
#[derive(Clone, Copy, Debug, PartialEq, Eq, Structural, Default)]
pub struct Time {
    /// The span since the application started running.
    pub since_start: TimeSpan,
    /// The span since the previous update.
    pub since_prev_update: TimeSpan,
}

} // verus!
