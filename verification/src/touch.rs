//! The touch panel: which corner summons the diary, what a touch sends to the
//! panel, and how the toolbar is operated by touch.
use vstd::prelude::*;

use crate::binary32::{Binary32, Dyadic};
use crate::device::DeviceModel;
use crate::event::{
    push_finger_down, push_finger_moved, push_finger_up, InputEvent, Plan, Step,
    ABS_MT_POSITION_X, ABS_MT_POSITION_Y, ABS_MT_TRACKING_ID,
};

verus! {

/// The width of the virtual screen, the same on every device.
pub const VIRTUAL_WIDTH: u16 = 768;

/// The height of the virtual screen, the same on every device.
pub const VIRTUAL_HEIGHT: u16 = 1024;

/// The side of the square in a corner of the virtual screen in which a touch
/// summons the diary.
pub const CORNER_SIZE: i32 = 68;

/// The name of the result of `str::to_lowercase`.
pub uninterp spec fn lowercase(s: Seq<char>) -> Seq<char>;

/// `c`, in lower case if it is an ASCII letter.
pub open spec fn ascii_lowercase(c: char) -> char {
    if 'A' <= c <= 'Z' {
        (c as u32 + 32) as char
    } else {
        c
    }
}

/// Calls `str::to_lowercase`. What that gives on text outside ASCII is in the
/// tables of Unicode, so the result has a name of its own; on ASCII text the
/// function lowers the letters `A` to `Z` and keeps everything else.
#[verifier::external_body]
fn to_lowercase(s: &str) -> (lower: String)
    ensures
        lower@ == lowercase(s@),
        vstd::utf8::is_ascii_chars(s@) ==> lower@ == s@.map_values(|c: char| ascii_lowercase(c)),
{
    s.to_lowercase()
}

/// Whether two strings hold the same characters.
fn same_text(a: &str, b: &str) -> (same: bool)
    ensures
        same == (a@ == b@),
{
    let x: String = a.to_owned();
    let y: String = b.to_owned();
    x == y
}

#[derive(Clone, Copy, Debug, PartialEq, Eq, Structural)]
pub enum TriggerCorner {
    UpperRight,
    UpperLeft,
    LowerRight,
    LowerLeft,
}

/// A name that is not that of a corner.
#[derive(Debug)]
pub struct InvalidTriggerCorner {
    /// The name as it was given.
    pub name: String,
}

impl InvalidTriggerCorner {
    pub open spec fn spec_message(name: Seq<char>) -> Seq<char> {
        "Invalid trigger corner: "@ + name
            + ". Use UR, UL, LR, LL, upper-right, upper-left, lower-right, or lower-left"@
    }

    /// What to tell the user.
    pub fn message(&self) -> (text: String)
        ensures
            text@ == InvalidTriggerCorner::spec_message(self.name@),
    {
        let mut text: String = "Invalid trigger corner: ".to_owned();
        text.append(self.name.as_str());
        text.append(". Use UR, UL, LR, LL, upper-right, upper-left, lower-right, or lower-left");
        text
    }
}

impl TriggerCorner {
    /// The corner with a name in lower case.
    pub open spec fn named(name: Seq<char>) -> Option<TriggerCorner> {
        if name == "ur"@ || name == "upper-right"@ {
            Some(TriggerCorner::UpperRight)
        } else if name == "ul"@ || name == "upper-left"@ {
            Some(TriggerCorner::UpperLeft)
        } else if name == "lr"@ || name == "lower-right"@ {
            Some(TriggerCorner::LowerRight)
        } else if name == "ll"@ || name == "lower-left"@ {
            Some(TriggerCorner::LowerLeft)
        } else {
            None
        }
    }

    /// Looks a corner up by its name in lower case.
    pub fn from_lowercase(name: &str) -> (corner: Option<TriggerCorner>)
        ensures
            corner == TriggerCorner::named(name@),
    {
        if same_text(name, "ur") || same_text(name, "upper-right") {
            Some(TriggerCorner::UpperRight)
        } else if same_text(name, "ul") || same_text(name, "upper-left") {
            Some(TriggerCorner::UpperLeft)
        } else if same_text(name, "lr") || same_text(name, "lower-right") {
            Some(TriggerCorner::LowerRight)
        } else if same_text(name, "ll") || same_text(name, "lower-left") {
            Some(TriggerCorner::LowerLeft)
        } else {
            None
        }
    }

    /// The corner with a name in letters of either case.
    pub open spec fn spec_from_string(s: Seq<char>) -> Option<TriggerCorner> {
        TriggerCorner::named(lowercase(s))
    }

    /// Looks a corner up by its name, in letters of either case.
    pub fn from_string(s: &str) -> (corner: Result<TriggerCorner, InvalidTriggerCorner>)
        ensures
            match corner {
                Ok(c) => TriggerCorner::named(lowercase(s@)) == Some(c),
                Err(e) => TriggerCorner::named(lowercase(s@)) is None && e.name@ == s@,
            },
            vstd::utf8::is_ascii_chars(s@) ==> lowercase(s@) == s@.map_values(
                |c: char| ascii_lowercase(c),
            ),
            match corner {
                Ok(c) => TriggerCorner::spec_from_string(s@) == Some(c),
                Err(e) => TriggerCorner::spec_from_string(s@) is None && e.name@ == s@,
            },
    {
        let lower: String = to_lowercase(s);
        match TriggerCorner::from_lowercase(lower.as_str()) {
            Some(corner) => Ok(corner),
            None => Err(InvalidTriggerCorner { name: s.to_owned() }),
        }
    }

    /// Whether a point of the virtual screen is in this corner.
    pub open spec fn holds(self, x: int, y: int) -> bool {
        let right = x > VIRTUAL_WIDTH - CORNER_SIZE;
        let left = x < CORNER_SIZE;
        let lower = y > VIRTUAL_HEIGHT - CORNER_SIZE;
        let upper = y < CORNER_SIZE;
        match self {
            TriggerCorner::UpperRight => right && upper,
            TriggerCorner::UpperLeft => left && upper,
            TriggerCorner::LowerRight => right && lower,
            TriggerCorner::LowerLeft => left && lower,
        }
    }
}

/// A point is in one corner at most.
pub proof fn law_corners_are_disjoint(x: int, y: int, a: TriggerCorner, b: TriggerCorner)
    requires
        a.holds(x, y),
        b.holds(x, y),
    ensures
        a == b,
{
}

/// A coordinate on an axis of length `from`, on an axis of length `to`:
/// `v / from * to` in single precision, or `(1 - v / from) * to` where one axis
/// runs against the other.
pub open spec fn scaled(v: int, from: int, to: int, turned: bool) -> int {
    let part = Dyadic::of(v).over(Dyadic::of(from));
    let kept = if turned {
        Dyadic::of(1).plus(part.negated())
    } else {
        part
    };
    kept.times(Dyadic::of(to)).to_i32()
}

fn scale(v: i32, from: u32, to: u32, turned: bool) -> (r: i32)
    requires
        512 <= from <= 4096,
        512 <= to <= 4096,
    ensures
        r == scaled(v as int, from as int, to as int, turned),
{
    let part = Binary32::of(v as i64).over(Binary32::of(from as i64));
    let kept = if turned {
        Binary32::of(1).plus(part.negated())
    } else {
        part
    };
    kept.times(Binary32::of(to as i64)).to_i32()
}

/// The zone of a corner is the square of 68 pixels in it, and goes on beyond the
/// edges of the screen.
pub proof fn law_corners_are_squares(x: int, y: int)
    ensures
        TriggerCorner::UpperLeft.holds(x, y) <==> x < 68 && y < 68,
        TriggerCorner::UpperRight.holds(x, y) <==> 768 - x < 68 && y < 68,
        TriggerCorner::LowerLeft.holds(x, y) <==> x < 68 && 1024 - y < 68,
        TriggerCorner::LowerRight.holds(x, y) <==> 768 - x < 68 && 1024 - y < 68,
{
}

/// On the screen, a corner holds just what is within 68 pixels of its tip on
/// both axes.
pub proof fn law_corners_hold_what_is_near(corner: TriggerCorner, x: int, y: int)
    requires
        0 <= x <= 768,
        0 <= y <= 1024,
    ensures
        ({
            let right = corner == TriggerCorner::UpperRight || corner == TriggerCorner::LowerRight;
            let lower = corner == TriggerCorner::LowerLeft || corner == TriggerCorner::LowerRight;
            let across = if right {
                768 - x
            } else {
                x
            };
            let down = if lower {
                1024 - y
            } else {
                y
            };
            corner.holds(x, y) <==> across < 68 && down < 68
        }),
{
}

/// The corners mirror each other.
pub proof fn law_corners_mirror_each_other(x: int, y: int)
    ensures
        TriggerCorner::UpperRight.holds(768 - x, y) == TriggerCorner::UpperLeft.holds(x, y),
        TriggerCorner::LowerLeft.holds(x, 1024 - y) == TriggerCorner::UpperLeft.holds(x, y),
        TriggerCorner::LowerRight.holds(768 - x, 1024 - y) == TriggerCorner::UpperLeft.holds(x, y),
{
}

/// Every corner has two names, and nothing else names one.
pub proof fn law_corners_have_two_names(name: Seq<char>)
    ensures
        TriggerCorner::named(name) == Some(TriggerCorner::UpperRight) <==> name == "ur"@ || name
            == "upper-right"@,
        TriggerCorner::named(name) == Some(TriggerCorner::UpperLeft) <==> name == "ul"@ || name
            == "upper-left"@,
        TriggerCorner::named(name) == Some(TriggerCorner::LowerRight) <==> name == "lr"@ || name
            == "lower-right"@,
        TriggerCorner::named(name) == Some(TriggerCorner::LowerLeft) <==> name == "ll"@ || name
            == "lower-left"@,
{
    reveal_strlit("ur");
    reveal_strlit("ul");
    reveal_strlit("lr");
    reveal_strlit("ll");
    reveal_strlit("upper-right");
    reveal_strlit("upper-left");
    reveal_strlit("lower-right");
    reveal_strlit("lower-left");
    assert("ur"@[0] == 'u' && "ur"@[1] == 'r' && "ul"@[1] == 'l' && "lr"@[0] == 'l');
    assert("ul"@[0] == 'u' && "ll"@[0] == 'l' && "ll"@[1] == 'l' && "lr"@[1] == 'r');
    assert("upper-right"@.len() == 11 && "upper-left"@.len() == 10);
    assert("lower-right"@.len() == 11 && "lower-left"@.len() == 10);
    assert("upper-right"@[0] == 'u' && "lower-right"@[0] == 'l');
    assert("upper-left"@[0] == 'u' && "lower-left"@[0] == 'l');
}

/// Lower case is what becomes of the letters `A` to `Z`, and of nothing else.
pub proof fn law_ascii_letters_are_lowered(c: char)
    ensures
        ascii_lowercase(c) as int == c as int + if 65 <= c as int <= 90 {
            32int
        } else {
            0
        },
{
}

impl DeviceModel {
    /// Whether the y axis of the touch panel runs up the page.
    pub open spec fn touch_y_turned(self) -> bool {
        self != DeviceModel::RemarkablePaperPro
    }

    /// A point of the virtual screen, on the touch panel.
    pub open spec fn spec_virtual_to_input(self, x: int, y: int) -> (int, int) {
        let (width, height) = self.spec_screen_dimensions();
        (
            scaled(x, VIRTUAL_WIDTH as int, width as int, false),
            scaled(y, VIRTUAL_HEIGHT as int, height as int, self.touch_y_turned()),
        )
    }

    /// A point of the touch panel, on the virtual screen.
    pub open spec fn spec_input_to_virtual(self, x: int, y: int) -> (int, int) {
        let (width, height) = self.spec_screen_dimensions();
        (
            scaled(x, width as int, VIRTUAL_WIDTH as int, false),
            scaled(y, height as int, VIRTUAL_HEIGHT as int, self.touch_y_turned()),
        )
    }
}

/// Where a wait for the trigger stands.
#[derive(Clone, Copy, Debug, PartialEq, Eq, Structural)]
pub enum TriggerOutcome {
    /// Keep waiting.
    Waiting,
    /// A touch ended in the corner.
    Triggered,
    /// The panel could not be read.
    ReadFailed,
    /// The program is shutting down.
    Cancelled,
}

/// What wakes a wait for the trigger.
#[derive(Clone, Copy, Debug, PartialEq, Eq, Structural)]
pub enum TriggerWake {
    Event(InputEvent),
    ReadFailed,
    Cancelled,
}

/// A wait for a touch that ends in the trigger corner.
#[derive(Clone, Copy, Debug, PartialEq, Eq, Structural)]
pub struct TriggerWait {
    /// Whether there is a panel to listen to. Where there is none, only the
    /// end of the program ends the wait.
    pub listening: bool,
    pub device_model: DeviceModel,
    pub trigger_corner: TriggerCorner,
    /// The last position that the panel reported, in its own coordinates.
    pub position_x: i32,
    pub position_y: i32,
}

impl TriggerWait {
    /// Whether `event` lifts a finger.
    pub open spec fn is_release(event: InputEvent) -> bool {
        event.code == ABS_MT_TRACKING_ID && event.value == -1
    }

    /// The wait with the position that `event` reports. A wait without a panel
    /// takes nothing in.
    pub open spec fn moved(self, event: InputEvent) -> TriggerWait {
        if self.listening {
            TriggerWait {
                position_x: if event.code == ABS_MT_POSITION_X {
                    event.value
                } else {
                    self.position_x
                },
                position_y: if event.code == ABS_MT_POSITION_Y {
                    event.value
                } else {
                    self.position_y
                },
                ..self
            }
        } else {
            self
        }
    }

    /// The last reported position, on the virtual screen.
    pub open spec fn position(self) -> (int, int) {
        self.device_model.spec_input_to_virtual(self.position_x as int, self.position_y as int)
    }

    /// Whether the last reported position is in the trigger corner.
    pub open spec fn in_corner(self) -> bool {
        self.trigger_corner.holds(self.position().0, self.position().1)
    }

    /// The wait after it was woken.
    pub open spec fn woken(self, wake: TriggerWake) -> TriggerWait {
        match wake {
            TriggerWake::Event(event) => self.moved(event),
            _ => self,
        }
    }

    /// What comes of waking the wait. Without a panel only the end of the
    /// program ends it.
    pub open spec fn outcome(self, wake: TriggerWake) -> TriggerOutcome {
        match wake {
            TriggerWake::Event(event) => if self.listening && TriggerWait::is_release(event)
                && self.moved(event).in_corner() {
                TriggerOutcome::Triggered
            } else {
                TriggerOutcome::Waiting
            },
            TriggerWake::ReadFailed => TriggerOutcome::ReadFailed,
            TriggerWake::Cancelled => TriggerOutcome::Cancelled,
        }
    }

    /// Takes in what woke the wait, and says whether the wait is over.
    pub fn wake(&mut self, wake: TriggerWake) -> (outcome: TriggerOutcome)
        ensures
            *final(self) == old(self).woken(wake),
            outcome == old(self).outcome(wake),
    {
        match wake {
            TriggerWake::Cancelled => TriggerOutcome::Cancelled,
            TriggerWake::ReadFailed => TriggerOutcome::ReadFailed,
            TriggerWake::Event(event) => {
                if !self.listening {
                    return TriggerOutcome::Waiting;
                }
                if event.code == ABS_MT_POSITION_X {
                    self.position_x = event.value;
                }
                if event.code == ABS_MT_POSITION_Y {
                    self.position_y = event.value;
                }
                if event.code == ABS_MT_TRACKING_ID && event.value == -1 {
                    let (x, y) = Touch::input_to_virtual(
                        (self.position_x, self.position_y),
                        self.device_model,
                    );
                    if Touch::is_in_trigger_zone(x, y, self.trigger_corner) {
                        return TriggerOutcome::Triggered;
                    }
                }
                TriggerOutcome::Waiting
            },
        }
    }

    /// The wait after a series of events.
    pub open spec fn after(self, events: Seq<InputEvent>) -> TriggerWait
        decreases events.len(),
    {
        if events.len() == 0 {
            self
        } else {
            self.after(events.drop_last()).moved(events.last())
        }
    }
}

/// The value of the last event with `code`, or `before` if there is none.
pub open spec fn last_value(events: Seq<InputEvent>, code: u16, before: i32) -> i32
    decreases events.len(),
{
    if events.len() == 0 {
        before
    } else if events.last().code == code {
        events.last().value
    } else {
        last_value(events.drop_last(), code, before)
    }
}

/// After any series of events a wait holds the positions reported last, and
/// waits for the same corner of the same device as at the start.
pub proof fn law_wait_holds_the_last_position(wait: TriggerWait, events: Seq<InputEvent>)
    requires
        wait.listening,
    ensures
        wait.after(events) == (TriggerWait {
            position_x: last_value(events, ABS_MT_POSITION_X, wait.position_x),
            position_y: last_value(events, ABS_MT_POSITION_Y, wait.position_y),
            ..wait
        }),
    decreases events.len(),
{
    if events.len() > 0 {
        law_wait_holds_the_last_position(wait, events.drop_last());
    }
}

/// Without a panel to listen to, no event ends a wait or changes it.
pub proof fn law_a_deaf_wait_hears_nothing(
    wait: TriggerWait,
    events: Seq<InputEvent>,
    event: InputEvent,
)
    requires
        !wait.listening,
    ensures
        wait.after(events) == wait,
        wait.after(events).outcome(TriggerWake::Event(event)) == TriggerOutcome::Waiting,
    decreases events.len(),
{
    if events.len() > 0 {
        law_a_deaf_wait_hears_nothing(wait, events.drop_last(), event);
    }
}

/// How the touch panel is driven.
#[derive(Clone, Copy, Debug, PartialEq, Eq, Structural)]
pub enum TouchMode {
    Real {
        /// Whether there is a device to send touch events to.
        input_device: bool,
        /// Whether there is a device to read touch events from.
        event_stream: bool,
        device_model: DeviceModel,
    },
    /// Nothing is sent; a simulator decides when the diary is summoned.
    Simulated,
}

#[derive(Clone, Copy, Debug, PartialEq, Eq, Structural)]
pub struct Touch {
    pub mode: TouchMode,
    pub trigger_corner: TriggerCorner,
}

/// The pen tool's slot in the sidebar.
pub const PEN_SLOT: (i32, i32) = (28, 91);

/// The pixel that is dark while the pen tool is the active one.
pub const PEN_SLOT_PROBE: (u32, u32) = (5, 91);

/// The calligraphy pen in the grid of pen types of the settings panel.
pub const PEN_TYPE_CALLIGRAPHY: (i32, i32) = (231, 197);

/// The fineliner in the same grid.
pub const PEN_TYPE_FINELINER: (i32, i32) = (170, 136);

/// The thin stroke in the settings panel.
pub const SETTINGS_SIZE_THIN: (i32, i32) = (109, 380);

/// The medium stroke in the settings panel.
pub const SETTINGS_SIZE_MEDIUM: (i32, i32) = (170, 380);

/// The black ink in the settings panel.
pub const SETTINGS_COLOR_BLACK: (i32, i32) = (109, 478);

impl Touch {
    /// What a touch at a point of the virtual screen starts with: the finger
    /// goes down, and the panel gets a millisecond to notice. Nothing is sent
    /// where there is no device.
    pub open spec fn spec_touch_start(self, xy: (i32, i32)) -> Seq<Step> {
        match self.mode {
            TouchMode::Real { input_device: true, device_model, .. } => {
                let (x, y) = device_model.spec_virtual_to_input(xy.0 as int, xy.1 as int);
                seq![
                    Step::Send(
                        InputEvent::spec_finger_down(0, 1, x as i32, y as i32).push(
                            InputEvent::spec_report(),
                        ),
                    ),
                    Step::Pause(1),
                ]
            },
            _ => seq![],
        }
    }

    /// What a touch ends with.
    pub open spec fn spec_touch_stop(self) -> Seq<Step> {
        match self.mode {
            TouchMode::Real { input_device: true, .. } => seq![
                Step::Send(InputEvent::spec_finger_up(0).push(InputEvent::spec_report())),
                Step::Pause(1),
            ],
            _ => seq![],
        }
    }

    /// The finger moves to a point of the virtual screen.
    pub open spec fn spec_goto_xy(self, xy: (i32, i32)) -> Seq<Step> {
        match self.mode {
            TouchMode::Real { input_device: true, device_model, .. } => {
                let (x, y) = device_model.spec_virtual_to_input(xy.0 as int, xy.1 as int);
                seq![
                    Step::Send(
                        InputEvent::spec_finger_moved(x as i32, y as i32).push(
                            InputEvent::spec_report(),
                        ),
                    ),
                ]
            },
            _ => seq![],
        }
    }

    /// A touch of a tenth of a second.
    pub open spec fn spec_press(self, xy: (i32, i32)) -> Seq<Step> {
        self.spec_touch_start(xy).push(Step::Pause(100)) + self.spec_touch_stop()
    }

    /// The same, and time for the screen to react.
    pub open spec fn spec_tap(self, xy: (i32, i32)) -> Seq<Step> {
        self.spec_press(xy).push(Step::Pause(300))
    }

    /// The taps that choose a pen type and a stroke width, in black.
    pub open spec fn select_taps(
        pen_active: bool,
        type_xy: (i32, i32),
        size_xy: (i32, i32),
    ) -> Seq<(i32, i32)> {
        let opened = seq![PEN_SLOT, type_xy, size_xy, SETTINGS_COLOR_BLACK, PEN_SLOT];
        if pen_active {
            opened
        } else {
            seq![PEN_SLOT] + opened
        }
    }

    /// A tap at each point in turn.
    pub open spec fn spec_taps(self, points: Seq<(i32, i32)>) -> Seq<Step>
        decreases points.len(),
    {
        if points.len() == 0 {
            seq![]
        } else {
            self.spec_taps(points.drop_last()) + self.spec_tap(points.last())
        }
    }

    /// The finger moves to each point in turn, and rests `ms` milliseconds at
    /// each.
    pub open spec fn spec_drag(self, points: Seq<(i32, i32)>, ms: u64) -> Seq<Step>
        decreases points.len(),
    {
        if points.len() == 0 {
            seq![]
        } else {
            (self.spec_drag(points.drop_last(), ms) + self.spec_goto_xy(points.last())).push(
                Step::Pause(ms),
            )
        }
    }

    /// A wait for the trigger, at its start.
    pub open spec fn spec_wait(self) -> Option<TriggerWait> {
        match self.mode {
            TouchMode::Simulated => None,
            TouchMode::Real { event_stream, device_model, .. } => Some(
                TriggerWait {
                    listening: event_stream,
                    device_model,
                    trigger_corner: self.trigger_corner,
                    position_x: 0,
                    position_y: 0,
                },
            ),
        }
    }

    /// The panel with its trigger in another corner.
    pub open spec fn with_corner(self, new_corner: TriggerCorner) -> Touch {
        Touch { trigger_corner: new_corner, ..self }
    }

    /// A panel that is driven, or only watched over if `no_touch`.
    pub open spec fn spec_new(
        no_touch: bool,
        trigger_corner: TriggerCorner,
        device_model: DeviceModel,
    ) -> Touch {
        Touch {
            mode: TouchMode::Real { input_device: !no_touch, event_stream: !no_touch, device_model },
            trigger_corner,
        }
    }

    /// A panel that a simulator stands in for.
    pub open spec fn spec_new_simulated(trigger_corner: TriggerCorner) -> Touch {
        Touch { mode: TouchMode::Simulated, trigger_corner }
    }

    /// A touch in the middle of the bottom edge.
    pub open spec fn spec_tap_middle_bottom(self) -> Seq<Step> {
        self.spec_press((384, 1023))
    }

    /// The taps that select the calligraphy pen.
    pub open spec fn spec_select_calligraphy_pen(self, pen_active: bool) -> Seq<Step> {
        self.spec_taps(Touch::select_taps(pen_active, PEN_TYPE_CALLIGRAPHY, SETTINGS_SIZE_MEDIUM))
    }

    /// The taps that select the fineliner.
    pub open spec fn spec_select_fineliner(self, pen_active: bool) -> Seq<Step> {
        self.spec_taps(Touch::select_taps(pen_active, PEN_TYPE_FINELINER, SETTINGS_SIZE_THIN))
    }

    /// A panel that is driven, or only watched over if `no_touch`.
    pub fn new(no_touch: bool, trigger_corner: TriggerCorner, device_model: DeviceModel) -> (touch:
        Touch)
        ensures
            touch.mode == (TouchMode::Real {
                input_device: !no_touch,
                event_stream: !no_touch,
                device_model,
            }),
            touch.trigger_corner == trigger_corner,
            touch == Touch::spec_new(no_touch, trigger_corner, device_model),
    {
        Touch {
            mode: TouchMode::Real { input_device: !no_touch, event_stream: !no_touch, device_model },
            trigger_corner,
        }
    }

    pub fn new_simulated(trigger_corner: TriggerCorner) -> (touch: Touch)
        ensures
            touch.mode == TouchMode::Simulated,
            touch.trigger_corner == trigger_corner,
            touch == Touch::spec_new_simulated(trigger_corner),
    {
        Touch { mode: TouchMode::Simulated, trigger_corner }
    }

    /// Starts a wait for the trigger. A simulated panel has none: its
    /// simulator does the waiting.
    pub fn wait_for_trigger(&self) -> (wait: Option<TriggerWait>)
        ensures
            wait == self.spec_wait(),
    {
        match self.mode {
            TouchMode::Simulated => None,
            TouchMode::Real { event_stream, device_model, .. } => Some(
                TriggerWait {
                    listening: event_stream,
                    device_model,
                    trigger_corner: self.trigger_corner,
                    position_x: 0,
                    position_y: 0,
                },
            ),
        }
    }

    /// Puts a finger down at a point of the virtual screen.
    pub fn touch_start(&self, xy: (i32, i32)) -> (plan: Plan)
        ensures
            plan@ == self.spec_touch_start(xy),
    {
        let mut plan = Plan::new();
        if let TouchMode::Real { input_device, device_model, .. } = self.mode {
            let (x, y) = Touch::virtual_to_input(xy, device_model);
            if input_device {
                let mut events: Vec<InputEvent> = Vec::new();
                push_finger_down(&mut events, 0, 1, x, y);
                events.push(InputEvent::report());
                assert(events@ =~= InputEvent::spec_finger_down(0, 1, x, y).push(
                    InputEvent::spec_report(),
                ));
                plan.send(events);
                plan.pause(1);
            }
        }
        plan
    }

    /// Lifts the finger.
    pub fn touch_stop(&self) -> (plan: Plan)
        ensures
            plan@ == self.spec_touch_stop(),
    {
        let mut plan = Plan::new();
        if let TouchMode::Real { input_device, .. } = self.mode {
            if input_device {
                let mut events: Vec<InputEvent> = Vec::new();
                push_finger_up(&mut events, 0);
                events.push(InputEvent::report());
                assert(events@ =~= InputEvent::spec_finger_up(0).push(InputEvent::spec_report()));
                plan.send(events);
                plan.pause(1);
            }
        }
        plan
    }

    /// Moves the finger to a point of the virtual screen.
    pub fn goto_xy(&self, xy: (i32, i32)) -> (plan: Plan)
        ensures
            plan@ == self.spec_goto_xy(xy),
    {
        let mut plan = Plan::new();
        if let TouchMode::Real { input_device, device_model, .. } = self.mode {
            let (x, y) = Touch::virtual_to_input(xy, device_model);
            if input_device {
                let mut events: Vec<InputEvent> = Vec::new();
                push_finger_moved(&mut events, x, y);
                events.push(InputEvent::report());
                assert(events@ =~= InputEvent::spec_finger_moved(x, y).push(
                    InputEvent::spec_report(),
                ));
                plan.send(events);
            }
        }
        plan
    }

    /// Moves the finger to each point in turn, with a rest of `ms`
    /// milliseconds at each.
    pub fn drag(&self, points: &Vec<(i32, i32)>, ms: u64) -> (plan: Plan)
        ensures
            plan@ == self.spec_drag(points@, ms),
    {
        let mut plan = Plan::new();
        let mut i: usize = 0;
        while i < points.len()
            invariant
                i <= points@.len(),
                plan@ == self.spec_drag(points@.take(i as int), ms),
            decreases points@.len() - i,
        {
            plan.follow_with(self.goto_xy(points[i]));
            plan.pause(ms);
            assert(points@.take(i + 1).drop_last() =~= points@.take(i as int));
            i = i + 1;
        }
        assert(points@.take(i as int) =~= points@);
        plan
    }

    /// Touches a point for a tenth of a second.
    pub fn press(&self, xy: (i32, i32)) -> (plan: Plan)
        ensures
            plan@ == self.spec_press(xy),
    {
        let mut plan = self.touch_start(xy);
        plan.pause(100);
        plan.follow_with(self.touch_stop());
        plan
    }

    /// Touches the middle of the bottom edge.
    pub fn tap_middle_bottom(&self) -> (plan: Plan)
        ensures
            plan@ == self.spec_press((384, 1023)),
            plan@ == self.spec_tap_middle_bottom(),
    {
        self.press((384, 1023))
    }

    /// Taps a point: a short touch, and time for the screen to react.
    pub fn tap(&self, xy: (i32, i32)) -> (plan: Plan)
        ensures
            plan@ == self.spec_tap(xy),
    {
        let mut plan = self.press(xy);
        plan.pause(300);
        plan
    }

    /// Whether the pen tool is the active one, by the colour of
    /// [`PEN_SLOT_PROBE`]: dark if it is, light if another tool is. Without a
    /// pixel to look at the answer is no.
    pub fn pen_slot_is_active(pixel: Option<(u8, u8, u8)>) -> (active: bool)
        ensures
            active == (pixel matches Some(rgb) && rgb.0 < 128),
            active == Touch::spec_pen_slot_is_active(pixel),
    {
        match pixel {
            Some((r, _, _)) => r < 128,
            None => false,
        }
    }

    /// Whether the pen tool is the active one, by a pixel.
    pub open spec fn spec_pen_slot_is_active(pixel: Option<(u8, u8, u8)>) -> bool {
        match pixel {
            Some((r, _, _)) => r < 128,
            None => false,
        }
    }

    /// Chooses a pen type and a stroke width, in black. If another tool is
    /// active the first tap only brings the pen back; the settings panel then
    /// takes a second one. The last tap closes the panel.
    pub fn select_pen_type(
        &self,
        pen_active: bool,
        type_xy: (i32, i32),
        size_xy: (i32, i32),
    ) -> (plan: Plan)
        ensures
            plan@ == self.spec_taps(Touch::select_taps(pen_active, type_xy, size_xy)),
    {
        let mut plan = Plan::new();
        let ghost mut done: Seq<(i32, i32)> = seq![];
        if !pen_active {
            plan.follow_with(self.tap(PEN_SLOT));
            proof {
                self.lemma_taps_push(done, PEN_SLOT);
                done = done.push(PEN_SLOT);
            }
        }
        plan.follow_with(self.tap(PEN_SLOT));
        plan.follow_with(self.tap(type_xy));
        plan.follow_with(self.tap(size_xy));
        plan.follow_with(self.tap(SETTINGS_COLOR_BLACK));
        plan.follow_with(self.tap(PEN_SLOT));
        proof {
            self.lemma_taps_push(done, PEN_SLOT);
            done = done.push(PEN_SLOT);
            self.lemma_taps_push(done, type_xy);
            done = done.push(type_xy);
            self.lemma_taps_push(done, size_xy);
            done = done.push(size_xy);
            self.lemma_taps_push(done, SETTINGS_COLOR_BLACK);
            done = done.push(SETTINGS_COLOR_BLACK);
            self.lemma_taps_push(done, PEN_SLOT);
            done = done.push(PEN_SLOT);
            assert(done =~= Touch::select_taps(pen_active, type_xy, size_xy));
        }
        plan
    }

    proof fn lemma_taps_push(self, points: Seq<(i32, i32)>, xy: (i32, i32))
        ensures
            self.spec_taps(points.push(xy)) == self.spec_taps(points) + self.spec_tap(xy),
    {
        assert(points.push(xy).drop_last() =~= points);
    }

    /// Selects the calligraphy pen, medium and black, for the diary's
    /// handwriting.
    pub fn select_calligraphy_pen(&self, pen_active: bool) -> (plan: Plan)
        ensures
            plan@ == self.spec_taps(
                Touch::select_taps(pen_active, PEN_TYPE_CALLIGRAPHY, SETTINGS_SIZE_MEDIUM),
            ),
            plan@ == self.spec_select_calligraphy_pen(pen_active),
    {
        self.select_pen_type(pen_active, PEN_TYPE_CALLIGRAPHY, SETTINGS_SIZE_MEDIUM)
    }

    /// Selects the fineliner, thin and black, for drawings.
    pub fn select_fineliner(&self, pen_active: bool) -> (plan: Plan)
        ensures
            plan@ == self.spec_taps(
                Touch::select_taps(pen_active, PEN_TYPE_FINELINER, SETTINGS_SIZE_THIN),
            ),
            plan@ == self.spec_select_fineliner(pen_active),
    {
        self.select_pen_type(pen_active, PEN_TYPE_FINELINER, SETTINGS_SIZE_THIN)
    }

    /// Whether a point of the virtual screen is in a corner.
    pub fn is_in_trigger_zone(x: i32, y: i32, trigger_corner: TriggerCorner) -> (inside: bool)
        ensures
            inside == trigger_corner.holds(x as int, y as int),
    {
        match trigger_corner {
            TriggerCorner::UpperRight => x > VIRTUAL_WIDTH as i32 - CORNER_SIZE && y < CORNER_SIZE,
            TriggerCorner::UpperLeft => x < CORNER_SIZE && y < CORNER_SIZE,
            TriggerCorner::LowerRight => x > VIRTUAL_WIDTH as i32 - CORNER_SIZE && y
                > VIRTUAL_HEIGHT as i32 - CORNER_SIZE,
            TriggerCorner::LowerLeft => x < CORNER_SIZE && y > VIRTUAL_HEIGHT as i32 - CORNER_SIZE,
        }
    }

    /// A point of the virtual screen, on the touch panel.
    pub fn virtual_to_input(xy: (i32, i32), device_model: DeviceModel) -> (input: (i32, i32))
        ensures
            (input.0 as int, input.1 as int) == device_model.spec_virtual_to_input(
                xy.0 as int,
                xy.1 as int,
            ),
    {
        let (width, height) = Touch::screen_dimensions(device_model);
        let turned = !matches!(device_model, DeviceModel::RemarkablePaperPro);
        (
            scale(xy.0, VIRTUAL_WIDTH as u32, width, false),
            scale(xy.1, VIRTUAL_HEIGHT as u32, height, turned),
        )
    }

    /// A point of the touch panel, on the virtual screen.
    pub fn input_to_virtual(xy: (i32, i32), device_model: DeviceModel) -> (point: (i32, i32))
        ensures
            (point.0 as int, point.1 as int) == device_model.spec_input_to_virtual(
                xy.0 as int,
                xy.1 as int,
            ),
    {
        let (width, height) = Touch::screen_dimensions(device_model);
        let turned = !matches!(device_model, DeviceModel::RemarkablePaperPro);
        (
            scale(xy.0, width, VIRTUAL_WIDTH as u32, false),
            scale(xy.1, height, VIRTUAL_HEIGHT as u32, turned),
        )
    }

    /// The width and height of the touch panel's coordinate space.
    pub fn screen_dimensions(device_model: DeviceModel) -> (size: (u32, u32))
        ensures
            size == device_model.spec_screen_dimensions(),
    {
        match device_model {
            DeviceModel::Remarkable2 => (1404, 1872),
            DeviceModel::RemarkablePaperPro => (2065, 2833),
            DeviceModel::Unknown => (1404, 1872),
        }
    }

    /// Moves the trigger to another corner.
    pub fn set_trigger_corner(&mut self, new_corner: TriggerCorner)
        ensures
            *final(self) == old(self).with_corner(new_corner),
    {
        self.trigger_corner = new_corner;
    }
}

/// A wait keeps to its panel and its corner.
proof fn lemma_wait_settings_stay(wait: TriggerWait, events: Seq<InputEvent>)
    ensures
        wait.after(events).listening == wait.listening,
        wait.after(events).device_model == wait.device_model,
        wait.after(events).trigger_corner == wait.trigger_corner,
    decreases events.len(),
{
    if events.len() > 0 {
        lemma_wait_settings_stay(wait, events.drop_last());
    }
}

/// Once the trigger is in another corner, a release ends a wait just if the
/// last reported position is in that corner, and never in the old one. Nothing
/// else about the panel has changed.
pub proof fn law_the_new_corner_is_the_one_that_counts(
    touch: Touch,
    new_corner: TriggerCorner,
    events: Seq<InputEvent>,
    event: InputEvent,
)
    requires
        touch.mode is Real,
    ensures
        touch.with_corner(new_corner).mode == touch.mode,
        ({
            let wait = touch.with_corner(new_corner).spec_wait()->0.after(events);
            let (x, y) = wait.moved(event).position();
            let triggered = wait.outcome(TriggerWake::Event(event)) == TriggerOutcome::Triggered;
            &&& triggered <==> touch.mode->event_stream && TriggerWait::is_release(event)
                && new_corner.holds(x, y)
            &&& triggered && touch.trigger_corner != new_corner ==> !touch.trigger_corner.holds(
                x,
                y,
            )
        }),
{
    let start = touch.with_corner(new_corner).spec_wait()->0;
    lemma_wait_settings_stay(start, events);
}

/// The toolbar, as far as the pen settings go.
pub struct Toolbar {
    pub pen_active: bool,
    pub panel_open: bool,
    pub pen_type: (i32, i32),
    pub size: (i32, i32),
    pub color: (i32, i32),
}

impl Toolbar {
    pub open spec fn is_pen_type(xy: (i32, i32)) -> bool {
        xy == PEN_TYPE_CALLIGRAPHY || xy == PEN_TYPE_FINELINER
    }

    pub open spec fn is_size(xy: (i32, i32)) -> bool {
        xy == SETTINGS_SIZE_THIN || xy == SETTINGS_SIZE_MEDIUM
    }

    /// How the toolbar takes a tap. The pen's slot brings the pen back if
    /// another tool is active, and opens and closes the settings panel if it
    /// is the pen; the panel takes a choice while it is open.
    pub open spec fn tapped(self, xy: (i32, i32)) -> Toolbar {
        if xy == PEN_SLOT {
            if self.pen_active {
                Toolbar { panel_open: !self.panel_open, ..self }
            } else {
                Toolbar { pen_active: true, ..self }
            }
        } else if !self.panel_open {
            self
        } else if Toolbar::is_pen_type(xy) {
            Toolbar { pen_type: xy, ..self }
        } else if Toolbar::is_size(xy) {
            Toolbar { size: xy, ..self }
        } else if xy == SETTINGS_COLOR_BLACK {
            Toolbar { color: xy, ..self }
        } else {
            self
        }
    }

    pub open spec fn tapped_all(self, points: Seq<(i32, i32)>) -> Toolbar
        decreases points.len(),
    {
        if points.len() == 0 {
            self
        } else {
            self.tapped_all(points.drop_last()).tapped(points.last())
        }
    }
}

/// Whichever tool is active to begin with, selecting a pen leaves the pen
/// active with the type and the width asked for, in black, and the settings
/// panel closed.
pub proof fn law_selecting_a_pen_sets_it(
    toolbar: Toolbar,
    type_xy: (i32, i32),
    size_xy: (i32, i32),
)
    requires
        !toolbar.panel_open,
        Toolbar::is_pen_type(type_xy),
        Toolbar::is_size(size_xy),
    ensures
        toolbar.tapped_all(Touch::select_taps(toolbar.pen_active, type_xy, size_xy)) == (Toolbar {
            pen_active: true,
            panel_open: false,
            pen_type: type_xy,
            size: size_xy,
            color: SETTINGS_COLOR_BLACK,
        }),
{
    let taps = Touch::select_taps(toolbar.pen_active, type_xy, size_xy);
    let n = taps.len() as int;
    reveal_with_fuel(Toolbar::tapped_all, 7);
    assert(taps.drop_last().drop_last().drop_last().drop_last().drop_last() =~= taps.take(n - 5));
    assert(taps.take(n - 5).len() == 1 ==> taps.take(n - 5).drop_last() =~= seq![]);
    assert(taps.take(0) =~= seq![]);
}

impl Touch {
    /// Whether a plan only puts fingers down at some of the points, and lifts
    /// them.
    pub open spec fn touches_only(self, plan: Seq<Step>, points: Seq<(i32, i32)>) -> bool {
        forall|i: int|
            0 <= i < plan.len() ==> match #[trigger] plan[i] {
                Step::Pause(_) => true,
                Step::Send(_) => {
                    ||| self.spec_touch_stop().contains(plan[i])
                    ||| exists|k: int|
                        0 <= k < points.len() && self.spec_touch_start(
                            #[trigger] points[k],
                        ).contains(plan[i])
                },
            }
    }
}

/// Taps touch nothing but the points that are tapped.
pub proof fn law_taps_touch_only_their_points(
    touch: Touch,
    taps: Seq<(i32, i32)>,
    points: Seq<(i32, i32)>,
)
    requires
        forall|i: int| 0 <= i < taps.len() ==> points.contains(#[trigger] taps[i]),
    ensures
        touch.touches_only(touch.spec_taps(taps), points),
    decreases taps.len(),
{
    if taps.len() > 0 {
        let earlier = taps.drop_last();
        let head = touch.spec_taps(earlier);
        let tail = touch.spec_tap(taps.last());
        assert forall|i: int| 0 <= i < earlier.len() implies points.contains(
            #[trigger] earlier[i],
        ) by {
            assert(taps[i] == earlier[i]);
        }
        law_taps_touch_only_their_points(touch, earlier, points);
        let plan = touch.spec_taps(taps);
        assert(points.contains(taps[taps.len() - 1]));
        let k = choose|k: int| 0 <= k < points.len() && points[k] == taps.last();
        let start = touch.spec_touch_start(taps.last());
        let stop = touch.spec_touch_stop();
        assert(touch.spec_touch_start(points[k]) == start);
        assert forall|i: int| 0 <= i < plan.len() implies match #[trigger] plan[i] {
            Step::Pause(_) => true,
            Step::Send(_) => {
                ||| stop.contains(plan[i])
                ||| exists|k: int|
                    0 <= k < points.len() && touch.spec_touch_start(#[trigger] points[k]).contains(
                        plan[i],
                    )
            },
        } by {
            if i < head.len() {
                assert(plan[i] == head[i]);
            } else {
                let j = i - head.len();
                assert(plan[i] == tail[j]);
                if j < start.len() {
                    assert(tail[j] == start[j]);
                    assert(start.contains(plan[i]));
                } else if j == start.len() {
                    assert(tail[j] == Step::Pause(100));
                } else if j < start.len() + 1 + stop.len() {
                    assert(tail[j] == stop[j - start.len() - 1]);
                    assert(stop.contains(plan[i]));
                } else {
                    assert(tail[j] == Step::Pause(300));
                }
            }
        }
    }
}

/// Every place of the toolbar that is known to be safe to tap. The eraser is
/// not among them.
pub open spec fn verified_places() -> Seq<(i32, i32)> {
    seq![
        PEN_SLOT,
        PEN_TYPE_CALLIGRAPHY,
        PEN_TYPE_FINELINER,
        SETTINGS_SIZE_THIN,
        SETTINGS_SIZE_MEDIUM,
        SETTINGS_COLOR_BLACK,
    ]
}

/// Selecting the calligraphy pen or the fineliner touches verified places only.
pub proof fn law_selecting_a_pen_touches_verified_places(touch: Touch, pen_active: bool)
    ensures
        touch.touches_only(
            touch.spec_taps(
                Touch::select_taps(pen_active, PEN_TYPE_CALLIGRAPHY, SETTINGS_SIZE_MEDIUM),
            ),
            verified_places(),
        ),
        touch.touches_only(
            touch.spec_taps(
                Touch::select_taps(pen_active, PEN_TYPE_FINELINER, SETTINGS_SIZE_THIN),
            ),
            verified_places(),
        ),
{
    let places = verified_places();
    assert(places[0] == PEN_SLOT && places[1] == PEN_TYPE_CALLIGRAPHY);
    assert(places[2] == PEN_TYPE_FINELINER && places[3] == SETTINGS_SIZE_THIN);
    assert(places[4] == SETTINGS_SIZE_MEDIUM && places[5] == SETTINGS_COLOR_BLACK);
    law_taps_touch_only_their_points(
        touch,
        Touch::select_taps(pen_active, PEN_TYPE_CALLIGRAPHY, SETTINGS_SIZE_MEDIUM),
        places,
    );
    law_taps_touch_only_their_points(
        touch,
        Touch::select_taps(pen_active, PEN_TYPE_FINELINER, SETTINGS_SIZE_THIN),
        places,
    );
}

/// A release is the tracking id -1, and only a release in the corner, read by
/// the map of the wait's own device, ends a wait.
pub proof fn law_only_a_release_in_the_corner_triggers(wait: TriggerWait, event: InputEvent)
    ensures
        ({
            let x = if event.code == 53 {
                event.value
            } else {
                wait.position_x
            };
            let y = if event.code == 54 {
                event.value
            } else {
                wait.position_y
            };
            let (vx, vy) = wait.device_model.spec_input_to_virtual(x as int, y as int);
            wait.outcome(TriggerWake::Event(event)) == TriggerOutcome::Triggered
                <==> wait.listening && event.code == 57 && event.value == -1
                && wait.trigger_corner.holds(vx, vy)
        }),
{
}

/// A wait that is not over says so, and failures and the end of the program
/// are passed on.
pub proof fn law_what_ends_a_wait(wait: TriggerWait, wake: TriggerWake)
    ensures
        wait.outcome(wake) == TriggerOutcome::Cancelled <==> wake == TriggerWake::Cancelled,
        wait.outcome(wake) == TriggerOutcome::ReadFailed <==> wake == TriggerWake::ReadFailed,
{
}

/// Selecting a pen taps its slot once more if another tool is active, and
/// otherwise just the same.
pub proof fn law_another_tool_takes_one_more_tap(type_xy: (i32, i32), size_xy: (i32, i32))
    ensures
        Touch::select_taps(false, type_xy, size_xy) == seq![(28i32, 91i32)] + Touch::select_taps(
            true,
            type_xy,
            size_xy,
        ),
        Touch::select_taps(true, type_xy, size_xy) == seq![
            (28i32, 91i32),
            type_xy,
            size_xy,
            (109i32, 478i32),
            (28i32, 91i32),
        ],
{
}

/// The pen's slot is active just if its pixel was seen and its red is in the
/// darker half; green and blue do not matter.
pub proof fn law_a_dark_slot_is_active(r: u8, g: u8, b: u8)
    ensures
        Touch::spec_pen_slot_is_active(Some((r, g, b))) <==> r as int * 2 < 256,
        !Touch::spec_pen_slot_is_active(None),
{
}

/// The calligraphy pen is selected medium and black, the fineliner thin and
/// black, by taps at places of the toolbar that were found on the device.
pub proof fn law_pens_are_selected_by_these_taps()
    ensures
        Touch::select_taps(true, PEN_TYPE_CALLIGRAPHY, SETTINGS_SIZE_MEDIUM) == seq![
            (28i32, 91i32),
            (231i32, 197i32),
            (170i32, 380i32),
            (109i32, 478i32),
            (28i32, 91i32),
        ],
        Touch::select_taps(true, PEN_TYPE_FINELINER, SETTINGS_SIZE_THIN) == seq![
            (28i32, 91i32),
            (170i32, 136i32),
            (109i32, 380i32),
            (109i32, 478i32),
            (28i32, 91i32),
        ],
{
}

/// The panel of a reMarkable Paper Pro is larger than that of the others, whose
/// y axis runs up the page.
pub proof fn law_panels_differ_by_device(model: DeviceModel)
    ensures
        model.spec_screen_dimensions() == if model == DeviceModel::RemarkablePaperPro {
            (2065u32, 2833u32)
        } else {
            (1404u32, 1872u32)
        },
        model.touch_y_turned() <==> model != DeviceModel::RemarkablePaperPro,
{
}

/// A wait for the trigger listens where there is a panel to read, to the corner
/// and by the map of that panel; a simulated panel has none.
pub proof fn law_waits_are_for_their_panel(touch: Touch)
    ensures
        touch.mode is Simulated <==> touch.spec_wait() is None,
        touch.spec_wait() matches Some(wait) ==> wait.listening == touch.mode->event_stream
            && wait.device_model == touch.mode->device_model && wait.trigger_corner
            == touch.trigger_corner,
{
}

/// After any events, a wait that listens takes the finger to be where the last
/// of them said, or at the panel's origin on an axis that none of them spoke of.
pub proof fn law_waits_start_at_the_origin(touch: Touch, events: Seq<InputEvent>)
    requires
        touch.mode matches TouchMode::Real { event_stream: true, .. },
    ensures
        touch.spec_wait()->0.after(events).position_x == last_value(events, 53, 0),
        touch.spec_wait()->0.after(events).position_y == last_value(events, 54, 0),
{
    law_wait_holds_the_last_position(touch.spec_wait()->0, events);
}

/// A panel is sent nothing and not listened to if touch is off; otherwise it is
/// driven and listened to, by the map of its device. A simulated panel has no
/// device and no wait.
pub proof fn law_new_panels_do_as_they_are_told(
    no_touch: bool,
    corner: TriggerCorner,
    model: DeviceModel,
    xy: (i32, i32),
)
    ensures
        ({
            let touch = Touch::spec_new(no_touch, corner, model);
            &&& touch.spec_touch_start(xy).len() == 0 <==> no_touch
            &&& touch.spec_touch_stop().len() == 0 <==> no_touch
            &&& touch.spec_wait() matches Some(wait)
            &&& wait.listening <==> !no_touch
            &&& wait.device_model == model && wait.trigger_corner == corner
        }),
        Touch::spec_new_simulated(corner).spec_touch_start(xy).len() == 0,
        Touch::spec_new_simulated(corner).spec_wait() is None,
        Touch::spec_new_simulated(corner).trigger_corner == corner,
{
}

/// A short name of a corner is two letters of either case: the first says upper
/// or lower, the second right or left.
pub proof fn law_short_names_are_two_letters(s: Seq<char>)
    requires
        s.len() == 2,
        lowercase(s) == s.map_values(|c: char| ascii_lowercase(c)),
    ensures
        ({
            let upper = s[0] == 'u' || s[0] == 'U';
            let lower = s[0] == 'l' || s[0] == 'L';
            let right = s[1] == 'r' || s[1] == 'R';
            let left = s[1] == 'l' || s[1] == 'L';
            TriggerCorner::spec_from_string(s) == if upper && right {
                Some(TriggerCorner::UpperRight)
            } else if upper && left {
                Some(TriggerCorner::UpperLeft)
            } else if lower && right {
                Some(TriggerCorner::LowerRight)
            } else if lower && left {
                Some(TriggerCorner::LowerLeft)
            } else {
                None
            }
        }),
{
    let t = lowercase(s);
    law_corners_have_two_names(t);
    reveal_strlit("ur");
    reveal_strlit("ul");
    reveal_strlit("lr");
    reveal_strlit("ll");
    reveal_strlit("upper-right");
    reveal_strlit("upper-left");
    reveal_strlit("lower-right");
    reveal_strlit("lower-left");
    lemma_lowered(s[0]);
    lemma_lowered(s[1]);
    assert(t.len() == 2 && t[0] == ascii_lowercase(s[0]) && t[1] == ascii_lowercase(s[1]));
    assert(t == "ur"@ <==> t[0] == 'u' && t[1] == 'r') by {
        if t[0] == 'u' && t[1] == 'r' {
            assert(t =~= "ur"@);
        }
    }
    assert(t == "ul"@ <==> t[0] == 'u' && t[1] == 'l') by {
        if t[0] == 'u' && t[1] == 'l' {
            assert(t =~= "ul"@);
        }
    }
    assert(t == "lr"@ <==> t[0] == 'l' && t[1] == 'r') by {
        if t[0] == 'l' && t[1] == 'r' {
            assert(t =~= "lr"@);
        }
    }
    assert(t == "ll"@ <==> t[0] == 'l' && t[1] == 'l') by {
        if t[0] == 'l' && t[1] == 'l' {
            assert(t =~= "ll"@);
        }
    }
}

/// Which letters become `u`, `l` and `r` in lower case.
proof fn lemma_lowered(c: char)
    ensures
        ascii_lowercase(c) == 'u' <==> c == 'u' || c == 'U',
        ascii_lowercase(c) == 'l' <==> c == 'l' || c == 'L',
        ascii_lowercase(c) == 'r' <==> c == 'r' || c == 'R',
{
    law_ascii_letters_are_lowered(c);
    assert('u' as int == 117 && 'U' as int == 85 && 'l' as int == 108 && 'L' as int == 76);
    assert('r' as int == 114 && 'R' as int == 82);
}

/// What is told of a name that is not a corner's quotes the name as it was
/// given, after the same words and before the same words.
pub proof fn law_messages_quote_the_name(name: Seq<char>, other: Seq<char>)
    ensures
        ({
            let a = InvalidTriggerCorner::spec_message(name);
            let b = InvalidTriggerCorner::spec_message(other);
            let n = name.len() as int;
            let m = other.len() as int;
            &&& a.subrange(24, 24 + n) == name
            &&& a.take(24) == "Invalid trigger corner: "@
            &&& a.skip(24 + n) == b.skip(24 + m)
            &&& a.skip(24 + n)
                == ". Use UR, UL, LR, LL, upper-right, upper-left, lower-right, or lower-left"@
        }),
{
    reveal_strlit("Invalid trigger corner: ");
    let a = InvalidTriggerCorner::spec_message(name);
    let b = InvalidTriggerCorner::spec_message(other);
    let n = name.len() as int;
    let m = other.len() as int;
    assert(a.subrange(24, 24 + n) =~= name);
    assert(a.take(24) =~= "Invalid trigger corner: "@);
    assert(a.skip(24 + n)
        =~= ". Use UR, UL, LR, LL, upper-right, upper-left, lower-right, or lower-left"@);
    assert(a.skip(24 + n) =~= b.skip(24 + m));
}

/// A wait that is woken by one event after the other knows what it would know
/// after the whole series; nothing else that wakes it changes it.
pub proof fn law_waking_takes_events_in(
    wait: TriggerWait,
    events: Seq<InputEvent>,
    event: InputEvent,
)
    ensures
        wait.after(events).woken(TriggerWake::Event(event)) == wait.after(events.push(event)),
        wait.woken(TriggerWake::ReadFailed) == wait,
        wait.woken(TriggerWake::Cancelled) == wait,
{
    assert(events.push(event).drop_last() =~= events);
}

/// An event moves a wait that listens on the axis that it is about, to the value
/// that it has, and on no other.
pub proof fn law_positions_are_reported_one_by_one(wait: TriggerWait, event: InputEvent)
    requires
        wait.listening,
    ensures
        wait.woken(TriggerWake::Event(event)) == (TriggerWait {
            position_x: if event.code == 53 {
                event.value
            } else {
                wait.position_x
            },
            position_y: if event.code == 54 {
                event.value
            } else {
                wait.position_y
            },
            ..wait
        }),
{
}

/// The pixel that tells whether the pen is active is in the row in which the
/// pen's slot is tapped, between the edge of the screen and that place.
pub proof fn law_the_probe_is_in_the_slot()
    ensures
        PEN_SLOT_PROBE.1 == PEN_SLOT.1,
        0 < PEN_SLOT_PROBE.0 < PEN_SLOT.0,
        PEN_SLOT.0 < crate::ink::PAGE_X_MIN,
{
}

} // verus!
