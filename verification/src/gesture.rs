//! The idle trigger: once the pen has rested for a while after at least one
//! stroke, the diary answers. No tap and no gesture is needed; any stroke
//! restarts the clock, and only silence lets it run out.
use vstd::prelude::*;

use crate::binary32::{Binary32, Dyadic};
use crate::device::DeviceModel;
use crate::event::{EventKind, InputEvent};
use crate::touch::{VIRTUAL_HEIGHT, VIRTUAL_WIDTH};

verus! {

pub const ABS_X: u16 = 0;

pub const ABS_Y: u16 = 1;

pub const BTN_TOOL_RUBBER: u16 = 321;

pub const BTN_TOUCH: u16 = 330;

/// A point of the virtual screen.
pub type Point = (Binary32, Binary32);

/// The left, upper, right and lower edge of a box on the virtual screen.
pub type Bounds = (Binary32, Binary32, Binary32, Binary32);

#[derive(Clone, Copy, Debug, PartialEq, Eq, Structural)]
pub struct IdleTriggerConfig {
    /// How long the pen must be inactive, with no stroke anywhere on the page,
    /// before the diary answers.
    pub idle_delay_ms: u64,
}

impl Default for IdleTriggerConfig {
    fn default() -> (config: IdleTriggerConfig)
        ensures
            config.idle_delay_ms == 3500,
    {
        IdleTriggerConfig { idle_delay_ms: 3500 }
    }
}

/// What the idle trigger saw, on the virtual screen.
#[derive(Clone, Copy, Debug, PartialEq, Eq)]
pub struct IdleTrigger {
    /// Where the newest writing ended.
    pub anchor: Point,
    /// The box around every pen stroke since the wait began.
    pub bbox: Bounds,
}

impl IdleTrigger {
    /// Every number in it is one of the interchange format's.
    pub open spec fn representable(self) -> bool {
        &&& self.anchor.0.representable() && self.anchor.1.representable()
        &&& self.bbox.0.representable() && self.bbox.1.representable()
        &&& self.bbox.2.representable() && self.bbox.3.representable()
    }
}

/// A number that arises as a coordinate of the virtual screen.
pub open spec fn coordinate(v: Binary32) -> bool {
    v.wf() && -90 <= v.exponent <= 60
}

pub open spec fn point_wf(p: Point) -> bool {
    coordinate(p.0) && coordinate(p.1)
}

pub open spec fn bounds_wf(b: Bounds) -> bool {
    coordinate(b.0) && coordinate(b.1) && coordinate(b.2) && coordinate(b.3)
}

impl DeviceModel {
    /// A position of the pen, on the virtual screen. The digitizer of a
    /// reMarkable 2 lies on its side: its x axis runs up the page.
    pub open spec fn spec_pen_to_virtual(self, x: int, y: int) -> (Dyadic, Dyadic) {
        let (max_x, max_y) = self.spec_pen_max();
        let width = Dyadic::of(VIRTUAL_WIDTH as int);
        let height = Dyadic::of(VIRTUAL_HEIGHT as int);
        if self == DeviceModel::RemarkablePaperPro {
            (
                Dyadic::of(x).over(Dyadic::of(max_x as int)).times(width),
                Dyadic::of(y).over(Dyadic::of(max_y as int)).times(height),
            )
        } else {
            (
                Dyadic::of(y).over(Dyadic::of(max_x as int)).times(width),
                Dyadic::of(1).plus(
                    Dyadic::of(x).over(Dyadic::of(max_y as int)).negated(),
                ).times(height),
            )
        }
    }

    /// The same as a [`Point`].
    pub open spec fn pen_point(self, x: i32, y: i32) -> Point {
        let (a, b) = self.spec_pen_to_virtual(x as int, y as int);
        (a.kept(), b.kept())
    }

    /// The largest x and y that the pen digitizer reports.
    pub fn pen_max(self) -> (max: (u32, u32))
        ensures
            max == self.spec_pen_max(),
    {
        match self {
            DeviceModel::RemarkablePaperPro => (11180, 15340),
            _ => (15725, 20966),
        }
    }
}

/// A position of the pen, on the virtual screen.
pub fn input_to_virtual(x: i32, y: i32, device_model: DeviceModel) -> (point: Point)
    ensures
        (point.0@, point.1@) == device_model.spec_pen_to_virtual(x as int, y as int),
        point == device_model.pen_point(x, y),
        point_wf(point),
{
    let (max_x, max_y) = device_model.pen_max();
    let width = Binary32::of(VIRTUAL_WIDTH as i64);
    let height = Binary32::of(VIRTUAL_HEIGHT as i64);
    match device_model {
        DeviceModel::RemarkablePaperPro => (
            Binary32::of(x as i64).over(Binary32::of(max_x as i64)).times(width),
            Binary32::of(y as i64).over(Binary32::of(max_y as i64)).times(height),
        ),
        _ => (
            Binary32::of(y as i64).over(Binary32::of(max_x as i64)).times(width),
            Binary32::of(1).plus(
                Binary32::of(x as i64).over(Binary32::of(max_y as i64)).negated(),
            ).times(height),
        ),
    }
}

/// The smaller of two numbers.
pub open spec fn spec_min(a: Binary32, b: Binary32) -> Binary32 {
    if a@.at_most(b@) {
        a
    } else {
        b
    }
}

/// The larger of two numbers.
pub open spec fn spec_max(a: Binary32, b: Binary32) -> Binary32 {
    if a@.at_most(b@) {
        b
    } else {
        a
    }
}

/// The box `bbox`, grown to hold `p`.
pub open spec fn expanded(bbox: Option<Bounds>, p: Point) -> Bounds {
    match bbox {
        None => (p.0, p.1, p.0, p.1),
        Some(b) => (
            spec_min(b.0, p.0),
            spec_min(b.1, p.1),
            spec_max(b.2, p.0),
            spec_max(b.3, p.1),
        ),
    }
}

fn smaller(a: Binary32, b: Binary32) -> (r: Binary32)
    requires
        a.wf(),
        b.wf(),
    ensures
        r == spec_min(a, b),
{
    if a.at_most(b) {
        a
    } else {
        b
    }
}

fn larger(a: Binary32, b: Binary32) -> (r: Binary32)
    requires
        a.wf(),
        b.wf(),
    ensures
        r == spec_max(a, b),
{
    if a.at_most(b) {
        b
    } else {
        a
    }
}

/// Grows a box to hold a point.
pub fn expand_bbox(bbox: &mut Option<Bounds>, p: Point)
    requires
        *old(bbox) matches Some(b) ==> bounds_wf(b),
        point_wf(p),
    ensures
        *final(bbox) == Some(expanded(*old(bbox), p)),
        bounds_wf(expanded(*old(bbox), p)),
{
    *bbox = Some(
        match *bbox {
            None => (p.0, p.1, p.0, p.1),
            Some((x0, y0, x1, y1)) => (
                smaller(x0, p.0),
                smaller(y0, p.1),
                larger(x1, p.0),
                larger(y1, p.1),
            ),
        },
    );
}

/// The small box around `anchor` that stands in for the writing when the pen
/// came down without moving.
pub open spec fn spec_box_around(anchor: Point) -> Bounds {
    (
        anchor.0@.plus(Dyadic::of(-50)).kept(),
        anchor.1@.plus(Dyadic::of(-30)).kept(),
        anchor.0@.plus(Dyadic::of(50)).kept(),
        anchor.1@.plus(Dyadic::of(10)).kept(),
    )
}

fn box_around(anchor: Point) -> (bbox: Bounds)
    requires
        point_wf(anchor),
    ensures
        bbox == spec_box_around(anchor),
        bbox.0.representable() && bbox.1.representable(),
        bbox.2.representable() && bbox.3.representable(),
{
    (
        anchor.0.plus(Binary32::of(-50)),
        anchor.1.plus(Binary32::of(-30)),
        anchor.0.plus(Binary32::of(50)),
        anchor.1.plus(Binary32::of(10)),
    )
}

/// What the strokes of the pen covered of one axis of the virtual screen, while
/// nobody knew where on the other axis they were.
#[derive(Clone, Copy, Debug, PartialEq, Eq)]
pub enum HalfKnown {
    /// From left to right.
    Across(Binary32, Binary32),
    /// From the top down.
    Down(Binary32, Binary32),
}

impl HalfKnown {
    pub open spec fn wf(self) -> bool {
        match self {
            HalfKnown::Across(lo, hi) => coordinate(lo) && coordinate(hi),
            HalfKnown::Down(lo, hi) => coordinate(lo) && coordinate(hi),
        }
    }

    /// The box if it all was where `p` is on the other axis.
    pub open spec fn spec_at(self, p: Point) -> Bounds {
        match self {
            HalfKnown::Across(lo, hi) => (lo, p.1, hi, p.1),
            HalfKnown::Down(lo, hi) => (p.0, lo, p.0, hi),
        }
    }

    /// What was covered from left to right, with `v` as well.
    pub open spec fn spec_across(half: Option<HalfKnown>, v: Binary32) -> HalfKnown {
        match half {
            Some(HalfKnown::Across(lo, hi)) => HalfKnown::Across(spec_min(lo, v), spec_max(hi, v)),
            _ => HalfKnown::Across(v, v),
        }
    }

    /// What was covered from the top down, with `v` as well.
    pub open spec fn spec_down(half: Option<HalfKnown>, v: Binary32) -> HalfKnown {
        match half {
            Some(HalfKnown::Down(lo, hi)) => HalfKnown::Down(spec_min(lo, v), spec_max(hi, v)),
            _ => HalfKnown::Down(v, v),
        }
    }

    fn at(self, p: Point) -> (bbox: Bounds)
        ensures
            bbox == self.spec_at(p),
    {
        match self {
            HalfKnown::Across(lo, hi) => (lo, p.1, hi, p.1),
            HalfKnown::Down(lo, hi) => (p.0, lo, p.0, hi),
        }
    }

    fn across(half: Option<HalfKnown>, v: Binary32) -> (grown: HalfKnown)
        requires
            half matches Some(h) ==> h.wf(),
            coordinate(v),
        ensures
            grown == HalfKnown::spec_across(half, v),
            grown.wf(),
    {
        match half {
            Some(HalfKnown::Across(lo, hi)) => HalfKnown::Across(smaller(lo, v), larger(hi, v)),
            _ => HalfKnown::Across(v, v),
        }
    }

    fn down(half: Option<HalfKnown>, v: Binary32) -> (grown: HalfKnown)
        requires
            half matches Some(h) ==> h.wf(),
            coordinate(v),
        ensures
            grown == HalfKnown::spec_down(half, v),
            grown.wf(),
    {
        match half {
            Some(HalfKnown::Down(lo, hi)) => HalfKnown::Down(smaller(lo, v), larger(hi, v)),
            _ => HalfKnown::Down(v, v),
        }
    }
}

/// The time from `since` to `now`.
pub open spec fn elapsed(since: u128, now: u128) -> int {
    if now >= since {
        now - since
    } else {
        0
    }
}

/// What wakes a wait for the idle trigger. Times are in nanoseconds since any
/// one moment; `drawing` is whether the diary is drawing an answer.
#[derive(Clone, Copy, Debug, PartialEq, Eq, Structural)]
pub enum IdleWake {
    /// Nothing happened for a while.
    Tick { drawing: bool, now: u128 },
    /// The pen reported something.
    Event { event: InputEvent, drawing: bool, now: u128 },
    /// The digitizer could not be read.
    ReadFailed,
    /// The program is shutting down.
    Cancelled,
}

/// Where a wait for the idle trigger stands.
#[derive(Clone, Copy, Debug, PartialEq, Eq)]
pub enum IdleOutcome {
    Waiting,
    /// A stroke of the pen or of its eraser ended; keep waiting.
    StrokeEnded { eraser: bool, at: Point },
    /// Open the digitizer anew, then keep waiting.
    Reopen,
    /// Open the digitizer anew and let it settle, then keep waiting.
    ReopenAndSettle,
    Triggered(IdleTrigger),
    Cancelled,
}

/// A wait for the pen to rest.
#[derive(Clone, Copy, Debug, PartialEq, Eq)]
pub struct IdleWait {
    pub device_model: DeviceModel,
    pub config: IdleTriggerConfig,
    /// Where the pen is, in the digitizer's coordinates, hovering or not.
    pub cur_x: i32,
    pub cur_y: i32,
    /// Whether the pen has reported its x and its y in this wait, or since the
    /// diary last drew. Until it has reported both, nobody knows where it is.
    pub known_x: bool,
    pub known_y: bool,
    pub in_stroke: bool,
    /// Whether the pen is held by its eraser end. Erasing restarts the clock
    /// but is nothing to answer.
    pub rubber_active: bool,
    /// When the last stroke ended.
    pub last_activity: Option<u128>,
    pub has_new_content: bool,
    /// Where the last stroke of the pen ended.
    pub last_stroke_end: Option<Point>,
    /// The box around the strokes of the pen.
    pub content_bbox: Option<Bounds>,
    /// What the strokes covered before it was known where they were.
    pub half_known: Option<HalfKnown>,
    /// Whether the diary was drawing when the wait was last woken.
    pub was_drawing: bool,
}

impl IdleWait {
    /// Writing to answer has an end, and a time at which it ended.
    pub open spec fn wf(self) -> bool {
        &&& self.has_new_content ==> self.last_activity is Some && self.last_stroke_end is Some
        &&& self.last_stroke_end matches Some(p) ==> point_wf(p)
        &&& self.content_bbox matches Some(b) ==> bounds_wf(b)
        &&& self.content_bbox is Some ==> self.known_across() && self.known_down()
        &&& self.half_known matches Some(h) ==> h.wf() && self.content_bbox is None
        &&& self.half_known matches Some(HalfKnown::Across(_, _)) ==> self.known_across()
        &&& self.half_known matches Some(HalfKnown::Down(_, _)) ==> self.known_down()
    }

    /// Whether it is known where the pen is from left to right.
    pub open spec fn known_across(self) -> bool {
        if self.device_model == DeviceModel::RemarkablePaperPro {
            self.known_x
        } else {
            self.known_y
        }
    }

    /// Whether it is known where the pen is from the top down.
    pub open spec fn known_down(self) -> bool {
        if self.device_model == DeviceModel::RemarkablePaperPro {
            self.known_y
        } else {
            self.known_x
        }
    }

    /// Where the pen is, on the virtual screen.
    pub open spec fn here(self) -> Point {
        self.device_model.pen_point(self.cur_x, self.cur_y)
    }

    /// The wait once everything written so far is forgotten, and with it where
    /// the pen was.
    pub open spec fn cleared(self) -> IdleWait {
        IdleWait {
            has_new_content: false,
            last_activity: None,
            last_stroke_end: None,
            content_bbox: None,
            half_known: None,
            in_stroke: false,
            known_x: false,
            known_y: false,
            ..self
        }
    }

    /// Whether a wake finds that the diary has finished drawing. What was
    /// written before is then forgotten.
    pub open spec fn forgets(self, wake: IdleWake) -> bool {
        match wake {
            IdleWake::Tick { drawing, .. } => self.was_drawing && !drawing,
            IdleWake::Event { drawing, .. } => self.was_drawing && !drawing,
            _ => false,
        }
    }

    /// The wait with it noted whether the diary is drawing: when it has
    /// finished, what came before is forgotten.
    pub open spec fn noted(self, drawing: bool) -> IdleWait {
        let kept = if self.was_drawing && !drawing {
            self.cleared()
        } else {
            self
        };
        IdleWait { was_drawing: drawing, ..kept }
    }

    /// Whether the pen has rested long enough at `now`.
    pub open spec fn rested(self, now: u128) -> bool {
        !self.in_stroke && (self.last_activity matches Some(t) && elapsed(t, now)
            >= self.config.idle_delay_ms * 1_000_000)
    }

    /// What the trigger reports. Writing of which one axis was never known is
    /// taken to be where it ended.
    pub open spec fn trigger(self) -> IdleTrigger {
        let anchor = match self.last_stroke_end {
            Some(p) => p,
            None => self.here(),
        };
        IdleTrigger {
            anchor,
            bbox: match self.content_bbox {
                Some(b) => b,
                None => match self.half_known {
                    Some(half) => half.spec_at(anchor),
                    None => spec_box_around(anchor),
                },
            },
        }
    }

    /// Whether the pen is writing.
    pub open spec fn writing(self) -> bool {
        self.in_stroke && !self.rubber_active
    }

    /// The wait with the box grown to where the pen is, if it is writing. While
    /// one axis is not known, what is known of the other is kept for later.
    pub open spec fn traced(self) -> IdleWait {
        if !self.writing() {
            self
        } else if self.known_across() && self.known_down() {
            let bbox = match self.half_known {
                Some(half) => Some(half.spec_at(self.here())),
                None => self.content_bbox,
            };
            IdleWait {
                content_bbox: Some(expanded(bbox, self.here())),
                half_known: None,
                ..self
            }
        } else if self.known_across() {
            IdleWait {
                half_known: Some(HalfKnown::spec_across(self.half_known, self.here().0)),
                ..self
            }
        } else {
            IdleWait {
                half_known: Some(HalfKnown::spec_down(self.half_known, self.here().1)),
                ..self
            }
        }
    }

    /// Whether `event` lifts the pen at the end of a stroke.
    pub open spec fn ends_stroke(self, event: InputEvent) -> bool {
        event.kind == EventKind::Key && event.code == BTN_TOUCH && event.value == 0
            && self.in_stroke
    }

    /// The wait after a report of the pen.
    pub open spec fn reported(self, event: InputEvent, now: u128) -> IdleWait {
        if event.kind == EventKind::Key && event.code == BTN_TOOL_RUBBER {
            IdleWait { rubber_active: event.value == 1, ..self }
        } else if event.kind == EventKind::Key && event.code == BTN_TOUCH && event.value == 1 {
            IdleWait { in_stroke: true, ..self }
        } else if event.kind == EventKind::Absolute && event.code == ABS_X {
            (IdleWait { cur_x: event.value, known_x: true, ..self }).traced()
        } else if event.kind == EventKind::Absolute && event.code == ABS_Y {
            (IdleWait { cur_y: event.value, known_y: true, ..self }).traced()
        } else if self.ends_stroke(event) {
            let ended = IdleWait { in_stroke: false, last_activity: Some(now), ..self };
            if self.rubber_active {
                ended
            } else {
                IdleWait {
                    has_new_content: true,
                    last_stroke_end: Some(self.here()),
                    ..ended
                }
            }
        } else {
            self
        }
    }

    /// The wait after it was woken.
    pub open spec fn woken(self, wake: IdleWake) -> IdleWait {
        match wake {
            IdleWake::Tick { drawing, .. } => self.noted(drawing),
            IdleWake::Event { drawing: true, .. } => IdleWait {
                in_stroke: false,
                was_drawing: true,
                ..self
            },
            IdleWake::Event { event, drawing: false, now } => self.noted(false).reported(
                event,
                now,
            ),
            IdleWake::ReadFailed => IdleWait { in_stroke: false, ..self },
            IdleWake::Cancelled => self,
        }
    }

    /// What comes of waking the wait.
    pub open spec fn outcome(self, wake: IdleWake) -> IdleOutcome {
        match wake {
            IdleWake::Tick { drawing, now } => if self.forgets(wake) {
                IdleOutcome::Reopen
            } else if !drawing && self.has_new_content && self.rested(now) {
                IdleOutcome::Triggered(self.trigger())
            } else {
                IdleOutcome::Waiting
            },
            IdleWake::Event { event, drawing, .. } => if self.forgets(wake) {
                IdleOutcome::Reopen
            } else if !drawing && self.ends_stroke(event) {
                IdleOutcome::StrokeEnded { eraser: self.rubber_active, at: self.here() }
            } else {
                IdleOutcome::Waiting
            },
            IdleWake::ReadFailed => IdleOutcome::ReopenAndSettle,
            IdleWake::Cancelled => IdleOutcome::Cancelled,
        }
    }

    /// Whether the pen has rested long enough at `now`.
    fn has_rested(&self, now: u128) -> (rested: bool)
        ensures
            rested == self.rested(now),
    {
        match self.last_activity {
            Some(t) => {
                let elapsed: u128 = if now >= t {
                    now - t
                } else {
                    0
                };
                !self.in_stroke && elapsed >= self.config.idle_delay_ms as u128 * 1_000_000
            },
            None => false,
        }
    }

    /// Grows the box to where the pen is, if it is writing.
    fn trace(&mut self)
        requires
            old(self).wf(),
            old(self).known_x || old(self).known_y,
        ensures
            *final(self) == old(self).traced(),
            final(self).wf(),
    {
        if self.in_stroke && !self.rubber_active {
            let here = input_to_virtual(self.cur_x, self.cur_y, self.device_model);
            let across = match self.device_model {
                DeviceModel::RemarkablePaperPro => self.known_x,
                _ => self.known_y,
            };
            if self.known_x && self.known_y {
                if let Some(half) = self.half_known {
                    self.content_bbox = Some(half.at(here));
                    self.half_known = None;
                }
                expand_bbox(&mut self.content_bbox, here);
            } else if across {
                self.half_known = Some(HalfKnown::across(self.half_known, here.0));
            } else {
                self.half_known = Some(HalfKnown::down(self.half_known, here.1));
            }
        }
    }

    /// Takes in a report of the pen.
    fn report(&mut self, event: InputEvent, now: u128)
        requires
            old(self).wf(),
        ensures
            *final(self) == old(self).reported(event, now),
            final(self).wf(),
    {
        match event.kind {
            EventKind::Key => {
                if event.code == BTN_TOOL_RUBBER {
                    self.rubber_active = event.value == 1;
                } else if event.code == BTN_TOUCH && event.value == 1 {
                    self.in_stroke = true;
                } else if event.code == BTN_TOUCH && event.value == 0 && self.in_stroke {
                    self.in_stroke = false;
                    self.last_activity = Some(now);
                    if !self.rubber_active {
                        self.has_new_content = true;
                        self.last_stroke_end = Some(
                            input_to_virtual(self.cur_x, self.cur_y, self.device_model),
                        );
                    }
                }
            },
            EventKind::Absolute => {
                if event.code == ABS_X {
                    self.cur_x = event.value;
                    self.known_x = true;
                    self.trace();
                } else if event.code == ABS_Y {
                    self.cur_y = event.value;
                    self.known_y = true;
                    self.trace();
                }
            },
            _ => {},
        }
    }

    /// Notes whether the diary is drawing, and says whether it has finished.
    fn note(&mut self, drawing: bool) -> (finished: bool)
        requires
            old(self).wf(),
        ensures
            *final(self) == old(self).noted(drawing),
            finished == (old(self).was_drawing && !drawing),
            final(self).wf(),
    {
        let finished = self.was_drawing && !drawing;
        if finished {
            self.has_new_content = false;
            self.last_activity = None;
            self.last_stroke_end = None;
            self.content_bbox = None;
            self.half_known = None;
            self.in_stroke = false;
            self.known_x = false;
            self.known_y = false;
        }
        self.was_drawing = drawing;
        finished
    }

    /// What the trigger reports.
    fn report_trigger(&self) -> (trigger: IdleTrigger)
        requires
            self.wf(),
        ensures
            trigger == self.trigger(),
            trigger.representable(),
    {
        let anchor = match self.last_stroke_end {
            Some(p) => p,
            None => input_to_virtual(self.cur_x, self.cur_y, self.device_model),
        };
        let bbox = match self.content_bbox {
            Some(b) => b,
            None => match self.half_known {
                Some(half) => half.at(anchor),
                None => box_around(anchor),
            },
        };
        IdleTrigger { anchor, bbox }
    }

    /// Takes in a tick.
    fn tick(&mut self, drawing: bool, now: u128) -> (outcome: IdleOutcome)
        requires
            old(self).wf(),
        ensures
            *final(self) == old(self).noted(drawing),
            outcome == old(self).outcome(IdleWake::Tick { drawing, now }),
            final(self).wf(),
            outcome matches IdleOutcome::Triggered(t) ==> t.representable(),
            !(outcome is StrokeEnded),
    {
        if self.note(drawing) {
            IdleOutcome::Reopen
        } else if !drawing && self.has_new_content && self.has_rested(now) {
            IdleOutcome::Triggered(self.report_trigger())
        } else {
            IdleOutcome::Waiting
        }
    }

    /// Takes in a report of the pen while the diary does not draw.
    fn take_report(&mut self, event: InputEvent, now: u128) -> (outcome: IdleOutcome)
        requires
            old(self).wf(),
        ensures
            *final(self) == old(self).noted(false).reported(event, now),
            outcome == old(self).outcome(IdleWake::Event { event, drawing: false, now }),
            final(self).wf(),
            outcome matches IdleOutcome::StrokeEnded { at, .. } ==> at.0.representable()
                && at.1.representable(),
            !(outcome is Triggered),
    {
        let finished = self.note(false);
        let ending = matches!(event.kind, EventKind::Key) && event.code == BTN_TOUCH && event.value
            == 0 && self.in_stroke;
        let eraser = self.rubber_active;
        let at = input_to_virtual(self.cur_x, self.cur_y, self.device_model);
        self.report(event, now);
        if finished {
            IdleOutcome::Reopen
        } else if ending {
            IdleOutcome::StrokeEnded { eraser, at }
        } else {
            IdleOutcome::Waiting
        }
    }

    /// Takes in what woke the wait, and says what to do.
    pub fn wake(&mut self, wake: IdleWake) -> (outcome: IdleOutcome)
        requires
            old(self).wf(),
        ensures
            *final(self) == old(self).woken(wake),
            outcome == old(self).outcome(wake),
            final(self).wf(),
            outcome matches IdleOutcome::Triggered(t) ==> t.representable(),
            outcome matches IdleOutcome::StrokeEnded { at, .. } ==> at.0.representable()
                && at.1.representable(),
    {
        match wake {
            IdleWake::Tick { drawing, now } => self.tick(drawing, now),
            IdleWake::Event { event, drawing, now } => {
                if drawing {
                    self.in_stroke = false;
                    self.was_drawing = true;
                    IdleOutcome::Waiting
                } else {
                    self.take_report(event, now)
                }
            },
            IdleWake::ReadFailed => {
                self.in_stroke = false;
                IdleOutcome::ReopenAndSettle
            },
            IdleWake::Cancelled => IdleOutcome::Cancelled,
        }
    }
}

/// What watches the pen.
#[derive(Clone, Copy, Debug, PartialEq, Eq, Structural)]
pub struct IdleWatcher {
    /// Whether there is a digitizer to read. Where there is none, only the end
    /// of the program ends a wait.
    pub event_stream: bool,
    pub device_model: DeviceModel,
    pub config: IdleTriggerConfig,
    pub log_gestures: bool,
}

impl IdleWatcher {
    /// A watcher of the pen, as it was asked for and as it was found.
    pub open spec fn spec_new(
        no_gesture: bool,
        config: IdleTriggerConfig,
        log_gestures: bool,
        device_model: DeviceModel,
        opened: bool,
    ) -> IdleWatcher {
        IdleWatcher { event_stream: !no_gesture && opened, device_model, config, log_gestures }
    }

    /// The watcher after another attempt to open the digitizer.
    pub open spec fn spec_reopened(self, reopened: bool) -> IdleWatcher {
        IdleWatcher { event_stream: self.event_stream || reopened, ..self }
    }

    /// A wait at its start, if there is a digitizer to read.
    pub open spec fn spec_wait(self) -> Option<IdleWait> {
        if self.event_stream {
            Some(IdleWait::fresh(self.device_model, self.config))
        } else {
            None
        }
    }

    /// A watcher of the pen of `device_model`; `opened` is whether its
    /// digitizer could be opened. With `no_gesture` the pen is not watched.
    pub fn new(
        no_gesture: bool,
        config: IdleTriggerConfig,
        log_gestures: bool,
        device_model: DeviceModel,
        opened: bool,
    ) -> (watcher: IdleWatcher)
        ensures
            watcher == (IdleWatcher {
                event_stream: !no_gesture && opened,
                device_model,
                config,
                log_gestures,
            }),
            watcher == IdleWatcher::spec_new(
                no_gesture,
                config,
                log_gestures,
                device_model,
                opened,
            ),
    {
        IdleWatcher { event_stream: !no_gesture && opened, device_model, config, log_gestures }
    }

    /// Takes in whether the digitizer could be opened anew. If not, the old
    /// one stays in use.
    pub fn reopen_stream(&mut self, reopened: bool)
        ensures
            *final(self) == (IdleWatcher {
                event_stream: old(self).event_stream || reopened,
                ..*old(self)
            }),
            *final(self) == old(self).spec_reopened(reopened),
    {
        if reopened {
            self.event_stream = true;
        }
    }

    /// Starts a wait, in which nothing has been written yet. There is none
    /// without a digitizer.
    pub fn wait_for_idle_trigger(&self) -> (wait: Option<IdleWait>)
        ensures
            wait == if self.event_stream {
                Some(IdleWait::fresh(self.device_model, self.config))
            } else {
                None
            },
            wait == self.spec_wait(),
            wait matches Some(w) ==> w.wf(),
    {
        if self.event_stream {
            Some(
                IdleWait {
                    device_model: self.device_model,
                    config: self.config,
                    cur_x: 0,
                    cur_y: 0,
                    known_x: false,
                    known_y: false,
                    in_stroke: false,
                    rubber_active: false,
                    last_activity: None,
                    has_new_content: false,
                    last_stroke_end: None,
                    content_bbox: None,
                    half_known: None,
                    was_drawing: false,
                },
            )
        } else {
            None
        }
    }
}

impl IdleWait {
    /// A wait at its start.
    pub open spec fn fresh(device_model: DeviceModel, config: IdleTriggerConfig) -> IdleWait {
        IdleWait {
            device_model,
            config,
            cur_x: 0,
            cur_y: 0,
            known_x: false,
            known_y: false,
            in_stroke: false,
            rubber_active: false,
            last_activity: None,
            has_new_content: false,
            last_stroke_end: None,
            content_bbox: None,
            half_known: None,
            was_drawing: false,
        }
    }
}

/// Every position of the pen is a coordinate of the virtual screen.
proof fn lemma_pen_point(device_model: DeviceModel, x: i32, y: i32)
    ensures
        point_wf(device_model.pen_point(x, y)),
        (device_model.pen_point(x, y).0@, device_model.pen_point(x, y).1@)
            == device_model.spec_pen_to_virtual(x as int, y as int),
{
    let (max_x, max_y) = device_model.spec_pen_max();
    let (w, h) = (Dyadic::of(VIRTUAL_WIDTH as int), Dyadic::of(VIRTUAL_HEIGHT as int));
    let (mx, my) = (Dyadic::of(max_x as int), Dyadic::of(max_y as int));
    let (dx, dy) = (Dyadic::of(x as int), Dyadic::of(y as int));
    Dyadic::lemma_of(1);
    Dyadic::lemma_of(x as int);
    Dyadic::lemma_of(y as int);
    Dyadic::lemma_of(max_x as int);
    Dyadic::lemma_of(max_y as int);
    Dyadic::lemma_of(VIRTUAL_WIDTH as int);
    Dyadic::lemma_of(VIRTUAL_HEIGHT as int);
    if device_model == DeviceModel::RemarkablePaperPro {
        dx.lemma_over(mx);
        dx.over(mx).lemma_times(w);
        dy.lemma_over(my);
        dy.over(my).lemma_times(h);
    } else {
        dy.lemma_over(mx);
        dy.over(mx).lemma_times(w);
        dx.lemma_over(my);
        let turned = dx.over(my).negated();
        Dyadic::of(1).lemma_plus(turned);
        Dyadic::of(1).plus(turned).lemma_times(h);
    }
}

/// Whether a box holds a point.
pub open spec fn covers(b: Bounds, p: Point) -> bool {
    &&& b.0@.at_most(p.0@) && p.0@.at_most(b.2@)
    &&& b.1@.at_most(p.1@) && p.1@.at_most(b.3@)
}

/// Whether a box is the smallest that holds the points: it holds them all, and
/// each of its edges goes through one of them.
pub open spec fn is_hull(b: Bounds, points: Seq<Point>) -> bool {
    &&& forall|i: int| 0 <= i < points.len() ==> covers(b, #[trigger] points[i])
    &&& exists|i: int| 0 <= i < points.len() && (#[trigger] points[i]).0 == b.0
    &&& exists|i: int| 0 <= i < points.len() && (#[trigger] points[i]).1 == b.1
    &&& exists|i: int| 0 <= i < points.len() && (#[trigger] points[i]).0 == b.2
    &&& exists|i: int| 0 <= i < points.len() && (#[trigger] points[i]).1 == b.3
}

pub open spec fn points_wf(points: Seq<Point>) -> bool {
    forall|i: int| 0 <= i < points.len() ==> point_wf(#[trigger] points[i])
}

/// Growing the smallest box around some points to hold one more gives the
/// smallest box around them all.
pub proof fn law_expanding_keeps_the_hull(bbox: Option<Bounds>, points: Seq<Point>, p: Point)
    requires
        points_wf(points),
        point_wf(p),
        match bbox {
            Some(b) => bounds_wf(b) && is_hull(b, points),
            None => points.len() == 0,
        },
    ensures
        is_hull(expanded(bbox, p), points.push(p)),
        bounds_wf(expanded(bbox, p)),
        points_wf(points.push(p)),
{
    let all = points.push(p);
    let e = expanded(bbox, p);
    assert(all[points.len() as int] == p);
    crate::binary32::law_order(p.0@, p.0@, p.0@);
    crate::binary32::law_order(p.1@, p.1@, p.1@);
    if let Some(b) = bbox {
        crate::binary32::law_order(b.0@, p.0@, p.0@);
        crate::binary32::law_order(b.1@, p.1@, p.1@);
        crate::binary32::law_order(b.2@, p.0@, p.0@);
        crate::binary32::law_order(b.3@, p.1@, p.1@);
        assert forall|i: int| 0 <= i < all.len() implies covers(e, #[trigger] all[i]) by {
            if i < points.len() {
                let q = points[i];
                assert(covers(b, q));
                crate::binary32::law_order(p.0@, b.0@, q.0@);
                crate::binary32::law_order(p.1@, b.1@, q.1@);
                crate::binary32::law_order(q.0@, b.2@, p.0@);
                crate::binary32::law_order(q.1@, b.3@, p.1@);
            }
        }
        let i0 = choose|i: int| 0 <= i < points.len() && (#[trigger] points[i]).0 == b.0;
        let i1 = choose|i: int| 0 <= i < points.len() && (#[trigger] points[i]).1 == b.1;
        let i2 = choose|i: int| 0 <= i < points.len() && (#[trigger] points[i]).0 == b.2;
        let i3 = choose|i: int| 0 <= i < points.len() && (#[trigger] points[i]).1 == b.3;
        assert(all[i0] == points[i0] && all[i1] == points[i1]);
        assert(all[i2] == points[i2] && all[i3] == points[i3]);
    }
}

impl IdleWait {
    /// The wait after a series of wakes.
    pub open spec fn after(self, wakes: Seq<IdleWake>) -> IdleWait
        decreases wakes.len(),
    {
        if wakes.len() == 0 {
            self
        } else {
            self.after(wakes.drop_last()).woken(wakes.last())
        }
    }

    /// Whether a wake is a report of where the pen is writing.
    pub open spec fn writes(self, wake: IdleWake) -> bool {
        &&& wake matches IdleWake::Event { event, drawing, .. }
        &&& !drawing && !self.forgets(wake) && self.writing()
        &&& event.kind == EventKind::Absolute && (event.code == ABS_X || event.code == ABS_Y)
    }

    /// Whether a wake is the end of a stroke, of the pen or of its eraser.
    pub open spec fn ends_any_stroke(self, wake: IdleWake) -> bool {
        &&& wake matches IdleWake::Event { event, drawing, .. }
        &&& !drawing && !self.forgets(wake) && self.ends_stroke(event)
    }

    /// Whether a wake is the end of a stroke of the pen.
    pub open spec fn ends_pen_stroke(self, wake: IdleWake) -> bool {
        self.ends_any_stroke(wake) && !self.rubber_active
    }

    /// Where the pen strokes in a series of wakes were from left to right, as
    /// far as it was known, back to where the wait last forgot.
    pub open spec fn written_across(self, wakes: Seq<IdleWake>) -> Seq<Binary32>
        decreases wakes.len(),
    {
        if wakes.len() == 0 {
            seq![]
        } else {
            let before = self.after(wakes.drop_last());
            let now = before.woken(wakes.last());
            let earlier = self.written_across(wakes.drop_last());
            if before.forgets(wakes.last()) {
                seq![]
            } else if before.writes(wakes.last()) && now.known_across() {
                earlier.push(now.here().0)
            } else {
                earlier
            }
        }
    }

    /// Where the pen strokes in a series of wakes were from the top down.
    pub open spec fn written_down(self, wakes: Seq<IdleWake>) -> Seq<Binary32>
        decreases wakes.len(),
    {
        if wakes.len() == 0 {
            seq![]
        } else {
            let before = self.after(wakes.drop_last());
            let now = before.woken(wakes.last());
            let earlier = self.written_down(wakes.drop_last());
            if before.forgets(wakes.last()) {
                seq![]
            } else if before.writes(wakes.last()) && now.known_down() {
                earlier.push(now.here().1)
            } else {
                earlier
            }
        }
    }

    /// What a wait keeps of its strokes: the span of what was written on either
    /// axis, as a box once something was written on both.
    pub open spec fn keeps(self, across: Seq<Binary32>, down: Seq<Binary32>) -> bool {
        match (self.content_bbox, self.half_known) {
            (Some(b), None) => is_span(b.0, b.2, across) && is_span(b.1, b.3, down),
            (None, Some(HalfKnown::Across(lo, hi))) => is_span(lo, hi, across) && down.len() == 0,
            (None, Some(HalfKnown::Down(lo, hi))) => across.len() == 0 && is_span(lo, hi, down),
            (None, None) => across.len() == 0 && down.len() == 0,
            _ => false,
        }
    }
}

/// Whether `lo` and `hi` are the least and the greatest of some numbers.
pub open spec fn is_span(lo: Binary32, hi: Binary32, numbers: Seq<Binary32>) -> bool {
    &&& numbers.contains(lo) && numbers.contains(hi)
    &&& forall|i: int|
        0 <= i < numbers.len() ==> lo@.at_most((#[trigger] numbers[i])@) && numbers[i]@.at_most(
            hi@,
        )
}

/// The span of some numbers and one more.
proof fn lemma_span_grows(lo: Binary32, hi: Binary32, numbers: Seq<Binary32>, v: Binary32)
    requires
        is_span(lo, hi, numbers),
        forall|i: int| 0 <= i < numbers.len() ==> (#[trigger] numbers[i])@.normal(),
        v@.normal(),
    ensures
        is_span(spec_min(lo, v), spec_max(hi, v), numbers.push(v)),
{
    let all = numbers.push(v);
    let (low, high) = (spec_min(lo, v), spec_max(hi, v));
    let i = choose|i: int| 0 <= i < numbers.len() && numbers[i] == lo;
    let j = choose|j: int| 0 <= j < numbers.len() && numbers[j] == hi;
    assert(all[i] == lo && all[j] == hi && all[numbers.len() as int] == v);
    crate::binary32::law_order(lo@, v@, v@);
    crate::binary32::law_order(hi@, v@, v@);
    crate::binary32::law_order(v@, v@, v@);
    assert forall|k: int| 0 <= k < all.len() implies low@.at_most((#[trigger] all[k])@)
        && all[k]@.at_most(high@) by {
        if k < numbers.len() {
            let n = numbers[k];
            assert(lo@.at_most(n@) && n@.at_most(hi@));
            crate::binary32::law_order(v@, lo@, n@);
            crate::binary32::law_order(n@, hi@, v@);
        }
    }
}

/// The span of one number.
proof fn lemma_span_of_one(v: Binary32)
    requires
        v@.normal(),
    ensures
        is_span(v, v, seq![v]),
{
    crate::binary32::law_order(v@, v@, v@);
    assert(seq![v][0] == v);
}

pub open spec fn all_normal(numbers: Seq<Binary32>) -> bool {
    forall|i: int| 0 <= i < numbers.len() ==> (#[trigger] numbers[i])@.normal()
}

/// What tracing keeps, of a position on both axes.
proof fn lemma_trace_keeps_both(
    wait: IdleWait,
    across: Seq<Binary32>,
    down: Seq<Binary32>,
)
    requires
        wait.keeps(across, down),
        all_normal(across),
        all_normal(down),
        wait.writing(),
        wait.known_across() && wait.known_down(),
        point_wf(place(wait)),
    ensures
        wait.traced().keeps(across.push(place(wait).0), down.push(place(wait).1)),
{
    reveal(place);
    let p = place(wait);
    lemma_span_of_one(p.0);
    lemma_span_of_one(p.1);
    assert(across.len() == 0 ==> across.push(p.0) =~= seq![p.0]);
    assert(down.len() == 0 ==> down.push(p.1) =~= seq![p.1]);
    crate::binary32::law_order(p.0@, p.0@, p.0@);
    crate::binary32::law_order(p.1@, p.1@, p.1@);
    match (wait.content_bbox, wait.half_known) {
        (Some(b), _) => {
            lemma_span_grows(b.0, b.2, across, p.0);
            lemma_span_grows(b.1, b.3, down, p.1);
        },
        (None, Some(HalfKnown::Across(lo, hi))) => {
            lemma_span_grows(lo, hi, across, p.0);
        },
        (None, Some(HalfKnown::Down(lo, hi))) => {
            lemma_span_grows(lo, hi, down, p.1);
        },
        (None, None) => {},
    }
}

/// What tracing keeps, of a position on one axis.
proof fn lemma_trace_keeps_one(
    wait: IdleWait,
    across: Seq<Binary32>,
    down: Seq<Binary32>,
)
    requires
        wait.wf(),
        wait.keeps(across, down),
        all_normal(across),
        all_normal(down),
        wait.writing(),
        wait.known_across() != wait.known_down(),
        point_wf(place(wait)),
    ensures
        wait.known_across() ==> wait.traced().keeps(across.push(place(wait).0), down),
        wait.known_down() ==> wait.traced().keeps(across, down.push(place(wait).1)),
{
    reveal(place);
    let p = place(wait);
    lemma_span_of_one(p.0);
    lemma_span_of_one(p.1);
    assert(across.len() == 0 ==> across.push(p.0) =~= seq![p.0]);
    assert(down.len() == 0 ==> down.push(p.1) =~= seq![p.1]);
    match wait.half_known {
        Some(HalfKnown::Across(lo, hi)) => {
            lemma_span_grows(lo, hi, across, p.0);
        },
        Some(HalfKnown::Down(lo, hi)) => {
            lemma_span_grows(lo, hi, down, p.1);
        },
        None => {},
    }
}

/// Tracing leaves a wait well formed.
proof fn lemma_trace_wf(wait: IdleWait)
    requires
        wait.wf(),
        wait.known_x || wait.known_y,
        point_wf(place(wait)),
    ensures
        wait.traced().wf(),
{
    reveal(place);
}

/// The wait with a report of where the pen is taken in, but not yet traced.
spec fn moved(wait: IdleWait, event: InputEvent) -> IdleWait {
    if event.code == ABS_X {
        IdleWait { cur_x: event.value, known_x: true, ..wait }
    } else {
        IdleWait { cur_y: event.value, known_y: true, ..wait }
    }
}

/// Whatever wakes a wait, it stays well formed.
#[verifier::spinoff_prover]
pub(crate) proof fn lemma_wake_wf(wait: IdleWait, wake: IdleWake)
    requires
        wait.wf(),
    ensures
        wait.woken(wake).wf(),
{
    match wake {
        IdleWake::Event { event, drawing: false, now } => {
            let noted = wait.noted(false);
            assert(noted.wf());
            if event.kind == EventKind::Absolute && (event.code == ABS_X || event.code == ABS_Y) {
                let next = moved(noted, event);
                lemma_place(next);
                lemma_trace_wf(next);
            } else {
                lemma_place(noted);
                reveal(place);
            }
        },
        _ => {},
    }
}

/// Every place of the pen is a point of the virtual screen.
pub(crate) proof fn lemma_place(wait: IdleWait)
    ensures
        point_wf(place(wait)),
{
    reveal(place);
    lemma_pen_point(wait.device_model, wait.cur_x, wait.cur_y);
}

/// Whatever wakes a wait, it stays well formed: writing to answer always has an
/// end and a time.
pub proof fn law_wait_stays_well_formed(wait: IdleWait, wakes: Seq<IdleWake>)
    requires
        wait.wf(),
    ensures
        wait.after(wakes).wf(),
    decreases wakes.len(),
{
    if wakes.len() > 0 {
        law_wait_stays_well_formed(wait, wakes.drop_last());
        lemma_wake_wf(wait.after(wakes.drop_last()), wakes.last());
    }
}

/// What one wake does to what a wait keeps of its strokes.
#[verifier::spinoff_prover]
proof fn lemma_wake_keeps(
    wait: IdleWait,
    wake: IdleWake,
    across: Seq<Binary32>,
    down: Seq<Binary32>,
)
    requires
        wait.wf(),
        wait.keeps(across, down),
        all_normal(across),
        all_normal(down),
    ensures
        ({
            let now = wait.woken(wake);
            &&& point_wf(place(now))
            &&& wait.forgets(wake) ==> now.keeps(seq![], seq![])
            &&& !wait.forgets(wake) && !wait.writes(wake) ==> now.keeps(across, down)
            &&& wait.writes(wake) ==> now.keeps(
                if now.known_across() {
                    across.push(place(now).0)
                } else {
                    across
                },
                if now.known_down() {
                    down.push(place(now).1)
                } else {
                    down
                },
            )
        }),
{
    let now = wait.woken(wake);
    lemma_place(now);
    if wait.writes(wake) {
        if let IdleWake::Event { event, .. } = wake {
            let next = moved(wait.noted(false), event);
            assert(now == next.traced());
            assert(place(next) == place(now)) by {
                reveal(place);
            }
            lemma_place(next);
            if next.known_across() && next.known_down() {
                lemma_trace_keeps_both(next, across, down);
            } else {
                lemma_trace_keeps_one(next, across, down);
            }
        }
    }
}

/// What a wait keeps of its strokes is the span of what was written on each
/// axis: a box once both are known, and neither more nor less than holds every
/// stroke.
pub proof fn law_box_is_the_span_of_the_writing(wait: IdleWait, wakes: Seq<IdleWake>)
    requires
        wait.wf(),
        wait.content_bbox is None,
        wait.half_known is None,
    ensures
        wait.after(wakes).keeps(wait.written_across(wakes), wait.written_down(wakes)),
        forall|i: int|
            0 <= i < wait.written_across(wakes).len() ==> (#[trigger] wait.written_across(
                wakes,
            )[i])@.normal(),
        forall|i: int|
            0 <= i < wait.written_down(wakes).len() ==> (#[trigger] wait.written_down(
                wakes,
            )[i])@.normal(),
    decreases wakes.len(),
{
    if wakes.len() > 0 {
        let earlier = wakes.drop_last();
        law_box_is_the_span_of_the_writing(wait, earlier);
        law_wait_stays_well_formed(wait, earlier);
        lemma_span_step(wait, wakes);
    }
}

/// What the trigger reports holds everything that was written.
pub proof fn law_trigger_holds_the_writing(wait: IdleWait, wakes: Seq<IdleWake>)
    requires
        wait.wf(),
        wait.content_bbox is None,
        wait.half_known is None,
    ensures
        ({
            let b = wait.after(wakes).trigger().bbox;
            &&& forall|i: int|
                0 <= i < wait.written_across(wakes).len() ==> b.0@.at_most(
                    (#[trigger] wait.written_across(wakes)[i])@,
                ) && wait.written_across(wakes)[i]@.at_most(b.2@)
            &&& forall|i: int|
                0 <= i < wait.written_down(wakes).len() ==> b.1@.at_most(
                    (#[trigger] wait.written_down(wakes)[i])@,
                ) && wait.written_down(wakes)[i]@.at_most(b.3@)
        }),
{
    law_box_is_the_span_of_the_writing(wait, wakes);
}

#[verifier::spinoff_prover]
proof fn lemma_span_step(wait: IdleWait, wakes: Seq<IdleWake>)
    requires
        wakes.len() > 0,
        wait.after(wakes.drop_last()).wf(),
        wait.after(wakes.drop_last()).keeps(
            wait.written_across(wakes.drop_last()),
            wait.written_down(wakes.drop_last()),
        ),
        all_normal(wait.written_across(wakes.drop_last())),
        all_normal(wait.written_down(wakes.drop_last())),
    ensures
        wait.after(wakes).keeps(wait.written_across(wakes), wait.written_down(wakes)),
        all_normal(wait.written_across(wakes)),
        all_normal(wait.written_down(wakes)),
{
    let earlier = wakes.drop_last();
    let before = wait.after(earlier);
    let across = wait.written_across(earlier);
    let down = wait.written_down(earlier);
    lemma_wake_keeps(before, wakes.last(), across, down);
    let now = before.woken(wakes.last());
    assert(now.here() == place(now)) by {
        reveal(place);
    }
}

/// When a wake happened; zero for one without a time.
pub open spec fn time_of(wake: IdleWake) -> u128 {
    match wake {
        IdleWake::Tick { now, .. } => now,
        IdleWake::Event { now, .. } => now,
        _ => 0,
    }
}

impl IdleWait {
    /// The wait just before the wake at `i`.
    pub open spec fn before(self, wakes: Seq<IdleWake>, i: int) -> IdleWait {
        self.after(wakes.take(i))
    }

    /// Whether the wake at `i` is the end of the last stroke of the pen, with
    /// nothing forgotten since.
    pub open spec fn is_last_pen_stroke(self, wakes: Seq<IdleWake>, i: int) -> bool {
        &&& 0 <= i < wakes.len()
        &&& self.before(wakes, i).ends_pen_stroke(wakes[i])
        &&& forall|j: int|
            i < j < wakes.len() ==> !(#[trigger] self.before(wakes, j)).ends_pen_stroke(wakes[j])
                && !self.before(wakes, j).forgets(wakes[j])
    }

    /// Whether the wake at `i` is the end of the last stroke, of the pen or of
    /// its eraser, with nothing forgotten since.
    pub open spec fn is_last_stroke(self, wakes: Seq<IdleWake>, i: int) -> bool {
        &&& 0 <= i < wakes.len()
        &&& self.before(wakes, i).ends_any_stroke(wakes[i])
        &&& forall|j: int|
            i < j < wakes.len() ==> !(#[trigger] self.before(wakes, j)).ends_any_stroke(wakes[j])
                && !self.before(wakes, j).forgets(wakes[j])
    }
}

/// Where a wait stands before the wake at `i`, as a name only.
#[verifier::opaque]
spec fn moment(wait: IdleWait, wakes: Seq<IdleWake>, i: int) -> IdleWait {
    wait.before(wakes, i)
}

/// Where the pen is, as a name only.
#[verifier::opaque]
pub open spec fn place(wait: IdleWait) -> Point {
    wait.here()
}

/// What one wake does to what a wait remembers of its strokes.
proof fn lemma_remembers(wait: IdleWait, wake: IdleWake)
    ensures
        wait.woken(wake).last_stroke_end == if wait.forgets(wake) {
            None
        } else if wait.ends_pen_stroke(wake) {
            Some(place(wait))
        } else {
            wait.last_stroke_end
        },
        wait.woken(wake).last_activity == if wait.forgets(wake) {
            None
        } else if wait.ends_any_stroke(wake) {
            Some(time_of(wake))
        } else {
            wait.last_activity
        },
{
    reveal(place);
}

/// What the wake at `i` of a series does to what a wait remembers.
#[verifier::spinoff_prover]
proof fn lemma_moment(wait: IdleWait, wakes: Seq<IdleWake>, i: int)
    requires
        0 <= i < wakes.len(),
    ensures
        ({
            let before = moment(wait, wakes, i);
            let after = moment(wait, wakes, i + 1);
            &&& after.last_stroke_end == if before.forgets(wakes[i]) {
                None
            } else if before.ends_pen_stroke(wakes[i]) {
                Some(place(before))
            } else {
                before.last_stroke_end
            }
            &&& after.last_activity == if before.forgets(wakes[i]) {
                None
            } else if before.ends_any_stroke(wakes[i]) {
                Some(time_of(wakes[i]))
            } else {
                before.last_activity
            }
        }),
{
    reveal(moment);
    assert(wakes.take(i + 1).drop_last() =~= wakes.take(i));
    lemma_remembers(wait.before(wakes, i), wakes[i]);
}

/// A series begins where the wait does, and ends after its last wake.
proof fn lemma_first_and_last_moment(wait: IdleWait, wakes: Seq<IdleWake>)
    ensures
        moment(wait, wakes, 0) == wait,
        moment(wait, wakes, wakes.len() as int) == wait.after(wakes),
{
    reveal(moment);
    assert(wakes.take(0) =~= seq![]);
    assert(wakes.take(wakes.len() as int) =~= wakes);
}

/// How a memory goes from moment `i` to the next.
spec fn remembers<T>(
    stored: Seq<bool>,
    emptied: Seq<bool>,
    value: Seq<T>,
    memory: Seq<Option<T>>,
    i: int,
) -> bool {
    memory[i + 1] == if emptied[i] {
        None
    } else if stored[i] {
        Some(value[i])
    } else {
        memory[i]
    }
}

/// Whether `v` was stored at moment `i`, and nothing was stored or emptied
/// from then to moment `n`.
spec fn is_latest<T>(
    stored: Seq<bool>,
    emptied: Seq<bool>,
    value: Seq<T>,
    n: int,
    v: T,
    i: int,
) -> bool {
    &&& 0 <= i < n
    &&& stored[i] && value[i] == v
    &&& forall|j: int| i < j < n ==> !#[trigger] stored[j] && !emptied[j]
}

/// A memory that takes in a value at each `stored` moment and is emptied at
/// each `emptied` one holds the value that was stored last, if nothing emptied
/// it since.
proof fn lemma_latest<T>(
    stored: Seq<bool>,
    emptied: Seq<bool>,
    value: Seq<T>,
    memory: Seq<Option<T>>,
    n: int,
)
    requires
        0 <= n,
        memory[0] is None,
        forall|i: int|
            0 <= i < n ==> #[trigger] remembers(stored, emptied, value, memory, i),
    ensures
        memory[n] matches Some(v) ==> exists|i: int|
            #[trigger] is_latest(stored, emptied, value, n, v, i),
    decreases n,
{
    if n > 0 {
        lemma_latest(stored, emptied, value, memory, n - 1);
        assert(remembers(stored, emptied, value, memory, n - 1));
        if let Some(v) = memory[n] {
            if stored[n - 1] {
                assert(is_latest(stored, emptied, value, n, v, n - 1));
            } else {
                let i = choose|i: int|
                    #[trigger] is_latest(stored, emptied, value, n - 1, v, i);
                assert(is_latest(stored, emptied, value, n, v, i));
            }
        }
    }
}

/// Where a wait thinks the writing ended is where the last stroke of the pen
/// did.
#[verifier::spinoff_prover]
proof fn lemma_pen_memory(wait: IdleWait, wakes: Seq<IdleWake>)
    requires
        wait.last_stroke_end is None,
    ensures
        wait.after(wakes).last_stroke_end matches Some(p) ==> exists|i: int|
            #[trigger] wait.is_last_pen_stroke(wakes, i) && wait.before(wakes, i).here() == p,
{
    let n = wakes.len();
    let stored = Seq::new(n, |i: int| moment(wait, wakes, i).ends_pen_stroke(wakes[i]));
    let emptied = Seq::new(n, |i: int| moment(wait, wakes, i).forgets(wakes[i]));
    let value = Seq::new(n, |i: int| place(moment(wait, wakes, i)));
    let memory = Seq::new(n + 1, |i: int| moment(wait, wakes, i).last_stroke_end);
    lemma_first_and_last_moment(wait, wakes);
    assert forall|i: int| 0 <= i < n implies #[trigger] remembers(
        stored,
        emptied,
        value,
        memory,
        i,
    ) by {
        lemma_moment(wait, wakes, i);
    }
    lemma_latest(stored, emptied, value, memory, n as int);
    if let Some(p) = memory[n as int] {
        let i = choose|i: int| #[trigger] is_latest(stored, emptied, value, n as int, p, i);
        assert(stored[i]);
        assert forall|j: int| i < j < n implies !(#[trigger] moment(
            wait,
            wakes,
            j,
        )).ends_pen_stroke(wakes[j]) && !moment(wait, wakes, j).forgets(wakes[j]) by {
            assert(!stored[j] && !emptied[j]);
        }
        lemma_last_pen_stroke(wait, wakes, i);
    }
}

#[verifier::spinoff_prover]
proof fn lemma_last_pen_stroke(wait: IdleWait, wakes: Seq<IdleWake>, i: int)
    requires
        0 <= i < wakes.len(),
        moment(wait, wakes, i).ends_pen_stroke(wakes[i]),
        forall|j: int|
            i < j < wakes.len() ==> !(#[trigger] moment(wait, wakes, j)).ends_pen_stroke(wakes[j])
                && !moment(wait, wakes, j).forgets(wakes[j]),
    ensures
        wait.is_last_pen_stroke(wakes, i),
        wait.before(wakes, i).here() == place(moment(wait, wakes, i)),
{
    reveal(moment);
    reveal(place);
    assert forall|j: int| i < j < wakes.len() implies !(#[trigger] wait.before(
        wakes,
        j,
    )).ends_pen_stroke(wakes[j]) && !wait.before(wakes, j).forgets(wakes[j]) by {
        assert(moment(wait, wakes, j) == wait.before(wakes, j));
    }
}

/// When a wait thinks the pen was last active is when the last stroke ended.
#[verifier::spinoff_prover]
proof fn lemma_stroke_memory(wait: IdleWait, wakes: Seq<IdleWake>)
    requires
        wait.last_activity is None,
    ensures
        wait.after(wakes).last_activity matches Some(t) ==> exists|i: int|
            #[trigger] wait.is_last_stroke(wakes, i) && time_of(wakes[i]) == t,
{
    let n = wakes.len();
    let stored = Seq::new(n, |i: int| moment(wait, wakes, i).ends_any_stroke(wakes[i]));
    let emptied = Seq::new(n, |i: int| moment(wait, wakes, i).forgets(wakes[i]));
    let value = Seq::new(n, |i: int| time_of(wakes[i]));
    let memory = Seq::new(n + 1, |i: int| moment(wait, wakes, i).last_activity);
    lemma_first_and_last_moment(wait, wakes);
    assert forall|i: int| 0 <= i < n implies #[trigger] remembers(
        stored,
        emptied,
        value,
        memory,
        i,
    ) by {
        lemma_moment(wait, wakes, i);
    }
    lemma_latest(stored, emptied, value, memory, n as int);
    if let Some(t) = memory[n as int] {
        let i = choose|i: int| #[trigger] is_latest(stored, emptied, value, n as int, t, i);
        assert(stored[i]);
        assert forall|j: int| i < j < n implies !(#[trigger] moment(
            wait,
            wakes,
            j,
        )).ends_any_stroke(wakes[j]) && !moment(wait, wakes, j).forgets(wakes[j]) by {
            assert(!stored[j] && !emptied[j]);
        }
        lemma_last_stroke(wait, wakes, i);
    }
}

#[verifier::spinoff_prover]
proof fn lemma_last_stroke(wait: IdleWait, wakes: Seq<IdleWake>, i: int)
    requires
        0 <= i < wakes.len(),
        moment(wait, wakes, i).ends_any_stroke(wakes[i]),
        forall|j: int|
            i < j < wakes.len() ==> !(#[trigger] moment(wait, wakes, j)).ends_any_stroke(wakes[j])
                && !moment(wait, wakes, j).forgets(wakes[j]),
    ensures
        wait.is_last_stroke(wakes, i),
{
    reveal(moment);
    assert forall|j: int| i < j < wakes.len() implies !(#[trigger] wait.before(
        wakes,
        j,
    )).ends_any_stroke(wakes[j]) && !wait.before(wakes, j).forgets(wakes[j]) by {
        assert(moment(wait, wakes, j) == wait.before(wakes, j));
    }
}

/// The trigger fires only on a tick, while the diary is not drawing and no
/// stroke is under way, when something was written with the pen, and when the
/// last stroke of pen or eraser ended at least the idle delay ago. It reports
/// where the last stroke of the pen ended, wherever the pen hovered since.
pub proof fn law_trigger_follows_a_rested_pen_stroke(
    device_model: DeviceModel,
    config: IdleTriggerConfig,
    wakes: Seq<IdleWake>,
    wake: IdleWake,
)
    requires
        IdleWait::fresh(device_model, config).after(wakes).outcome(wake) is Triggered,
    ensures
        ({
            let start = IdleWait::fresh(device_model, config);
            let trigger = start.after(wakes).outcome(wake)->Triggered_0;
            &&& wake is Tick && !wake->Tick_drawing
            &&& !start.after(wakes).in_stroke
            &&& exists|i: int|
                #[trigger] start.is_last_pen_stroke(wakes, i) && start.before(wakes, i).here()
                    == trigger.anchor
            &&& exists|i: int|
                #[trigger] start.is_last_stroke(wakes, i) && elapsed(
                    time_of(wakes[i]),
                    time_of(wake),
                ) >= config.idle_delay_ms * 1_000_000
        }),
{
    let start = IdleWait::fresh(device_model, config);
    lemma_pen_memory(start, wakes);
    lemma_stroke_memory(start, wakes);
    law_wait_stays_well_formed(start, wakes);
    lemma_settings_stay(start, wakes);
}

/// A wait keeps to its device and its configuration.
proof fn lemma_settings_stay(wait: IdleWait, wakes: Seq<IdleWake>)
    ensures
        wait.after(wakes).device_model == wait.device_model,
        wait.after(wakes).config == wait.config,
    decreases wakes.len(),
{
    if wakes.len() > 0 {
        lemma_settings_stay(wait, wakes.drop_last());
    }
}

/// The trigger fires on the first tick at which all of that holds: with
/// writing to answer, and every stroke over for the idle delay, a tick outside
/// a drawing pass is answered by it.
pub proof fn law_rested_writing_triggers(wait: IdleWait, now: u128)
    requires
        wait.has_new_content,
        wait.rested(now),
        !wait.was_drawing,
    ensures
        wait.outcome(IdleWake::Tick { drawing: false, now }) == IdleOutcome::Triggered(
            wait.trigger(),
        ),
{
}

/// The end of any stroke restarts the clock: until the idle delay has passed
/// since, no tick fires the trigger.
pub proof fn law_a_stroke_restarts_the_clock(
    wait: IdleWait,
    event: InputEvent,
    ended: u128,
    drawing: bool,
    now: u128,
)
    requires
        wait.ends_stroke(event),
        elapsed(ended, now) < wait.config.idle_delay_ms * 1_000_000,
    ensures
        wait.woken(IdleWake::Event { event, drawing: false, now: ended }).outcome(
            IdleWake::Tick { drawing, now },
        ) == IdleOutcome::Waiting,
{
}

/// What the pen does while the diary draws is not taken for writing.
pub proof fn law_own_strokes_do_not_count(wait: IdleWait, event: InputEvent, now: u128)
    ensures
        ({
            let wake = IdleWake::Event { event, drawing: true, now };
            let after = wait.woken(wake);
            &&& wait.outcome(wake) == IdleOutcome::Waiting
            &&& after.has_new_content == wait.has_new_content
            &&& after.last_activity == wait.last_activity
            &&& after.last_stroke_end == wait.last_stroke_end
            &&& after.content_bbox == wait.content_bbox
            &&& after.half_known == wait.half_known
            &&& !after.in_stroke
        }),
{
}

/// The first wake after a drawing pass, be it a tick or a report of the pen,
/// leaves nothing to answer and has the digitizer opened anew. If the pen goes
/// down with it, a new stroke begins.
pub proof fn law_a_finished_drawing_is_forgotten(wait: IdleWait, wake: IdleWake)
    requires
        wait.forgets(wake),
    ensures
        ({
            let after = wait.woken(wake);
            &&& wait.outcome(wake) == IdleOutcome::Reopen
            &&& !after.has_new_content && after.last_activity is None
            &&& after.last_stroke_end is None && after.content_bbox is None
            &&& after.half_known is None && !after.was_drawing
            &&& after.in_stroke <==> (wake matches IdleWake::Event { event, .. } && event.kind
                == EventKind::Key && event.code == BTN_TOUCH && event.value == 1)
        }),
{
}

/// Only the end of a stroke of the pen gives a wait something to answer.
proof fn lemma_nothing_new(wait: IdleWait, wake: IdleWake)
    requires
        !wait.has_new_content,
        !wait.ends_pen_stroke(wake),
    ensures
        !wait.woken(wake).has_new_content,
{
}

/// The same of the wake at `k` of a series.
#[verifier::spinoff_prover]
proof fn lemma_nothing_new_at(wait: IdleWait, wakes: Seq<IdleWake>, k: int)
    requires
        0 <= k < wakes.len(),
        !moment(wait, wakes, k).has_new_content,
        !wait.before(wakes, k).ends_pen_stroke(wakes[k]),
    ensures
        !moment(wait, wakes, k + 1).has_new_content,
{
    reveal(moment);
    assert(wakes.take(k + 1).drop_last() =~= wakes.take(k));
    lemma_nothing_new(wait.before(wakes, k), wakes[k]);
}

#[verifier::spinoff_prover]
proof fn lemma_nothing_to_answer(wait: IdleWait, wakes: Seq<IdleWake>, k: int)
    requires
        !wait.has_new_content,
        0 <= k <= wakes.len(),
        forall|i: int|
            0 <= i < wakes.len() ==> !(#[trigger] wait.before(wakes, i)).ends_pen_stroke(wakes[i]),
    ensures
        !moment(wait, wakes, k).has_new_content,
    decreases k,
{
    if k == 0 {
        lemma_first_and_last_moment(wait, wakes);
    } else {
        lemma_nothing_to_answer(wait, wakes, k - 1);
        lemma_nothing_new_at(wait, wakes, k - 1);
    }
}

/// Nothing written before a drawing pass is answered after it: until a stroke
/// of the pen ends, no wake fires the trigger.
pub proof fn law_earlier_writing_is_not_answered(
    wait: IdleWait,
    first: IdleWake,
    wakes: Seq<IdleWake>,
    last: IdleWake,
)
    requires
        wait.forgets(first),
        forall|i: int|
            0 <= i < wakes.len() ==> !(#[trigger] wait.woken(first).before(
                wakes,
                i,
            )).ends_pen_stroke(wakes[i]),
    ensures
        !(wait.woken(first).after(wakes).outcome(last) is Triggered),
{
    let start = wait.woken(first);
    law_a_finished_drawing_is_forgotten(wait, first);
    lemma_nothing_to_answer(start, wakes, wakes.len() as int);
    lemma_first_and_last_moment(start, wakes);
}

/// Erasing leaves nothing to answer that was not there before.
pub proof fn law_erasing_is_not_writing(wait: IdleWait, wake: IdleWake)
    requires
        wait.rubber_active,
        !wait.forgets(wake),
    ensures
        wait.woken(wake).has_new_content == wait.has_new_content,
        wait.woken(wake).last_stroke_end == wait.last_stroke_end,
        wait.woken(wake).content_bbox == wait.content_bbox,
        wait.woken(wake).half_known == wait.half_known,
{
}

/// A pen that hovers moves neither the end of the writing nor its box.
pub proof fn law_hovering_changes_nothing_written(wait: IdleWait, wake: IdleWake)
    requires
        !wait.in_stroke,
        !wait.forgets(wake),
    ensures
        wait.woken(wake).has_new_content == wait.has_new_content,
        wait.woken(wake).last_activity == wait.last_activity,
        wait.woken(wake).last_stroke_end == wait.last_stroke_end,
        wait.woken(wake).content_bbox == wait.content_bbox,
        wait.woken(wake).half_known == wait.half_known,
{
}

/// While a stroke is under way, of the pen or of its eraser, nothing fires the
/// trigger.
pub proof fn law_no_trigger_during_a_stroke(wait: IdleWait, wake: IdleWake)
    requires
        wait.in_stroke,
    ensures
        !(wait.outcome(wake) is Triggered),
{
}

/// The wait after a wake, as a name only.
#[verifier::opaque]
pub open spec fn step(wait: IdleWait, wake: IdleWake) -> IdleWait {
    wait.woken(wake)
}

/// The wait after a series of wakes, as a name only.
#[verifier::opaque]
pub open spec fn run(wait: IdleWait, wakes: Seq<IdleWake>) -> IdleWait {
    wait.after(wakes)
}

pub(crate) proof fn lemma_run(wait: IdleWait, wakes: Seq<IdleWake>)
    ensures
        wakes.len() == 0 ==> run(wait, wakes) == wait,
        wakes.len() > 0 ==> run(wait, wakes) == step(run(wait, wakes.drop_last()), wakes.last()),
{
    reveal(run);
    reveal(step);
}

/// Two series of wakes, one after the other.
proof fn lemma_run_both(wait: IdleWait, a: Seq<IdleWake>, b: Seq<IdleWake>)
    ensures
        run(wait, a + b) == run(run(wait, a), b),
    decreases b.len(),
{
    lemma_run(run(wait, a), b);
    if b.len() == 0 {
        assert(a + b =~= a);
    } else {
        lemma_run_both(wait, a, b.drop_last());
        lemma_run(wait, a + b);
        assert((a + b).drop_last() =~= a + b.drop_last());
    }
}

/// Two wakes.
proof fn lemma_run_two(wait: IdleWait, wakes: Seq<IdleWake>)
    requires
        wakes.len() == 2,
    ensures
        run(wait, wakes) == step(step(wait, wakes[0]), wakes[1]),
{
    lemma_run(wait, wakes);
    lemma_run(wait, wakes.drop_last());
    lemma_run(wait, wakes.drop_last().drop_last());
}

/// A wake that neither begins nor ends a stroke and does not turn the pen over,
/// while the diary does not draw.
pub open spec fn is_quiet(wake: IdleWake) -> bool {
    match wake {
        IdleWake::Tick { drawing, .. } => !drawing,
        IdleWake::Event { event, drawing, .. } => !drawing && !(event.kind == EventKind::Key && (
        event.code == BTN_TOUCH || event.code == BTN_TOOL_RUBBER)),
        _ => false,
    }
}

pub open spec fn all_quiet(wakes: Seq<IdleWake>) -> bool {
    forall|i: int| 0 <= i < wakes.len() ==> is_quiet(#[trigger] wakes[i])
}

/// Whether a wake is this report of a key.
pub open spec fn is_key(wake: IdleWake, code: u16, value: i32) -> bool {
    &&& wake matches IdleWake::Event { event, drawing, .. }
    &&& !drawing && event.kind == EventKind::Key && event.code == code && event.value == value
}

/// Whether a series of wakes is a stroke of the eraser that ends at `ended`: the
/// pen is turned over and goes down, moves, goes up and is turned back.
pub open spec fn is_eraser_stroke(wakes: Seq<IdleWake>, ended: u128) -> bool {
    let n = wakes.len();
    &&& n >= 4
    &&& is_key(wakes[0], BTN_TOOL_RUBBER, 1)
    &&& is_key(wakes[1], BTN_TOUCH, 1)
    &&& all_quiet(wakes.subrange(2, n - 2))
    &&& is_key(wakes[n - 2], BTN_TOUCH, 0) && time_of(wakes[n - 2]) == ended
    &&& is_key(wakes[n - 1], BTN_TOOL_RUBBER, 0)
}

/// Whether two waits agree on what there is to answer.
spec fn same_writing(a: IdleWait, b: IdleWait) -> bool {
    &&& a.has_new_content == b.has_new_content
    &&& a.last_stroke_end == b.last_stroke_end
    &&& a.content_bbox == b.content_bbox
    &&& a.half_known == b.half_known
    &&& a.config == b.config
    &&& a.was_drawing == b.was_drawing
}

/// One quiet wake changes nothing but where the pen is, unless it writes.
proof fn lemma_quiet_wake(wait: IdleWait, wake: IdleWake)
    requires
        is_quiet(wake),
        !wait.was_drawing,
        !wait.writing(),
    ensures
        same_writing(step(wait, wake), wait),
        step(wait, wake).last_activity == wait.last_activity,
        step(wait, wake).in_stroke == wait.in_stroke,
        step(wait, wake).rubber_active == wait.rubber_active,
{
    reveal(step);
}

/// So do any number of them.
proof fn lemma_quiet_wakes(wait: IdleWait, wakes: Seq<IdleWake>)
    requires
        all_quiet(wakes),
        !wait.was_drawing,
        !wait.writing(),
    ensures
        same_writing(run(wait, wakes), wait),
        run(wait, wakes).last_activity == wait.last_activity,
        run(wait, wakes).in_stroke == wait.in_stroke,
        run(wait, wakes).rubber_active == wait.rubber_active,
    decreases wakes.len(),
{
    lemma_run(wait, wakes);
    if wakes.len() > 0 {
        let earlier = wakes.drop_last();
        assert(all_quiet(earlier)) by {
            assert forall|i: int| 0 <= i < earlier.len() implies is_quiet(#[trigger] earlier[i]) by {
                assert(is_quiet(wakes[i]));
            }
        }
        lemma_quiet_wakes(wait, earlier);
        assert(is_quiet(wakes[wakes.len() - 1]));
        lemma_quiet_wake(run(wait, earlier), wakes.last());
    }
}

/// The pen is turned over or back, or its eraser goes down.
proof fn lemma_eraser_key(wait: IdleWait, wake: IdleWake, code: u16, value: i32)
    requires
        is_key(wake, code, value),
        !wait.was_drawing,
        code == BTN_TOOL_RUBBER || (code == BTN_TOUCH && value == 1),
    ensures
        same_writing(step(wait, wake), wait),
        step(wait, wake).last_activity == wait.last_activity,
        step(wait, wake).in_stroke == (wait.in_stroke || code == BTN_TOUCH),
        step(wait, wake).rubber_active == if code == BTN_TOOL_RUBBER {
            value == 1
        } else {
            wait.rubber_active
        },
{
    reveal(step);
}

/// The eraser goes up.
proof fn lemma_eraser_up(wait: IdleWait, wake: IdleWake)
    requires
        is_key(wake, BTN_TOUCH, 0),
        !wait.was_drawing,
        wait.in_stroke,
        wait.rubber_active,
    ensures
        same_writing(step(wait, wake), wait),
        step(wait, wake).last_activity == Some(time_of(wake)),
        !step(wait, wake).in_stroke,
        step(wait, wake).rubber_active,
{
    reveal(step);
}

/// What a whole stroke of the eraser does: it restarts the clock.
proof fn lemma_eraser_stroke(wait: IdleWait, wakes: Seq<IdleWake>, ended: u128)
    requires
        is_eraser_stroke(wakes, ended),
        !wait.was_drawing,
        !wait.in_stroke,
    ensures
        same_writing(run(wait, wakes), wait),
        run(wait, wakes).last_activity == Some(ended),
        !run(wait, wakes).in_stroke,
        !run(wait, wakes).rubber_active,
{
    let n = wakes.len() as int;
    let head = wakes.take(2);
    let moves = wakes.subrange(2, n - 2);
    let tail = wakes.skip(n - 2);
    assert(wakes =~= (head + moves) + tail);
    lemma_run_both(wait, head + moves, tail);
    lemma_run_both(wait, head, moves);
    lemma_run_two(wait, head);
    let turned = step(wait, wakes[0]);
    let down = step(turned, wakes[1]);
    lemma_eraser_key(wait, wakes[0], BTN_TOOL_RUBBER, 1);
    lemma_eraser_key(turned, wakes[1], BTN_TOUCH, 1);
    lemma_quiet_wakes(down, moves);
    let moved = run(down, moves);
    lemma_run_two(moved, tail);
    lemma_eraser_up(moved, wakes[n - 2]);
    let up = step(moved, wakes[n - 2]);
    lemma_eraser_key(up, wakes[n - 1], BTN_TOOL_RUBBER, 0);
}

/// What the trigger reports depends on the writing alone.
proof fn lemma_same_trigger(a: IdleWait, b: IdleWait)
    requires
        same_writing(a, b),
        a.last_stroke_end is Some,
    ensures
        a.trigger() == b.trigger(),
{
}

/// A wait has something to answer just if a stroke of the pen ended since it
/// last forgot.
pub proof fn law_pen_strokes_are_what_counts(
    device_model: DeviceModel,
    config: IdleTriggerConfig,
    wakes: Seq<IdleWake>,
)
    ensures
        ({
            let start = IdleWait::fresh(device_model, config);
            start.after(wakes).has_new_content <==> exists|i: int|
                start.is_last_pen_stroke(wakes, i)
        }),
{
    let start = IdleWait::fresh(device_model, config);
    law_wait_stays_well_formed(start, wakes);
    lemma_pen_memory(start, wakes);
    if exists|i: int| start.is_last_pen_stroke(wakes, i) {
        let i = choose|i: int| start.is_last_pen_stroke(wakes, i);
        lemma_content_stays(start, wakes, i, wakes.len() as int);
        lemma_first_and_last_moment(start, wakes);
    }
}

/// What one wake does to whether there is something to answer.
proof fn lemma_content(wait: IdleWait, wake: IdleWake)
    requires
        !wait.forgets(wake),
        wait.has_new_content || wait.ends_pen_stroke(wake),
    ensures
        wait.woken(wake).has_new_content,
{
}

/// The same of the wake at `k` of a series.
#[verifier::spinoff_prover]
proof fn lemma_content_at(wait: IdleWait, wakes: Seq<IdleWake>, k: int)
    requires
        0 <= k < wakes.len(),
        !wait.before(wakes, k).forgets(wakes[k]),
        moment(wait, wakes, k).has_new_content || wait.before(wakes, k).ends_pen_stroke(wakes[k]),
    ensures
        moment(wait, wakes, k + 1).has_new_content,
{
    reveal(moment);
    assert(wakes.take(k + 1).drop_last() =~= wakes.take(k));
    lemma_content(wait.before(wakes, k), wakes[k]);
}

#[verifier::spinoff_prover]
proof fn lemma_content_stays(wait: IdleWait, wakes: Seq<IdleWake>, i: int, k: int)
    requires
        wait.is_last_pen_stroke(wakes, i),
        i < k <= wakes.len(),
    ensures
        moment(wait, wakes, k).has_new_content,
    decreases k,
{
    if k - 1 > i {
        lemma_content_stays(wait, wakes, i, k - 1);
    }
    assert(!wait.before(wakes, k - 1).forgets(wakes[k - 1]));
    lemma_content_at(wait, wakes, k - 1);
}

/// A stroke of the eraser after the last stroke only delays the answer: if
/// something was written, the same anchor and the same box are reported, but
/// not before the idle delay has passed since the eraser went up; if nothing
/// was, nothing ever is.
pub proof fn law_an_eraser_stroke_only_delays(
    device_model: DeviceModel,
    config: IdleTriggerConfig,
    before: Seq<IdleWake>,
    eraser: Seq<IdleWake>,
    ended: u128,
    rest: Seq<IdleWake>,
    now: u128,
)
    requires
        ({
            let wait = IdleWait::fresh(device_model, config).after(before);
            !wait.in_stroke && !wait.was_drawing
        }),
        is_eraser_stroke(eraser, ended),
        all_quiet(rest),
    ensures
        ({
            let start = IdleWait::fresh(device_model, config);
            let plain = start.after(before + rest);
            let erased = start.after(before + eraser + rest);
            let tick = IdleWake::Tick { drawing: false, now };
            if exists|i: int| start.is_last_pen_stroke(before, i) {
                &&& plain.outcome(tick) == if plain.rested(now) {
                    IdleOutcome::Triggered(plain.trigger())
                } else {
                    IdleOutcome::Waiting
                }
                &&& erased.outcome(tick) == if elapsed(ended, now) >= config.idle_delay_ms
                    * 1_000_000 {
                    IdleOutcome::Triggered(plain.trigger())
                } else {
                    IdleOutcome::Waiting
                }
            } else {
                &&& plain.outcome(tick) == IdleOutcome::Waiting
                &&& erased.outcome(tick) == IdleOutcome::Waiting
            }
        }),
{
    let start = IdleWait::fresh(device_model, config);
    let wait = start.after(before);
    lemma_settings_stay(start, before);
    law_wait_stays_well_formed(start, before);
    law_pen_strokes_are_what_counts(device_model, config, before);
    lemma_run_both(start, before, rest);
    lemma_quiet_wakes(wait, rest);
    lemma_run_both(start, before + eraser, rest);
    lemma_run_both(start, before, eraser);
    lemma_eraser_stroke(wait, eraser, ended);
    let rubbed = run(wait, eraser);
    lemma_quiet_wakes(rubbed, rest);
    let plain = run(wait, rest);
    let erased = run(rubbed, rest);
    reveal(run);
    if wait.has_new_content {
        lemma_same_trigger(plain, erased);
    }
}

/// What one wake does to what a wait keeps of its strokes, over [`step`].
#[verifier::spinoff_prover]
pub(crate) proof fn lemma_step_keeps(
    wait: IdleWait,
    wake: IdleWake,
    across: Seq<Binary32>,
    down: Seq<Binary32>,
)
    requires
        wait.wf(),
        wait.keeps(across, down),
        all_normal(across),
        all_normal(down),
    ensures
        ({
            let now = step(wait, wake);
            &&& now.wf()
            &&& point_wf(place(now))
            &&& wait.forgets(wake) ==> now.keeps(seq![], seq![])
            &&& !wait.forgets(wake) && !wait.writes(wake) ==> now.keeps(across, down)
            &&& wait.writes(wake) ==> now.keeps(
                if now.known_across() {
                    across.push(place(now).0)
                } else {
                    across
                },
                if now.known_down() {
                    down.push(place(now).1)
                } else {
                    down
                },
            )
        }),
{
    reveal(step);
    lemma_wake_keeps(wait, wake, across, down);
    lemma_wake_wf(wait, wake);
}

/// The box that stands in for writing without movement reaches 50 pixels to
/// either side of the anchor, 30 above it and 10 below it.
pub proof fn law_a_small_box_is_around_the_anchor(anchor: Point)
    requires
        point_wf(anchor),
    ensures
        ({
            let b = spec_box_around(anchor);
            let s = vstd::arithmetic::power2::pow2(256);
            let (x, y) = (anchor.0@.units(256), anchor.1@.units(256));
            &&& is_near(b.0, x - 50 * s) && is_near(b.2, x + 50 * s)
            &&& is_near(b.1, y - 30 * s) && is_near(b.3, y + 10 * s)
        }),
{
    lemma_near(anchor.0, -50);
    lemma_near(anchor.0, 50);
    lemma_near(anchor.1, -30);
    lemma_near(anchor.1, 10);
}

/// Whether a number is within one part in `2^24` of another, in units of
/// `2^-256`.
pub open spec fn is_near(v: Binary32, exact: int) -> bool {
    crate::binary32::magnitude(v@.units(256) - exact) * 0x100_0000 <= crate::binary32::magnitude(
        exact,
    )
}

proof fn lemma_near(v: Binary32, by: int)
    requires
        coordinate(v),
        -0x1000 < by < 0x1000,
        by != 0,
    ensures
        is_near(
            v@.plus(Dyadic::of(by)).kept(),
            v@.units(256) + by * vstd::arithmetic::power2::pow2(256),
        ),
{
    let d = Dyadic::of(by);
    Dyadic::lemma_of(by);
    crate::rounding::law_small_integers_are_exact(by, 256);
    v@.lemma_plus_units(d, 256);
    v@.lemma_plus(d);
    let sum = v@.plus(d);
    assert(sum.kept()@ == sum);
}

} // verus!
