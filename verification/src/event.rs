//! Input events, and the plans of events and pauses that drive a device.
use vstd::prelude::*;

verus! {

pub const ABS_MT_SLOT: u16 = 47;

pub const ABS_MT_TOUCH_MAJOR: u16 = 48;

pub const ABS_MT_TOUCH_MINOR: u16 = 49;

pub const ABS_MT_ORIENTATION: u16 = 52;

pub const ABS_MT_POSITION_X: u16 = 53;

pub const ABS_MT_POSITION_Y: u16 = 54;

pub const ABS_MT_TRACKING_ID: u16 = 57;

pub const ABS_MT_PRESSURE: u16 = 58;

/// The type of an input event; `Other` holds the number of any type that the
/// library has no use for.
#[derive(Clone, Copy, Debug, PartialEq, Eq, Structural)]
pub enum EventKind {
    Synchronization,
    Key,
    Absolute,
    Other(u16),
}

#[derive(Clone, Copy, Debug, PartialEq, Eq, Structural)]
pub struct InputEvent {
    pub kind: EventKind,
    pub code: u16,
    pub value: i32,
}

impl InputEvent {
    pub open spec fn spec_absolute(code: u16, value: i32) -> InputEvent {
        InputEvent { kind: EventKind::Absolute, code, value }
    }

    /// The event that ends a report.
    pub open spec fn spec_report() -> InputEvent {
        InputEvent { kind: EventKind::Synchronization, code: 0, value: 0 }
    }

    pub fn absolute(code: u16, value: i32) -> (event: InputEvent)
        ensures
            event == InputEvent::spec_absolute(code, value),
    {
        InputEvent { kind: EventKind::Absolute, code, value }
    }

    pub fn report() -> (event: InputEvent)
        ensures
            event == InputEvent::spec_report(),
    {
        InputEvent { kind: EventKind::Synchronization, code: 0, value: 0 }
    }

    /// A finger put down in `slot` at a point of the touch panel.
    pub open spec fn spec_finger_down(slot: i32, id: i32, x: i32, y: i32) -> Seq<InputEvent> {
        seq![
            InputEvent::spec_absolute(ABS_MT_SLOT, slot),
            InputEvent::spec_absolute(ABS_MT_TRACKING_ID, id),
            InputEvent::spec_absolute(ABS_MT_POSITION_X, x),
            InputEvent::spec_absolute(ABS_MT_POSITION_Y, y),
            InputEvent::spec_absolute(ABS_MT_PRESSURE, 100),
            InputEvent::spec_absolute(ABS_MT_TOUCH_MAJOR, 17),
            InputEvent::spec_absolute(ABS_MT_TOUCH_MINOR, 17),
            InputEvent::spec_absolute(ABS_MT_ORIENTATION, 4),
        ]
    }

    /// A finger in the first slot moved to a point of the touch panel.
    pub open spec fn spec_finger_moved(x: i32, y: i32) -> Seq<InputEvent> {
        seq![
            InputEvent::spec_absolute(ABS_MT_SLOT, 0),
            InputEvent::spec_absolute(ABS_MT_TRACKING_ID, 1),
            InputEvent::spec_absolute(ABS_MT_POSITION_X, x),
            InputEvent::spec_absolute(ABS_MT_POSITION_Y, y),
        ]
    }

    /// The finger in `slot` lifted.
    pub open spec fn spec_finger_up(slot: i32) -> Seq<InputEvent> {
        seq![
            InputEvent::spec_absolute(ABS_MT_SLOT, slot),
            InputEvent::spec_absolute(ABS_MT_TRACKING_ID, (-1) as i32),
        ]
    }
}

/// Adds the events of a finger put down in `slot`.
pub fn push_finger_down(events: &mut Vec<InputEvent>, slot: i32, id: i32, x: i32, y: i32)
    ensures
        final(events)@ == old(events)@ + InputEvent::spec_finger_down(slot, id, x, y),
{
    events.push(InputEvent::absolute(ABS_MT_SLOT, slot));
    events.push(InputEvent::absolute(ABS_MT_TRACKING_ID, id));
    events.push(InputEvent::absolute(ABS_MT_POSITION_X, x));
    events.push(InputEvent::absolute(ABS_MT_POSITION_Y, y));
    events.push(InputEvent::absolute(ABS_MT_PRESSURE, 100));
    events.push(InputEvent::absolute(ABS_MT_TOUCH_MAJOR, 17));
    events.push(InputEvent::absolute(ABS_MT_TOUCH_MINOR, 17));
    events.push(InputEvent::absolute(ABS_MT_ORIENTATION, 4));
}

/// Adds the events of a finger in the first slot moved to a point.
pub fn push_finger_moved(events: &mut Vec<InputEvent>, x: i32, y: i32)
    ensures
        final(events)@ == old(events)@ + InputEvent::spec_finger_moved(x, y),
{
    events.push(InputEvent::absolute(ABS_MT_SLOT, 0));
    events.push(InputEvent::absolute(ABS_MT_TRACKING_ID, 1));
    events.push(InputEvent::absolute(ABS_MT_POSITION_X, x));
    events.push(InputEvent::absolute(ABS_MT_POSITION_Y, y));
}

/// Adds the events of the finger in `slot` lifted.
pub fn push_finger_up(events: &mut Vec<InputEvent>, slot: i32)
    ensures
        final(events)@ == old(events)@ + InputEvent::spec_finger_up(slot),
{
    events.push(InputEvent::absolute(ABS_MT_SLOT, slot));
    events.push(InputEvent::absolute(ABS_MT_TRACKING_ID, -1));
}

/// One thing to do with a device.
pub enum Action {
    /// Send these events in one write.
    Send(Vec<InputEvent>),
    /// Wait this many milliseconds.
    Pause(u64),
}

/// An [`Action`] with its events as a sequence.
pub enum Step {
    Send(Seq<InputEvent>),
    Pause(u64),
}

impl Step {
    /// The events that a plan sends, in order.
    pub open spec fn sent(plan: Seq<Step>) -> Seq<InputEvent>
        decreases plan.len(),
    {
        if plan.len() == 0 {
            seq![]
        } else {
            Step::sent(plan.drop_last()) + match plan.last() {
                Step::Send(events) => events,
                Step::Pause(_) => seq![],
            }
        }
    }
}

impl View for Action {
    type V = Step;

    open spec fn view(&self) -> Step {
        match self {
            Action::Send(events) => Step::Send(events@),
            Action::Pause(ms) => Step::Pause(*ms),
        }
    }
}

/// What to do with a device, in order. Carrying a plan out stops at the first
/// write that fails.
pub struct Plan {
    pub actions: Vec<Action>,
}

impl View for Plan {
    type V = Seq<Step>;

    open spec fn view(&self) -> Seq<Step> {
        self.actions@.map_values(|action: Action| action@)
    }
}

impl Plan {
    pub fn new() -> (plan: Plan)
        ensures
            plan@ == Seq::<Step>::empty(),
    {
        let plan = Plan { actions: Vec::new() };
        assert(plan@ =~= Seq::<Step>::empty());
        plan
    }

    pub fn send(&mut self, events: Vec<InputEvent>)
        ensures
            final(self)@ == old(self)@.push(Step::Send(events@)),
    {
        self.actions.push(Action::Send(events));
        assert(self@ =~= old(self)@.push(Step::Send(events@)));
    }

    pub fn pause(&mut self, ms: u64)
        ensures
            final(self)@ == old(self)@.push(Step::Pause(ms)),
    {
        self.actions.push(Action::Pause(ms));
        assert(self@ =~= old(self)@.push(Step::Pause(ms)));
    }

    /// Carries on with `next` when this plan is done.
    pub fn follow_with(&mut self, next: Plan)
        ensures
            final(self)@ == old(self)@ + next@,
    {
        let mut rest = next.actions;
        self.actions.append(&mut rest);
        assert(self@ =~= old(self)@ + next@);
    }
}

} // verus!
