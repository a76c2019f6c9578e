//! What the touch panel makes of the events that are sent to it.
//!
//! Each event is about the finger in the slot that was named last. A finger is
//! down while its tracking id is not -1, and is where its last position events
//! say.
use vstd::prelude::*;

use crate::device::DeviceModel;
use crate::event::{EventKind, InputEvent, Step};
use crate::touch::{
    Touch, TouchMode, TriggerCorner, TriggerOutcome, TriggerWait, TriggerWake,
};

verus! {

/// The slot that was named last.
pub open spec fn slot_of(events: Seq<InputEvent>) -> i32
    decreases events.len(),
{
    if events.len() == 0 {
        0
    } else if events.last().kind == EventKind::Absolute && events.last().code == 47 {
        events.last().value
    } else {
        slot_of(events.drop_last())
    }
}

/// What was last sent under `code` for the finger in `slot`.
pub open spec fn held(events: Seq<InputEvent>, slot: i32, code: u16) -> Option<i32>
    decreases events.len(),
{
    if events.len() == 0 {
        None
    } else if events.last().kind == EventKind::Absolute && events.last().code == code && slot_of(
        events.drop_last(),
    ) == slot {
        Some(events.last().value)
    } else {
        held(events.drop_last(), slot, code)
    }
}

/// Whether the finger in `slot` is down at a point of the panel.
pub open spec fn is_down_at(events: Seq<InputEvent>, slot: i32, x: int, y: int) -> bool {
    &&& held(events, slot, 57) matches Some(id)
    &&& id >= 0
    &&& held(events, slot, 53) matches Some(px)
    &&& px == x
    &&& held(events, slot, 54) matches Some(py)
    &&& py == y
}

/// Whether the finger in `slot` was lifted.
pub open spec fn is_lifted(events: Seq<InputEvent>, slot: i32) -> bool {
    held(events, slot, 57) == Some((-1) as i32)
}

/// Whether a series of events is one whole report.
pub open spec fn is_report(events: Seq<InputEvent>) -> bool {
    &&& events.len() > 0
    &&& events.last() == (InputEvent { kind: EventKind::Synchronization, code: 0, value: 0 })
    &&& forall|i: int|
        0 <= i < events.len() - 1 ==> (#[trigger] events[i]).kind == EventKind::Absolute
}

/// Events before others do not matter for what the others set.
proof fn lemma_held_of_both(a: Seq<InputEvent>, b: Seq<InputEvent>, slot: i32, code: u16)
    requires
        b.len() > 0,
        b[0].kind == EventKind::Absolute && b[0].code == 47,
    ensures
        slot_of(a + b) == slot_of(b),
        code != 47 ==> held(a + b, slot, code) == match held(b, slot, code) {
            Some(v) => Some(v),
            None => held(a, slot, code),
        },
    decreases b.len(),
{
    let whole = a + b;
    assert(whole.last() == b.last());
    assert(whole.drop_last() =~= a + b.drop_last());
    if b.len() > 1 {
        lemma_held_of_both(a, b.drop_last(), slot, code);
    } else {
        assert(b.drop_last() =~= seq![]);
        assert(a + b.drop_last() =~= a);
        reveal_with_fuel(slot_of, 2);
        reveal_with_fuel(held, 2);
    }
}

/// What follows another plan is sent after it.
proof fn lemma_sent_of_both(a: Seq<Step>, b: Seq<Step>)
    ensures
        Step::sent(a + b) == Step::sent(a) + Step::sent(b),
    decreases b.len(),
{
    if b.len() == 0 {
        assert(a + b =~= a);
        assert(Step::sent(a) + Step::sent(b) =~= Step::sent(a));
    } else {
        lemma_sent_of_both(a, b.drop_last());
        assert((a + b).drop_last() =~= a + b.drop_last());
        assert(Step::sent(a + b) =~= Step::sent(a) + Step::sent(b));
    }
}

/// What one write sends, whatever the pause after it.
proof fn lemma_sent_of_one(plan: Seq<Step>, events: Seq<InputEvent>)
    requires
        0 < plan.len() <= 2,
        plan[0] == Step::Send(events),
        plan.len() == 2 ==> plan[1] is Pause,
    ensures
        Step::sent(plan) == events,
{
    reveal_with_fuel(Step::sent, 3);
    assert(plan.len() == 2 ==> plan.drop_last().drop_last() =~= seq![]);
    assert(plan.len() == 1 ==> plan.drop_last() =~= seq![]);
    assert(Step::sent(plan) =~= events);
}

/// A touch puts one finger down, in the first slot, where the device's own map
/// puts the point, and gives the panel a millisecond.
pub proof fn law_a_touch_puts_a_finger_down(touch: Touch, xy: (i32, i32))
    requires
        touch.mode matches TouchMode::Real { input_device: true, .. },
    ensures
        ({
            let plan = touch.spec_touch_start(xy);
            let events = Step::sent(plan);
            let (x, y) = touch.mode->device_model.spec_virtual_to_input(
                xy.0 as int,
                xy.1 as int,
            );
            &&& is_down_at(events, 0, x as i32 as int, y as i32 as int)
            &&& is_report(events)
            &&& held(events, 0, 58) == Some(100i32) && held(events, 0, 52) == Some(4i32)
            &&& held(events, 0, 48) == Some(17i32) && held(events, 0, 49) == Some(17i32)
            &&& forall|slot: i32, code: u16|
                slot != 0 && code != 47 ==> #[trigger] held(events, slot, code) is None
            &&& events[0].code == 47 && slot_of(events) == 0
            &&& plan.last() == Step::Pause(1)
        }),
{
    let plan = touch.spec_touch_start(xy);
    let (x, y) = touch.mode->device_model.spec_virtual_to_input(xy.0 as int, xy.1 as int);
    let events = InputEvent::spec_finger_down(0, 1, x as i32, y as i32).push(
        InputEvent::spec_report(),
    );
    lemma_sent_of_one(plan, events);
    lemma_down_events(0, 1, x as i32, y as i32);
}

/// What the events of a finger put down say, with the report that ends them.
proof fn lemma_down_events(slot: i32, id: i32, x: i32, y: i32)
    ensures
        ({
            let bare = InputEvent::spec_finger_down(slot, id, x, y);
            let events = bare.push(InputEvent::spec_report());
            &&& held(events, slot, 57) == Some(id)
            &&& held(events, slot, 53) == Some(x) && held(events, slot, 54) == Some(y)
            &&& held(events, slot, 58) == Some(100i32) && held(events, slot, 52) == Some(4i32)
            &&& held(events, slot, 48) == Some(17i32) && held(events, slot, 49) == Some(17i32)
            &&& slot_of(events) == slot
            &&& is_report(events)
            &&& forall|other: i32, code: u16|
                other != slot && code != 47 ==> #[trigger] held(events, other, code) is None
            &&& held(bare, slot, 57) == Some(id) && slot_of(bare) == slot
            &&& held(bare, slot, 53) == Some(x) && held(bare, slot, 54) == Some(y)
            &&& forall|other: i32, code: u16|
                other != slot && code != 47 ==> #[trigger] held(bare, other, code) is None
        }),
{
    let bare = InputEvent::spec_finger_down(slot, id, x, y);
    let events = bare.push(InputEvent::spec_report());
    let e1 = bare.take(1);
    let e2 = bare.take(2);
    let e3 = bare.take(3);
    let e4 = bare.take(4);
    let e5 = bare.take(5);
    let e6 = bare.take(6);
    let e7 = bare.take(7);
    assert(events.drop_last() =~= bare);
    assert(bare.drop_last() =~= e7);
    assert(e7.drop_last() =~= e6);
    assert(e6.drop_last() =~= e5);
    assert(e5.drop_last() =~= e4);
    assert(e4.drop_last() =~= e3);
    assert(e3.drop_last() =~= e2);
    assert(e2.drop_last() =~= e1);
    assert(e1.drop_last() =~= seq![]);
    assert(slot_of(e1) == slot);
    assert(slot_of(e2) == slot);
    assert(slot_of(e3) == slot);
    assert(slot_of(e4) == slot);
    assert(slot_of(e5) == slot);
    assert(slot_of(e6) == slot);
    assert(slot_of(e7) == slot);
    assert(slot_of(bare) == slot);
    assert(held(e2, slot, 57) == Some(id));
    assert(held(e3, slot, 57) == Some(id) && held(e3, slot, 53) == Some(x));
    assert(held(e4, slot, 57) == Some(id) && held(e4, slot, 53) == Some(x) && held(e4, slot, 54)
        == Some(y));
    assert(held(e5, slot, 57) == Some(id) && held(e5, slot, 53) == Some(x) && held(e5, slot, 54)
        == Some(y) && held(e5, slot, 58) == Some(100i32));
    assert(held(e6, slot, 57) == Some(id) && held(e6, slot, 53) == Some(x) && held(e6, slot, 54)
        == Some(y) && held(e6, slot, 58) == Some(100i32) && held(e6, slot, 48) == Some(17i32));
    assert(held(e7, slot, 57) == Some(id) && held(e7, slot, 53) == Some(x) && held(e7, slot, 54)
        == Some(y) && held(e7, slot, 58) == Some(100i32) && held(e7, slot, 48) == Some(17i32)
        && held(e7, slot, 49) == Some(17i32));
    assert(held(bare, slot, 57) == Some(id) && held(bare, slot, 53) == Some(x) && held(
        bare,
        slot,
        54,
    ) == Some(y) && held(bare, slot, 58) == Some(100i32) && held(bare, slot, 48) == Some(17i32)
        && held(bare, slot, 49) == Some(17i32) && held(bare, slot, 52) == Some(4i32));
    assert(events.last() == InputEvent::spec_report());
    assert(forall|i: int| 0 <= i < 8 ==> #[trigger] events[i] == bare[i]);
    assert forall|other: i32, code: u16| other != slot && code != 47 implies #[trigger] held(
        bare,
        other,
        code,
    ) is None by {
        assert(held(seq![], other, code) is None);
        assert(held(e1, other, code) is None);
        assert(held(e2, other, code) is None);
        assert(held(e3, other, code) is None);
        assert(held(e4, other, code) is None);
        assert(held(e5, other, code) is None);
        assert(held(e6, other, code) is None);
        assert(held(e7, other, code) is None);
    }
    assert forall|other: i32, code: u16| other != slot && code != 47 implies #[trigger] held(
        events,
        other,
        code,
    ) is None by {
        assert(held(bare, other, code) is None);
    }
}

/// A move takes the finger where a touch at the same point would have put it
/// down, on every device.
pub proof fn law_a_move_goes_where_a_touch_would_start(touch: Touch, xy: (i32, i32))
    requires
        touch.mode matches TouchMode::Real { input_device: true, .. },
    ensures
        ({
            let start = Step::sent(touch.spec_touch_start(xy));
            let moved = Step::sent(touch.spec_goto_xy(xy));
            &&& held(moved, 0, 53) == held(start, 0, 53) && held(start, 0, 53) is Some
            &&& held(moved, 0, 54) == held(start, 0, 54) && held(start, 0, 54) is Some
            &&& held(moved, 0, 57) == held(start, 0, 57)
            &&& is_report(moved)
            &&& moved[0].code == 47 && slot_of(moved) == 0
            &&& forall|slot: i32, code: u16|
                slot != 0 && code != 47 ==> #[trigger] held(moved, slot, code) is None
        }),
{
    law_a_touch_puts_a_finger_down(touch, xy);
    let (x, y) = touch.mode->device_model.spec_virtual_to_input(xy.0 as int, xy.1 as int);
    let events = InputEvent::spec_finger_moved(x as i32, y as i32).push(InputEvent::spec_report());
    lemma_sent_of_one(touch.spec_goto_xy(xy), events);
    let down = InputEvent::spec_finger_down(0, 1, x as i32, y as i32).push(
        InputEvent::spec_report(),
    );
    lemma_sent_of_one(touch.spec_touch_start(xy), down);
    lemma_down_events(0, 1, x as i32, y as i32);
    lemma_move_events(x as i32, y as i32);
}

proof fn lemma_move_events(x: i32, y: i32)
    ensures
        ({
            let events = InputEvent::spec_finger_moved(x, y).push(InputEvent::spec_report());
            &&& held(events, 0, 57) == Some(1i32)
            &&& held(events, 0, 53) == Some(x) && held(events, 0, 54) == Some(y)
            &&& slot_of(events) == 0
            &&& is_report(events)
            &&& forall|other: i32, code: u16|
                other != 0 && code != 47 ==> #[trigger] held(events, other, code) is None
        }),
{
    let bare = InputEvent::spec_finger_moved(x, y);
    let events = bare.push(InputEvent::spec_report());
    let e1 = bare.take(1);
    let e2 = bare.take(2);
    let e3 = bare.take(3);
    assert(events.drop_last() =~= bare);
    assert(bare.drop_last() =~= e3);
    assert(e3.drop_last() =~= e2);
    assert(e2.drop_last() =~= e1);
    assert(e1.drop_last() =~= seq![]);
    assert(slot_of(e1) == 0);
    assert(slot_of(e2) == 0);
    assert(slot_of(e3) == 0);
    assert(slot_of(bare) == 0);
    assert(held(e2, 0, 57) == Some(1i32));
    assert(held(e3, 0, 57) == Some(1i32) && held(e3, 0, 53) == Some(x));
    assert(held(bare, 0, 57) == Some(1i32) && held(bare, 0, 53) == Some(x) && held(bare, 0, 54)
        == Some(y));
    assert(events.last() == InputEvent::spec_report());
    assert(forall|i: int| 0 <= i < 4 ==> #[trigger] events[i] == bare[i]);
    assert forall|other: i32, code: u16| other != 0 && code != 47 implies #[trigger] held(
        events,
        other,
        code,
    ) is None by {
        assert(held(seq![], other, code) is None);
        assert(held(e1, other, code) is None);
        assert(held(e2, other, code) is None);
        assert(held(e3, other, code) is None);
        assert(held(bare, other, code) is None);
    }
}

/// The end of a touch lifts the finger in the first slot and nothing else, and
/// gives the panel a millisecond.
pub proof fn law_a_touch_ends_with_the_finger_lifted(touch: Touch)
    requires
        touch.mode matches TouchMode::Real { input_device: true, .. },
    ensures
        ({
            let plan = touch.spec_touch_stop();
            let events = Step::sent(plan);
            &&& is_lifted(events, 0)
            &&& is_report(events)
            &&& held(events, 0, 53) is None && held(events, 0, 54) is None
            &&& events[0].code == 47
            &&& forall|slot: i32, code: u16|
                slot != 0 && code != 47 ==> #[trigger] held(events, slot, code) is None
            &&& plan.last() == Step::Pause(1)
        }),
{
    let events = InputEvent::spec_finger_up(0).push(InputEvent::spec_report());
    lemma_sent_of_one(touch.spec_touch_stop(), events);
    lemma_up_events(0);
}

proof fn lemma_up_events(slot: i32)
    ensures
        ({
            let bare = InputEvent::spec_finger_up(slot);
            let events = bare.push(InputEvent::spec_report());
            &&& is_lifted(events, slot) && is_lifted(bare, slot)
            &&& is_report(events)
            &&& slot_of(bare) == slot
            &&& forall|other: i32, code: u16|
                other != slot && code != 47 ==> #[trigger] held(events, other, code) is None
            &&& forall|code: u16|
                code != 47 && code != 57 ==> #[trigger] held(events, slot, code) is None
            &&& forall|other: i32, code: u16|
                other != slot && code != 47 ==> #[trigger] held(bare, other, code) is None
        }),
{
    let bare = InputEvent::spec_finger_up(slot);
    let events = bare.push(InputEvent::spec_report());
    let e1 = bare.take(1);
    assert(events.drop_last() =~= bare);
    assert(bare.drop_last() =~= e1);
    assert(e1.drop_last() =~= seq![]);
    assert(slot_of(e1) == slot);
    assert(slot_of(bare) == slot);
    assert(held(bare, slot, 57) == Some((-1) as i32));
    assert(events.last() == InputEvent::spec_report());
    assert(forall|i: int| 0 <= i < 2 ==> #[trigger] events[i] == bare[i]);
    assert forall|other: i32, code: u16| other != slot && code != 47 implies #[trigger] held(
        bare,
        other,
        code,
    ) is None by {
        assert(held(seq![], other, code) is None);
        assert(held(e1, other, code) is None);
    }
    assert forall|other: i32, code: u16| other != slot && code != 47 implies #[trigger] held(
        events,
        other,
        code,
    ) is None by {
        assert(held(bare, other, code) is None);
    }
    assert forall|code: u16| code != 47 && code != 57 implies #[trigger] held(
        events,
        slot,
        code,
    ) is None by {
        assert(held(seq![], slot, code) is None);
        assert(held(e1, slot, code) is None);
        assert(held(bare, slot, code) is None);
    }
}

/// A point of the screen that a finger is moved to is read back, by the map of
/// the same device, to within a pixel.
pub proof fn law_a_move_is_read_back(touch: Touch, xy: (i32, i32))
    requires
        touch.mode matches TouchMode::Real { input_device: true, .. },
        0 <= xy.0 <= 768,
        0 <= xy.1 <= 1024,
    ensures
        ({
            let events = Step::sent(touch.spec_goto_xy(xy));
            let (vx, vy) = touch.mode->device_model.spec_input_to_virtual(
                held(events, 0, 53)->0 as int,
                held(events, 0, 54)->0 as int,
            );
            xy.0 - 1 <= vx <= xy.0 && xy.1 - 1 <= vy <= xy.1
        }),
{
    let model = touch.mode->device_model;
    law_a_touch_puts_a_finger_down(touch, xy);
    law_a_move_goes_where_a_touch_would_start(touch, xy);
    crate::mapping::law_screen_points_are_on_the_panel(model, xy.0 as int, xy.1 as int);
    crate::mapping::law_touches_come_back(model, xy.0 as int, xy.1 as int);
}

/// Where the finger in the first slot is, and whether it is down.
pub struct Contact {
    pub down: bool,
    pub x: int,
    pub y: int,
}

/// The finger in the first slot after a series of events; one that was never
/// put down is up at the origin.
pub open spec fn contact(events: Seq<InputEvent>) -> Contact {
    Contact {
        down: held(events, 0, 57) matches Some(id) && id >= 0,
        x: match held(events, 0, 53) {
            Some(x) => x as int,
            None => 0,
        },
        y: match held(events, 0, 54) {
            Some(y) => y as int,
            None => 0,
        },
    }
}

/// What the panel sees of the finger in the first slot, report by report.
pub open spec fn path(events: Seq<InputEvent>) -> Seq<Contact>
    decreases events.len(),
{
    if events.len() == 0 {
        seq![]
    } else if events.last().kind == EventKind::Synchronization {
        path(events.drop_last()).push(contact(events.drop_last()))
    } else {
        path(events.drop_last())
    }
}

/// Without a report, the panel sees nothing new.
proof fn lemma_path_of_no_report(a: Seq<InputEvent>, b: Seq<InputEvent>)
    requires
        forall|i: int| 0 <= i < b.len() ==> (#[trigger] b[i]).kind == EventKind::Absolute,
    ensures
        path(a + b) == path(a),
    decreases b.len(),
{
    if b.len() == 0 {
        assert(a + b =~= a);
    } else {
        let shorter = b.drop_last();
        assert forall|i: int| 0 <= i < shorter.len() implies (#[trigger] shorter[i]).kind
            == EventKind::Absolute by {
            assert(b[i] == shorter[i]);
        }
        lemma_path_of_no_report(a, shorter);
        assert((a + b).drop_last() =~= a + shorter);
        assert(b[b.len() - 1].kind == EventKind::Absolute);
    }
}

/// A report that begins by naming its slot is seen as it stands, over what was
/// there before.
proof fn lemma_path_of_report(a: Seq<InputEvent>, b: Seq<InputEvent>)
    requires
        is_report(b),
        b.len() > 1,
        b[0].code == 47,
    ensures
        path(a + b) == path(a).push(contact(a + b)),
        forall|slot: i32, code: u16|
            code != 47 ==> #[trigger] held(a + b, slot, code) == match held(b, slot, code) {
                Some(v) => Some(v),
                None => held(a, slot, code),
            },
{
    let bare = b.drop_last();
    assert forall|i: int| 0 <= i < bare.len() implies (#[trigger] bare[i]).kind
        == EventKind::Absolute by {
        assert(b[i] == bare[i]);
    }
    lemma_path_of_no_report(a, bare);
    assert((a + b).drop_last() =~= a + bare);
    assert(b[0].kind == EventKind::Absolute);
    assert forall|slot: i32, code: u16| code != 47 implies #[trigger] held(a + b, slot, code)
        == match held(b, slot, code) {
        Some(v) => Some(v),
        None => held(a, slot, code),
    } by {
        lemma_held_of_both(a, b, slot, code);
    }
    assert((a + b).last() == b.last());
    assert(contact(a + bare) == contact(a + b));
}

/// Where a point of the virtual screen is on the panel of a device.
pub open spec fn on_panel(touch: Touch, xy: (i32, i32)) -> (int, int) {
    touch.mode->device_model.spec_virtual_to_input(xy.0 as int, xy.1 as int)
}

/// The same as the finger is seen there.
pub open spec fn seen(touch: Touch, down: bool, xy: (i32, i32)) -> Contact {
    let (x, y) = on_panel(touch, xy);
    Contact { down, x, y }
}

proof fn lemma_on_panel(touch: Touch, xy: (i32, i32))
    ensures
        i32::MIN <= on_panel(touch, xy).0 <= i32::MAX,
        i32::MIN <= on_panel(touch, xy).1 <= i32::MAX,
{
}

/// After anything that was sent before, a touch is seen as a finger down at its
/// point, a move as the finger there, and the end of a touch as the finger
/// lifted where it was.
pub proof fn law_touches_are_seen(touch: Touch, before: Seq<InputEvent>, xy: (i32, i32))
    requires
        touch.mode matches TouchMode::Real { input_device: true, .. },
    ensures
        ({
            let started = before + Step::sent(touch.spec_touch_start(xy));
            path(started) == path(before).push(seen(touch, true, xy)) && contact(started) == seen(
                touch,
                true,
                xy,
            )
        }),
        ({
            let moved = before + Step::sent(touch.spec_goto_xy(xy));
            path(moved) == path(before).push(seen(touch, true, xy)) && contact(moved) == seen(
                touch,
                true,
                xy,
            )
        }),
        ({
            let stopped = before + Step::sent(touch.spec_touch_stop());
            let lifted = Contact { down: false, ..contact(before) };
            path(stopped) == path(before).push(lifted) && contact(stopped) == lifted
        }),
{
    lemma_on_panel(touch, xy);
    law_a_touch_puts_a_finger_down(touch, xy);
    law_a_move_goes_where_a_touch_would_start(touch, xy);
    law_a_touch_ends_with_the_finger_lifted(touch);
    let start = Step::sent(touch.spec_touch_start(xy));
    let go = Step::sent(touch.spec_goto_xy(xy));
    let stop = Step::sent(touch.spec_touch_stop());
    lemma_path_of_report(before, start);
    lemma_path_of_report(before, go);
    lemma_path_of_report(before, stop);
}

/// Without a device nothing is sent.
pub proof fn law_nothing_is_sent_without_a_device(touch: Touch, xy: (i32, i32))
    requires
        !(touch.mode matches TouchMode::Real { input_device: true, .. }),
    ensures
        touch.spec_touch_start(xy) == Seq::<Step>::empty(),
        touch.spec_goto_xy(xy) == Seq::<Step>::empty(),
        touch.spec_touch_stop() == Seq::<Step>::empty(),
{
}

/// A press is seen as a finger down at its point and lifted there, a tenth of a
/// second and a millisecond later; a tap as the same, with 300 milliseconds
/// after it.
pub proof fn law_presses_and_taps_are_seen(
    touch: Touch,
    before: Seq<InputEvent>,
    xy: (i32, i32),
)
    requires
        touch.mode matches TouchMode::Real { input_device: true, .. },
    ensures
        path(before + Step::sent(touch.spec_press(xy))) == path(before).push(
            seen(touch, true, xy),
        ).push(seen(touch, false, xy)),
        path(before + Step::sent(touch.spec_tap(xy))) == path(before).push(
            seen(touch, true, xy),
        ).push(seen(touch, false, xy)),
        contact(before + Step::sent(touch.spec_tap(xy))) == seen(touch, false, xy),
        ({
            let plan = touch.spec_tap(xy);
            &&& plan.len() == 6
            &&& plan[1] == Step::Pause(1) && plan[2] == Step::Pause(100) && plan[4]
                == Step::Pause(1) && plan[5] == Step::Pause(300)
        }),
        touch.spec_tap(xy).drop_last() == touch.spec_press(xy),
{
    let start = touch.spec_touch_start(xy);
    let stop = touch.spec_touch_stop();
    let hold: Seq<Step> = seq![Step::Pause(100)];
    let rest: Seq<Step> = seq![Step::Pause(300)];
    assert(touch.spec_press(xy) =~= (start + hold) + stop);
    assert(touch.spec_tap(xy) =~= touch.spec_press(xy) + rest);
    lemma_pause_sends_nothing(100);
    lemma_pause_sends_nothing(300);
    lemma_sent_of_both(start + hold, stop);
    lemma_sent_of_both(start, hold);
    lemma_sent_of_both(touch.spec_press(xy), rest);
    let a = Step::sent(start);
    let b = Step::sent(stop);
    assert(a + Seq::<InputEvent>::empty() =~= a);
    assert(a + b + Seq::<InputEvent>::empty() =~= a + b);
    law_touches_are_seen(touch, before, xy);
    law_touches_are_seen(touch, before + a, xy);
    assert(before + (a + b) =~= (before + a) + b);
    assert(touch.spec_tap(xy).drop_last() =~= touch.spec_press(xy));
}

proof fn lemma_pause_sends_nothing(ms: u64)
    ensures
        Step::sent(seq![Step::Pause(ms)]) == Seq::<InputEvent>::empty(),
{
    let plan: Seq<Step> = seq![Step::Pause(ms)];
    reveal_with_fuel(Step::sent, 2);
    assert(plan.drop_last() =~= seq![]);
    assert(Step::sent(plan) =~= seq![]);
}

/// Taps are seen one after the other, each as a finger down and lifted at its
/// point.
pub proof fn law_taps_are_seen(touch: Touch, before: Seq<InputEvent>, points: Seq<(i32, i32)>)
    requires
        touch.mode matches TouchMode::Real { input_device: true, .. },
    ensures
        path(before + Step::sent(touch.spec_taps(points))) == path(before) + Seq::new(
            2 * points.len(),
            |i: int| seen(touch, i % 2 == 0, points[i / 2]),
        ),
    decreases points.len(),
{
    if points.len() == 0 {
        assert(before + Step::sent(touch.spec_taps(points)) =~= before);
        assert(path(before) + Seq::new(
            2 * points.len(),
            |i: int| seen(touch, i % 2 == 0, points[i / 2]),
        ) =~= path(before));
    } else {
        let earlier = points.drop_last();
        let xy = points.last();
        law_taps_are_seen(touch, before, earlier);
        lemma_sent_of_both(touch.spec_taps(earlier), touch.spec_tap(xy));
        let a = Step::sent(touch.spec_taps(earlier));
        let b = Step::sent(touch.spec_tap(xy));
        assert(before + (a + b) =~= (before + a) + b);
        law_presses_and_taps_are_seen(touch, before + a, xy);
        let shown = path(before + Step::sent(touch.spec_taps(points)));
        let expected = path(before) + Seq::new(
            2 * points.len(),
            |i: int| seen(touch, i % 2 == 0, points[i / 2]),
        );
        assert(shown =~= expected) by {
            let n = path(before).len() as int;
            assert forall|i: int| 0 <= i < expected.len() implies shown[i] == expected[i] by {
                let j = i - n;
                if j >= 0 && j < 2 * earlier.len() {
                    assert(points[j / 2] == earlier[j / 2]);
                }
            }
        }
    }
}

/// A drag is seen as the finger at each of its points in turn, with the same
/// rest at each.
pub proof fn law_drags_are_seen(
    touch: Touch,
    before: Seq<InputEvent>,
    points: Seq<(i32, i32)>,
    ms: u64,
)
    requires
        touch.mode matches TouchMode::Real { input_device: true, .. },
    ensures
        path(before + Step::sent(touch.spec_drag(points, ms))) == path(before) + Seq::new(
            points.len(),
            |i: int| seen(touch, true, points[i]),
        ),
        points.len() > 0 ==> contact(before + Step::sent(touch.spec_drag(points, ms))) == seen(
            touch,
            true,
            points.last(),
        ),
        touch.spec_drag(points, ms).len() == 2 * points.len(),
        forall|i: int|
            0 <= i < points.len() ==> #[trigger] touch.spec_drag(points, ms)[2 * i + 1]
                == Step::Pause(ms),
    decreases points.len(),
{
    if points.len() == 0 {
        assert(before + Step::sent(touch.spec_drag(points, ms)) =~= before);
        assert(path(before) + Seq::new(points.len(), |i: int| seen(touch, true, points[i]))
            =~= path(before));
    } else {
        let earlier = points.drop_last();
        let xy = points.last();
        law_drags_are_seen(touch, before, earlier, ms);
        let head = touch.spec_drag(earlier, ms);
        let go = touch.spec_goto_xy(xy);
        let rest: Seq<Step> = seq![Step::Pause(ms)];
        let plan = touch.spec_drag(points, ms);
        assert(plan =~= (head + go) + rest);
        lemma_sent_of_both(head + go, rest);
        lemma_sent_of_both(head, go);
        lemma_pause_sends_nothing(ms);
        let a = Step::sent(head);
        let b = Step::sent(go);
        assert((a + b) + Seq::<InputEvent>::empty() =~= a + b);
        assert(before + (a + b) =~= (before + a) + b);
        law_touches_are_seen(touch, before + a, xy);
        let shown = path(before + Step::sent(plan));
        let expected = path(before) + Seq::new(
            points.len(),
            |i: int| seen(touch, true, points[i]),
        );
        assert(shown =~= expected);
        assert forall|i: int| 0 <= i < points.len() implies #[trigger] plan[2 * i + 1]
            == Step::Pause(ms) by {
            if i < earlier.len() {
                assert(plan[2 * i + 1] == head[2 * i + 1]);
            }
        }
    }
}

/// Whether a plan is that of a touch that is dragged through `n` points, with a
/// rest of `ms` milliseconds at each, and one of a millisecond where it starts
/// and where it ends.
pub open spec fn rests(plan: Seq<Step>, n: int, ms: u64) -> bool {
    &&& plan.len() == 2 * n + 4
    &&& plan[1] == Step::Pause(1) && plan[2 * n + 3] == Step::Pause(1)
    &&& forall|i: int| 0 <= i < n ==> #[trigger] plan[2 * i + 3] == Step::Pause(ms)
}

/// A touch that is dragged and ends is seen as the finger down where it began,
/// at each point of the drag, and lifted where the drag ended.
pub proof fn law_dragged_touches_are_seen(
    touch: Touch,
    from: (i32, i32),
    points: Seq<(i32, i32)>,
    ms: u64,
)
    requires
        touch.mode matches TouchMode::Real { input_device: true, .. },
        points.len() > 0,
    ensures
        path(
            Step::sent(
                touch.spec_touch_start(from) + touch.spec_drag(points, ms)
                    + touch.spec_touch_stop(),
            ),
        ) == seq![seen(touch, true, from)] + Seq::new(
            points.len(),
            |i: int| seen(touch, true, points[i]),
        ) + seq![seen(touch, false, points.last())],
        rests(
            touch.spec_touch_start(from) + touch.spec_drag(points, ms) + touch.spec_touch_stop(),
            points.len() as int,
            ms,
        ),
{
    let start = touch.spec_touch_start(from);
    let drag = touch.spec_drag(points, ms);
    let stop = touch.spec_touch_stop();
    lemma_sent_of_both(start + drag, stop);
    lemma_sent_of_both(start, drag);
    let a = Step::sent(start);
    let b = Step::sent(drag);
    let c = Step::sent(stop);
    let none = Seq::<InputEvent>::empty();
    assert(none + a =~= a);
    law_touches_are_seen(touch, none, from);
    law_drags_are_seen(touch, a, points, ms);
    law_touches_are_seen(touch, a + b, from);
    let middle = Seq::new(points.len(), |i: int| seen(touch, true, points[i]));
    assert(path(a) =~= seq![seen(touch, true, from)]);
    assert(path((a + b) + c) =~= seq![seen(touch, true, from)] + middle + seq![
        seen(touch, false, points.last()),
    ]);
    let plan = start + drag + stop;
    law_a_touch_puts_a_finger_down(touch, from);
    law_a_touch_ends_with_the_finger_lifted(touch);
    assert forall|i: int| 0 <= i < points.len() implies #[trigger] plan[2 * i + 3] == Step::Pause(
        ms,
    ) by {
        assert(plan[2 * i + 3] == drag[2 * i + 1]);
    }
}

/// A drag that ends in a corner, a pixel or more from the rest of the screen,
/// and is released there summons the diary: the panel reports the events that
/// were sent, and the release among them ends the wait for that corner.
pub proof fn law_a_drag_into_a_corner_summons(
    touch: Touch,
    wait: TriggerWait,
    before: Seq<InputEvent>,
    xy: (i32, i32),
)
    requires
        touch.mode matches TouchMode::Real { input_device: true, device_model, .. } && device_model
            == wait.device_model,
        wait.listening,
        0 <= xy.0 <= 768,
        0 <= xy.1 <= 1024,
        wait.trigger_corner.holds(xy.0 as int, xy.1 as int),
        wait.trigger_corner.holds(xy.0 - 1, xy.1 - 1),
    ensures
        ({
            let moved = before + Step::sent(touch.spec_goto_xy(xy));
            let stop = Step::sent(touch.spec_touch_stop());
            wait.after(moved + stop.take(1)).outcome(TriggerWake::Event(stop[1]))
                == TriggerOutcome::Triggered
        }),
{
    let model = wait.device_model;
    let (x, y) = on_panel(touch, xy);
    lemma_on_panel(touch, xy);
    let moved_events = InputEvent::spec_finger_moved(x as i32, y as i32).push(
        InputEvent::spec_report(),
    );
    let up_events = InputEvent::spec_finger_up(0).push(InputEvent::spec_report());
    lemma_sent_of_one(touch.spec_goto_xy(xy), moved_events);
    lemma_sent_of_one(touch.spec_touch_stop(), up_events);
    let seen_events = (before + moved_events) + up_events.take(1);
    crate::touch::law_wait_holds_the_last_position(wait, seen_events);
    crate::mapping::law_touches_come_back(model, xy.0 as int, xy.1 as int);
    let n = before.len() as int;
    assert(seen_events.drop_last().drop_last().drop_last() =~= before
        + InputEvent::spec_finger_moved(x as i32, y as i32).take(3));
    assert(seen_events.drop_last().drop_last().last() == InputEvent::spec_absolute(
        54,
        y as i32,
    ));
    assert(seen_events.drop_last().drop_last().drop_last().last() == InputEvent::spec_absolute(
        53,
        x as i32,
    ));
    assert(crate::touch::last_value(seen_events, 54, wait.position_y) == y) by {
        reveal_with_fuel(crate::touch::last_value, 4);
    }
    assert(crate::touch::last_value(seen_events, 53, wait.position_x) == x) by {
        reveal_with_fuel(crate::touch::last_value, 5);
    }
}

/// Two fingers go down together at two points of the panel, stay for a tenth of
/// a second, and go up together.
pub proof fn law_two_fingers_are_seen(a: (i32, i32), b: (i32, i32))
    ensures
        ({
            let plan = crate::experiment::spec_two_fingers(a, b);
            &&& plan.len() == 3
            &&& plan[0] matches Step::Send(pressed)
            &&& is_report(pressed)
            &&& is_down_at(pressed, 0, a.0 as int, a.1 as int)
            &&& is_down_at(pressed, 1, b.0 as int, b.1 as int)
            &&& held(pressed, 0, 57) != held(pressed, 1, 57)
            &&& plan[1] == Step::Pause(100)
            &&& plan[2] matches Step::Send(lifted)
            &&& is_report(lifted)
            &&& is_lifted(lifted, 0) && is_lifted(lifted, 1)
        }),
{
    let d0 = InputEvent::spec_finger_down(0, 1, a.0, a.1);
    let d1 = InputEvent::spec_finger_down(1, 2, b.0, b.1);
    let pressed = (d0 + d1).push(InputEvent::spec_report());
    assert(pressed =~= d0 + d1.push(InputEvent::spec_report()));
    lemma_down_events(0, 1, a.0, a.1);
    lemma_down_events(1, 2, b.0, b.1);
    let d1r = d1.push(InputEvent::spec_report());
    lemma_held_of_both(d0, d1r, 0, 57);
    lemma_held_of_both(d0, d1r, 0, 53);
    lemma_held_of_both(d0, d1r, 0, 54);
    lemma_held_of_both(d0, d1r, 1, 57);
    lemma_held_of_both(d0, d1r, 1, 53);
    lemma_held_of_both(d0, d1r, 1, 54);
    assert(held(d1r, 0, 57) is None && held(d1r, 0, 53) is None && held(d1r, 0, 54) is None);
    let u0 = InputEvent::spec_finger_up(0);
    let u1 = InputEvent::spec_finger_up(1);
    let lifted = (u0 + u1).push(InputEvent::spec_report());
    let u1r = u1.push(InputEvent::spec_report());
    assert(lifted =~= u0 + u1r);
    lemma_up_events(0);
    lemma_up_events(1);
    lemma_held_of_both(u0, u1r, 0, 57);
    lemma_held_of_both(u0, u1r, 1, 57);
    assert(held(u1r, 0, 57) is None);
}

/// On every device a fling is seen as a finger that goes down at (400, 750), up
/// the page ten pixels at a time, and lifted at (400, 650).
pub proof fn law_flings_are_seen(model: DeviceModel)
    ensures
        ({
            let touch = Touch {
                mode: TouchMode::Real {
                    input_device: true,
                    event_stream: true,
                    device_model: model,
                },
                trigger_corner: TriggerCorner::UpperRight,
            };
            path(Step::sent(crate::scroll::spec_fling_up(model))) == Seq::new(
                12,
                |i: int|
                    if i < 11 {
                        seen(touch, true, (400i32, (750 - 10 * i) as i32))
                    } else {
                        seen(touch, false, (400i32, 650i32))
                    },
            )
        }),
        rests(crate::scroll::spec_fling_up(model), 10, 10),
{
    let touch = Touch {
        mode: TouchMode::Real { input_device: true, event_stream: true, device_model: model },
        trigger_corner: TriggerCorner::UpperRight,
    };
    let points = crate::scroll::fling_points();
    law_dragged_touches_are_seen(touch, (400, 750), points, 10);
    let expected = Seq::new(
        12,
        |i: int|
            if i < 11 {
                seen(touch, true, (400i32, (750 - 10 * i) as i32))
            } else {
                seen(touch, false, (400i32, 650i32))
            },
    );
    let shown = path(Step::sent(crate::scroll::spec_fling_up(model)));
    assert forall|i: int| 0 <= i < 12 implies shown[i] == expected[i] by {
        if 0 < i < 11 {
            assert(points[i - 1] == (400i32, (750 - 10 * i) as i32));
        }
    }
    assert(shown =~= expected);
}

/// A swipe is seen as a finger that goes down where it starts, through its 21
/// points, and lifted at the last of them. The points are along the straight
/// line.
pub proof fn law_swipes_are_seen(touch: Touch, from: (i32, i32), to: (i32, i32))
    requires
        touch.mode matches TouchMode::Real { input_device: true, .. },
        -0x8000 <= from.0 <= 0x8000,
        -0x8000 <= from.1 <= 0x8000,
        -0x8000 <= to.0 <= 0x8000,
        -0x8000 <= to.1 <= 0x8000,
    ensures
        ({
            let points = crate::experiment::spec_swipe_points(from, to, 20);
            &&& path(Step::sent(crate::experiment::spec_swipe(touch, from, to))) == seq![
                seen(touch, true, from),
            ] + Seq::new(21, |i: int| seen(touch, true, points[i])) + seq![
                seen(touch, false, to),
            ]
            &&& rests(crate::experiment::spec_swipe(touch, from, to), 21, 10)
            &&& points.len() == 21 && points[0] == from && points[20] == to
            &&& forall|i: int|
                0 <= i <= 20 ==> is_along(#[trigger] points[i], from, to, i, 20)
        }),
{
    let points = crate::experiment::spec_swipe_points(from, to, 20);
    law_dragged_touches_are_seen(touch, from, points, 10);
    crate::mapping::law_swipes_keep_their_ends(from, to, 20);
    assert forall|i: int| 0 <= i <= 20 implies is_along(#[trigger] points[i], from, to, i, 20) by {
        lemma_swipe_point(from, to, i, 20);
    }
}

/// Whether a point is the one `i / steps` of the way between two others, without
/// the fractions, to within an eighth of a pixel on either axis.
pub open spec fn is_along(
    p: (i32, i32),
    from: (i32, i32),
    to: (i32, i32),
    i: int,
    steps: int,
) -> bool {
    let x = from.0 * steps + (to.0 - from.0) * i;
    let y = from.1 * steps + (to.1 - from.1) * i;
    &&& crate::mapping::is_whole_part(p.0 as int, x, steps, 1, 0x4_0000 * steps)
    &&& crate::mapping::is_whole_part(p.1 as int, y, steps, 1, 0x4_0000 * steps)
}

proof fn lemma_swipe_point(from: (i32, i32), to: (i32, i32), i: int, steps: u32)
    requires
        0 <= i <= steps,
        0 < steps < 0x1_0000,
        -0x8000 <= from.0 <= 0x8000,
        -0x8000 <= from.1 <= 0x8000,
        -0x8000 <= to.0 <= 0x8000,
        -0x8000 <= to.1 <= 0x8000,
    ensures
        is_along(
            crate::experiment::spec_swipe_points(from, to, steps)[i],
            from,
            to,
            i,
            steps as int,
        ),
{
    crate::mapping::law_swipes_go_straight(from.0 as int, to.0 as int, i, steps as int);
    crate::mapping::law_swipes_go_straight(from.1 as int, to.1 as int, i, steps as int);
}

/// A swipe of any number of steps starts and ends where it should, keeps to the
/// straight line, and has one point more than it has steps.
pub proof fn law_swipe_points_are_along_the_line(
    from: (i32, i32),
    to: (i32, i32),
    steps: u32,
    i: int,
)
    requires
        0 <= i <= steps,
        0 < steps < 0x1_0000,
        -0x8000 <= from.0 <= 0x8000,
        -0x8000 <= from.1 <= 0x8000,
        -0x8000 <= to.0 <= 0x8000,
        -0x8000 <= to.1 <= 0x8000,
    ensures
        crate::experiment::spec_swipe_points(from, to, steps).len() == steps + 1,
        crate::experiment::spec_swipe_points(from, to, steps)[0] == from,
        crate::experiment::spec_swipe_points(from, to, steps)[steps as int] == to,
        is_along(
            crate::experiment::spec_swipe_points(from, to, steps)[i],
            from,
            to,
            i,
            steps as int,
        ),
{
    lemma_swipe_point(from, to, i, steps);
    crate::mapping::law_swipes_keep_their_ends(from, to, steps);
}

/// A swipe without steps is at its start, and stays there.
pub proof fn law_swipes_without_steps_stay(from: (i32, i32), to: (i32, i32))
    requires
        -0x100_0000 < from.0 < 0x100_0000,
        -0x100_0000 < from.1 < 0x100_0000,
    ensures
        crate::experiment::spec_swipe_points(from, to, 0) == seq![from],
{
    crate::mapping::lemma_no_way(from.0 as int, to.0 as int);
    crate::mapping::lemma_no_way(from.1 as int, to.1 as int);
    assert(crate::experiment::spec_swipe_points(from, to, 0) =~= seq![from]);
}

/// A held swipe is seen as a finger that goes down where it starts, through all
/// of its points, and lifted at the last, and rests `hold_ms` before that.
pub proof fn law_held_swipes_are_seen(
    touch: Touch,
    from: (i32, i32),
    to: (i32, i32),
    steps: u32,
    step_ms: u64,
    hold_ms: u64,
)
    requires
        touch.mode matches TouchMode::Real { input_device: true, .. },
    ensures
        ({
            let plan = crate::experiment::spec_swipe_hold(
                touch,
                from,
                to,
                steps,
                step_ms,
                hold_ms,
            );
            let points = crate::experiment::spec_swipe_points(from, to, steps);
            &&& path(Step::sent(plan)) == seq![seen(touch, true, from)] + Seq::new(
                (steps + 1) as nat,
                |i: int| seen(touch, true, points[i]),
            ) + seq![seen(touch, false, points.last())]
            &&& plan.len() == 2 * points.len() + 5
            &&& plan[2 * points.len() as int + 2] == Step::Pause(hold_ms)
            &&& forall|i: int|
                0 <= i < points.len() ==> #[trigger] plan[2 * i + 3] == Step::Pause(step_ms)
        }),
{
    let start = touch.spec_touch_start(from);
    let points = crate::experiment::spec_swipe_points(from, to, steps);
    let drag = touch.spec_drag(points, step_ms);
    let stop = touch.spec_touch_stop();
    let hold: Seq<Step> = seq![Step::Pause(hold_ms)];
    let plan = crate::experiment::spec_swipe_hold(touch, from, to, steps, step_ms, hold_ms);
    assert(plan =~= ((start + drag) + hold) + stop);
    lemma_sent_of_both((start + drag) + hold, stop);
    lemma_sent_of_both(start + drag, hold);
    lemma_sent_of_both(start + drag, stop);
    lemma_pause_sends_nothing(hold_ms);
    let a = Step::sent(start + drag);
    assert(a + Seq::<InputEvent>::empty() =~= a);
    law_dragged_touches_are_seen(touch, from, points, step_ms);
    law_drags_are_seen(touch, seq![], points, step_ms);
    assert forall|i: int| 0 <= i < points.len() implies #[trigger] plan[2 * i + 3] == Step::Pause(
        step_ms,
    ) by {
        assert(plan[2 * i + 3] == drag[2 * i + 1]);
    }
}

/// Turning to a new page is seen as the swipe from right to left, and a press of
/// the button, with 300 milliseconds after each.
pub proof fn law_new_pages_are_seen(touch: Touch)
    requires
        touch.mode matches TouchMode::Real { input_device: true, .. },
    ensures
        ({
            let plan = crate::experiment::spec_new_page(touch);
            let points = crate::experiment::new_page_points();
            path(Step::sent(plan)) == seq![seen(touch, true, (700, 512))] + Seq::new(
                21,
                |i: int| seen(touch, true, points[i]),
            ) + seq![
                seen(touch, false, points.last()),
                seen(touch, true, (700, 514)),
                seen(touch, false, (700, 514)),
            ]
        }),
        ({
            let plan = crate::experiment::spec_new_page(touch);
            &&& plan.len() == 53
            &&& rests(plan.take(46), 21, 10)
            &&& plan[46] == Step::Pause(300) && plan[52] == Step::Pause(300)
        }),
{
    let start = touch.spec_touch_start((700, 512));
    let points = crate::experiment::new_page_points();
    let drag = touch.spec_drag(points, 10);
    let stop = touch.spec_touch_stop();
    let swipe = start + drag + stop;
    let rest: Seq<Step> = seq![Step::Pause(300)];
    let press = touch.spec_press((700, 514));
    let plan = crate::experiment::spec_new_page(touch);
    assert(plan =~= ((swipe + rest) + press) + rest);
    assert(swipe.len() == 46 ==> plan.take(46) =~= swipe);
    lemma_sent_of_both((swipe + rest) + press, rest);
    lemma_sent_of_both(swipe + rest, press);
    lemma_sent_of_both(swipe, rest);
    lemma_pause_sends_nothing(300);
    let a = Step::sent(swipe);
    let b = Step::sent(press);
    assert(a + Seq::<InputEvent>::empty() =~= a);
    assert((a + b) + Seq::<InputEvent>::empty() =~= a + b);
    law_dragged_touches_are_seen(touch, (700, 512), points, 10);
    law_presses_and_taps_are_seen(touch, a, (700, 514));
    law_drags_are_seen(touch, seq![], points, 10);
    assert(path(a + b) =~= seq![seen(touch, true, (700, 512))] + Seq::new(
        21,
        |i: int| seen(touch, true, points[i]),
    ) + seq![
        seen(touch, false, points.last()),
        seen(touch, true, (700, 514)),
        seen(touch, false, (700, 514)),
    ]);
}

/// A tap with two fingers puts one at its point, and one 50 pixels to the right
/// of and below it, by the map of a reMarkable Paper Pro, and lifts both.
pub proof fn law_two_finger_taps_are_seen(x: i32, y: i32)
    ensures
        ({
            let plan = crate::experiment::spec_two_finger_tap(x as int, y as int);
            let model = DeviceModel::RemarkablePaperPro;
            let (ax, ay) = model.spec_virtual_to_input(x as int, y as int);
            let (bx, by) = model.spec_virtual_to_input(x + 50, y + 50);
            &&& plan.len() == 3
            &&& plan[0] matches Step::Send(pressed)
            &&& is_down_at(pressed, 0, ax, ay) && is_down_at(pressed, 1, bx, by)
            &&& plan[1] == Step::Pause(100)
            &&& plan[2] matches Step::Send(lifted)
            &&& is_lifted(lifted, 0) && is_lifted(lifted, 1)
        }),
{
    law_two_fingers_are_seen(
        crate::experiment::spec_touch_point(x as int, y as int),
        crate::experiment::spec_touch_point(x + 50, y + 50),
    );
}

/// The places that a series of taps at these points is seen at.
pub open spec fn tapped(touch: Touch, points: Seq<(i32, i32)>) -> Seq<Contact> {
    Seq::new(2 * points.len(), |i: int| seen(touch, i % 2 == 0, points[i / 2]))
}

/// Selecting a pen is seen as taps on the pen's slot, twice if another tool is
/// active, on the pen, on its size, on black and on the slot again. For the
/// calligraphy pen the size is medium, for the fineliner thin.
pub proof fn law_pens_are_seen_to_be_selected(touch: Touch, pen_active: bool)
    requires
        touch.mode matches TouchMode::Real { input_device: true, .. },
    ensures
        ({
            let slot = if pen_active {
                seq![(28i32, 91i32)]
            } else {
                seq![(28i32, 91i32), (28i32, 91i32)]
            };
            let rest = seq![(109i32, 478i32), (28i32, 91i32)];
            &&& path(Step::sent(touch.spec_select_calligraphy_pen(pen_active))) == tapped(
                touch,
                slot + seq![(231i32, 197i32), (170i32, 380i32)] + rest,
            )
            &&& path(Step::sent(touch.spec_select_fineliner(pen_active))) == tapped(
                touch,
                slot + seq![(170i32, 136i32), (109i32, 380i32)] + rest,
            )
            &&& path(Step::sent(crate::experiment::spec_ready_fineliner(touch, pen_active)))
                == path(Step::sent(touch.spec_select_fineliner(pen_active)))
            &&& crate::experiment::spec_ready_fineliner(touch, pen_active).last() == Step::Pause(
                500,
            )
        }),
{
    let slot = if pen_active {
        seq![(28i32, 91i32)]
    } else {
        seq![(28i32, 91i32), (28i32, 91i32)]
    };
    let rest = seq![(109i32, 478i32), (28i32, 91i32)];
    let calligraphy = Touch::select_taps(
        pen_active,
        crate::touch::PEN_TYPE_CALLIGRAPHY,
        crate::touch::SETTINGS_SIZE_MEDIUM,
    );
    let fineliner = Touch::select_taps(
        pen_active,
        crate::touch::PEN_TYPE_FINELINER,
        crate::touch::SETTINGS_SIZE_THIN,
    );
    assert(calligraphy =~= slot + seq![(231i32, 197i32), (170i32, 380i32)] + rest);
    assert(fineliner =~= slot + seq![(170i32, 136i32), (109i32, 380i32)] + rest);
    lemma_tapped(touch, calligraphy);
    lemma_tapped(touch, fineliner);
    let plan = touch.spec_select_fineliner(pen_active);
    let wait: Seq<Step> = seq![Step::Pause(500)];
    assert(plan.push(Step::Pause(500)) =~= plan + wait);
    lemma_sent_of_both(plan, wait);
    lemma_pause_sends_nothing(500);
    assert(Step::sent(plan) + Seq::<InputEvent>::empty() =~= Step::sent(plan));
}

proof fn lemma_tapped(touch: Touch, points: Seq<(i32, i32)>)
    requires
        touch.mode matches TouchMode::Real { input_device: true, .. },
    ensures
        path(Step::sent(touch.spec_taps(points))) == tapped(touch, points),
{
    let none = Seq::<InputEvent>::empty();
    law_taps_are_seen(touch, none, points);
    assert(none + Step::sent(touch.spec_taps(points)) =~= Step::sent(touch.spec_taps(points)));
    assert(path(none) + tapped(touch, points) =~= tapped(touch, points));
}

/// The touch at the bottom is a press halfway across the screen, in its last
/// row.
pub proof fn law_the_bottom_is_pressed_in_the_middle(touch: Touch)
    requires
        touch.mode matches TouchMode::Real { input_device: true, .. },
    ensures
        path(Step::sent(touch.spec_tap_middle_bottom())) == seq![
            seen(touch, true, (384, 1023)),
            seen(touch, false, (384, 1023)),
        ],
        touch.spec_tap_middle_bottom().contains(Step::Pause(100)),
{
    let none = Seq::<InputEvent>::empty();
    let plan = touch.spec_tap_middle_bottom();
    law_presses_and_taps_are_seen(touch, none, (384, 1023));
    assert(none + Step::sent(plan) =~= Step::sent(plan));
    assert(path(none) =~= seq![]);
    assert(path(Step::sent(plan)) =~= seq![
        seen(touch, true, (384, 1023)),
        seen(touch, false, (384, 1023)),
    ]);
    assert(touch.spec_tap((384, 1023))[2] == Step::Pause(100));
    assert(plan[2] == Step::Pause(100));
}

} // verus!
