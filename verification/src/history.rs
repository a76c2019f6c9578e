//! The idle trigger, told from what woke the wait.
//!
//! Everything here is read off the series of wakes alone: what the pen reported
//! last, whether it is down, which end of it is in use, and what was written
//! since the diary last drew. The laws say that a wait knows just that.
use vstd::prelude::*;

use crate::binary32::Binary32;
use crate::device::DeviceModel;
use crate::event::EventKind;
use crate::gesture::{
    IdleOutcome, IdleTriggerConfig, IdleWait, IdleWake, IdleWatcher, Point,
};

verus! {

/// What a wake reports of an axis: 0 is x, 1 is y. Nothing that is reported
/// while the diary draws counts.
pub open spec fn axis(wake: IdleWake, code: u16) -> Option<i32> {
    match wake {
        IdleWake::Event { event, drawing: false, .. } => if event.kind == EventKind::Absolute
            && event.code == code {
            Some(event.value)
        } else {
            None
        },
        _ => None,
    }
}

/// What a wake reports of a key: 330 is the tip of the pen, 321 its eraser.
pub open spec fn key(wake: IdleWake, code: u16) -> Option<i32> {
    match wake {
        IdleWake::Event { event, drawing: false, .. } => if event.kind == EventKind::Key
            && event.code == code {
            Some(event.value)
        } else {
            None
        },
        _ => None,
    }
}

/// What a wake says of whether the diary is drawing.
pub open spec fn draws(wake: IdleWake) -> Option<bool> {
    match wake {
        IdleWake::Tick { drawing, .. } => Some(drawing),
        IdleWake::Event { drawing, .. } => Some(drawing),
        _ => None,
    }
}

/// When a wake happened, if it says.
pub open spec fn clock(wake: IdleWake) -> u128 {
    match wake {
        IdleWake::Tick { now, .. } => now,
        IdleWake::Event { now, .. } => now,
        _ => 0,
    }
}

/// Whether the diary was drawing at the last wake that says.
pub open spec fn drew(wakes: Seq<IdleWake>) -> bool
    decreases wakes.len(),
{
    if wakes.len() == 0 {
        false
    } else {
        match draws(wakes.last()) {
            Some(drawing) => drawing,
            None => drew(wakes.drop_last()),
        }
    }
}

/// Whether the last wake is the first after a drawing pass.
pub open spec fn finished(wakes: Seq<IdleWake>) -> bool {
    wakes.len() > 0 && draws(wakes.last()) == Some(false) && drew(wakes.drop_last())
}

/// What the pen last reported of an axis.
pub open spec fn reported(wakes: Seq<IdleWake>, code: u16) -> i32
    decreases wakes.len(),
{
    if wakes.len() == 0 {
        0
    } else {
        match axis(wakes.last(), code) {
            Some(v) => v,
            None => reported(wakes.drop_last(), code),
        }
    }
}

/// Whether the pen reported an axis since the diary last drew.
pub open spec fn known(wakes: Seq<IdleWake>, code: u16) -> bool
    decreases wakes.len(),
{
    wakes.len() > 0 && (axis(wakes.last(), code) is Some || (!finished(wakes) && known(
        wakes.drop_last(),
        code,
    )))
}

/// Whether the eraser end of the pen is in use.
pub open spec fn erasing(wakes: Seq<IdleWake>) -> bool
    decreases wakes.len(),
{
    if wakes.len() == 0 {
        false
    } else {
        match key(wakes.last(), 321) {
            Some(v) => v == 1,
            None => erasing(wakes.drop_last()),
        }
    }
}

/// Whether the pen is down: it went down last, and since then neither drew the
/// diary nor failed the digitizer.
pub open spec fn touching(wakes: Seq<IdleWake>) -> bool
    decreases wakes.len(),
{
    if wakes.len() == 0 {
        false
    } else if key(wakes.last(), 330) == Some(1i32) {
        true
    } else if key(wakes.last(), 330) == Some(0i32) || finished(wakes) {
        false
    } else if wakes.last() is ReadFailed || (wakes.last() matches IdleWake::Event {
        drawing,
        ..
    } && drawing) {
        false
    } else {
        touching(wakes.drop_last())
    }
}

/// Whether the last wake ends a stroke.
pub open spec fn ends(wakes: Seq<IdleWake>) -> bool {
    wakes.len() > 0 && key(wakes.last(), 330) == Some(0i32) && !finished(wakes) && touching(
        wakes.drop_last(),
    )
}

/// When the last stroke ended, of the pen or of its eraser, since the diary last
/// drew.
pub open spec fn ended(wakes: Seq<IdleWake>) -> Option<u128>
    decreases wakes.len(),
{
    if wakes.len() == 0 || finished(wakes) {
        None
    } else if ends(wakes) {
        Some(clock(wakes.last()))
    } else {
        ended(wakes.drop_last())
    }
}

/// Where the last stroke of the pen ended since the diary last drew, as the pen
/// reported it.
pub open spec fn wrote(wakes: Seq<IdleWake>) -> Option<(i32, i32)>
    decreases wakes.len(),
{
    if wakes.len() == 0 || finished(wakes) {
        None
    } else if ends(wakes) && !erasing(wakes) {
        Some((reported(wakes, 0), reported(wakes, 1)))
    } else {
        wrote(wakes.drop_last())
    }
}

/// The same on the virtual screen.
pub open spec fn written_end(model: DeviceModel, wakes: Seq<IdleWake>) -> Point {
    let (x, y) = match wrote(wakes) {
        Some(end) => end,
        None => (0i32, 0i32),
    };
    model.pen_point(x, y)
}

/// Whether the last wake is a report of where the pen is writing.
pub open spec fn traces(wakes: Seq<IdleWake>) -> bool {
    wakes.len() > 0 && (axis(wakes.last(), 0) is Some || axis(wakes.last(), 1) is Some)
        && !finished(wakes) && touching(wakes.drop_last()) && !erasing(wakes.drop_last())
}

/// The axis of the digitizer that runs across the screen.
pub open spec fn axis_across(model: DeviceModel) -> u16 {
    if model == DeviceModel::RemarkablePaperPro {
        0
    } else {
        1
    }
}

/// The axis of the digitizer that runs up or down the screen.
pub open spec fn axis_down(model: DeviceModel) -> u16 {
    if model == DeviceModel::RemarkablePaperPro {
        1
    } else {
        0
    }
}

/// Where the writing since the diary last drew was from left to right, report by
/// report.
pub open spec fn written_across(model: DeviceModel, wakes: Seq<IdleWake>) -> Seq<Binary32>
    decreases wakes.len(),
{
    if wakes.len() == 0 || finished(wakes) {
        seq![]
    } else if traces(wakes) && known(wakes, axis_across(model)) {
        written_across(model, wakes.drop_last()).push(
            model.pen_point(reported(wakes, 0), reported(wakes, 1)).0,
        )
    } else {
        written_across(model, wakes.drop_last())
    }
}

/// Where it was from the top down.
pub open spec fn written_down(model: DeviceModel, wakes: Seq<IdleWake>) -> Seq<Binary32>
    decreases wakes.len(),
{
    if wakes.len() == 0 || finished(wakes) {
        seq![]
    } else if traces(wakes) && known(wakes, axis_down(model)) {
        written_down(model, wakes.drop_last()).push(
            model.pen_point(reported(wakes, 0), reported(wakes, 1)).1,
        )
    } else {
        written_down(model, wakes.drop_last())
    }
}

/// What one wake does to what a wait knows of the pen.
#[verifier::spinoff_prover]
proof fn lemma_step(wait: IdleWait, wake: IdleWake)
    ensures
        ({
            let now = crate::gesture::step(wait, wake);
            let done = draws(wake) == Some(false) && wait.was_drawing;
            let lifts = key(wake, 330) == Some(0i32) && wait.in_stroke && !done;
            &&& now.device_model == wait.device_model && now.config == wait.config
            &&& now.cur_x == match axis(wake, 0) {
                Some(v) => v,
                None => wait.cur_x,
            }
            &&& now.cur_y == match axis(wake, 1) {
                Some(v) => v,
                None => wait.cur_y,
            }
            &&& now.known_x == (axis(wake, 0) is Some || (wait.known_x && !done))
            &&& now.known_y == (axis(wake, 1) is Some || (wait.known_y && !done))
            &&& now.rubber_active == match key(wake, 321) {
                Some(v) => v == 1,
                None => wait.rubber_active,
            }
            &&& now.was_drawing == match draws(wake) {
                Some(drawing) => drawing,
                None => wait.was_drawing,
            }
            &&& now.in_stroke == if key(wake, 330) == Some(1i32) {
                true
            } else if key(wake, 330) == Some(0i32) || done || wake is ReadFailed || (
            wake matches IdleWake::Event { drawing, .. } && drawing) {
                false
            } else {
                wait.in_stroke
            }
            &&& now.last_activity == if done {
                None
            } else if lifts {
                Some(clock(wake))
            } else {
                wait.last_activity
            }
            &&& now.has_new_content == if done {
                false
            } else {
                wait.has_new_content || (lifts && !wait.rubber_active)
            }
            &&& now.last_stroke_end == if done {
                None
            } else if lifts && !wait.rubber_active {
                Some(crate::gesture::place(wait))
            } else {
                wait.last_stroke_end
            }
            &&& wait.forgets(wake) == done
            &&& wait.writes(wake) == ((axis(wake, 0) is Some || axis(wake, 1) is Some) && !done
                && wait.in_stroke && !wait.rubber_active)
        }),
{
    reveal(crate::gesture::step);
    reveal(crate::gesture::place);
}

/// The position of the pen, in other words.
proof fn lemma_place(wait: IdleWait)
    ensures
        crate::gesture::place(wait) == wait.device_model.pen_point(wait.cur_x, wait.cur_y),
{
    reveal(crate::gesture::place);
}

/// What a wait knows, over the series of wakes as a name only.
proof fn lemma_run_knows(model: DeviceModel, config: IdleTriggerConfig, wakes: Seq<IdleWake>)
    ensures
        ({
            let wait = crate::gesture::run(IdleWait::fresh(model, config), wakes);
            &&& wait.device_model == model && wait.config == config
            &&& wait.cur_x == reported(wakes, 0) && wait.cur_y == reported(wakes, 1)
            &&& wait.known_x == known(wakes, 0) && wait.known_y == known(wakes, 1)
            &&& wait.rubber_active == erasing(wakes)
            &&& wait.was_drawing == drew(wakes)
            &&& wait.in_stroke == touching(wakes)
            &&& wait.last_activity == ended(wakes)
            &&& wait.has_new_content == (wrote(wakes) is Some)
            &&& wait.last_stroke_end == match wrote(wakes) {
                Some((x, y)) => Some(model.pen_point(x, y)),
                None => None,
            }
        }),
    decreases wakes.len(),
{
    let start = IdleWait::fresh(model, config);
    crate::gesture::lemma_run(start, wakes);
    if wakes.len() > 0 {
        let earlier = wakes.drop_last();
        lemma_run_knows(model, config, earlier);
        let before = crate::gesture::run(start, earlier);
        lemma_step(before, wakes.last());
        lemma_place(before);
    }
}

/// A wait knows what its wakes say and nothing else: the pen is where it last
/// reported to be, down if it went down last, and used by the end that it was
/// turned to last; and what there is to answer is what was written since the
/// diary last drew.
pub proof fn law_a_wait_knows_its_history(
    model: DeviceModel,
    config: IdleTriggerConfig,
    wakes: Seq<IdleWake>,
)
    ensures
        ({
            let wait = IdleWait::fresh(model, config).after(wakes);
            &&& wait.device_model == model && wait.config == config
            &&& wait.cur_x == reported(wakes, 0) && wait.cur_y == reported(wakes, 1)
            &&& wait.known_x == known(wakes, 0) && wait.known_y == known(wakes, 1)
            &&& wait.rubber_active == erasing(wakes)
            &&& wait.was_drawing == drew(wakes)
            &&& wait.in_stroke == touching(wakes)
            &&& wait.last_activity == ended(wakes)
            &&& wait.has_new_content == (wrote(wakes) is Some)
            &&& wait.last_stroke_end == match wrote(wakes) {
                Some((x, y)) => Some(model.pen_point(x, y)),
                None => None,
            }
        }),
{
    lemma_run_knows(model, config, wakes);
    lemma_after_is_run(model, config, wakes);
}

proof fn lemma_after_is_run(model: DeviceModel, config: IdleTriggerConfig, wakes: Seq<IdleWake>)
    ensures
        IdleWait::fresh(model, config).after(wakes) == crate::gesture::run(
            IdleWait::fresh(model, config),
            wakes,
        ),
{
    reveal(crate::gesture::run);
}

/// Whether at least `ms` milliseconds lie between two times in nanoseconds.
pub open spec fn long_since(since: u128, now: u128, ms: u64) -> bool {
    now - since >= ms * 1_000_000 || ms == 0
}

/// The trigger fires just on a tick outside drawing passes, when the pen is up,
/// something was written with it since the diary last drew, and the last stroke
/// of pen or eraser ended at least the idle delay ago. Its anchor is the place
/// that the pen reported last before the last stroke of its tip ended.
pub proof fn law_the_trigger_follows_the_history(
    model: DeviceModel,
    config: IdleTriggerConfig,
    wakes: Seq<IdleWake>,
    wake: IdleWake,
)
    ensures
        ({
            let outcome = IdleWait::fresh(model, config).after(wakes).outcome(wake);
            &&& outcome is Triggered <==> {
                &&& wake matches IdleWake::Tick { drawing, now }
                &&& !drawing && !drew(wakes) && !touching(wakes)
                &&& wrote(wakes) is Some
                &&& ended(wakes) matches Some(t)
                &&& long_since(t, now, config.idle_delay_ms)
            }
            &&& outcome matches IdleOutcome::Triggered(trigger) ==> trigger.anchor
                == written_end(model, wakes)
        }),
{
    law_a_wait_knows_its_history(model, config, wakes);
    let wait = IdleWait::fresh(model, config).after(wakes);
    lemma_outcome(wait, wake);
}

/// What comes of a wake, by what the wait knows.
#[verifier::spinoff_prover]
proof fn lemma_outcome(wait: IdleWait, wake: IdleWake)
    ensures
        ({
            let done = draws(wake) == Some(false) && wait.was_drawing;
            let outcome = wait.outcome(wake);
            &&& outcome is Triggered <==> {
                &&& wake matches IdleWake::Tick { drawing, now }
                &&& !drawing && !done && !wait.in_stroke && wait.has_new_content
                &&& wait.last_activity matches Some(t)
                &&& long_since(t, now, wait.config.idle_delay_ms)
            }
            &&& outcome is Triggered ==> outcome == IdleOutcome::Triggered(wait.trigger())
            &&& wait.last_stroke_end matches Some(p) ==> wait.trigger().anchor == p
            &&& outcome is Reopen <==> done
            &&& outcome is StrokeEnded <==> !done && key(wake, 330) == Some(0i32)
                && wait.in_stroke
            &&& outcome is StrokeEnded ==> outcome == (IdleOutcome::StrokeEnded {
                eraser: wait.rubber_active,
                at: crate::gesture::place(wait),
            })
            &&& outcome is ReopenAndSettle <==> wake is ReadFailed
            &&& outcome is Cancelled <==> wake is Cancelled
        }),
{
    reveal(crate::gesture::place);
    assert(0u64 * 1_000_000 == 0);
}

/// The other outcomes: the digitizer is opened anew by the first wake after a
/// drawing pass, and after a failure; the end of a stroke is told with the end
/// of the pen that made it and the place of it; and the end of the program is
/// passed on.
pub proof fn law_the_outcome_follows_the_history(
    model: DeviceModel,
    config: IdleTriggerConfig,
    wakes: Seq<IdleWake>,
    wake: IdleWake,
)
    ensures
        ({
            let outcome = IdleWait::fresh(model, config).after(wakes).outcome(wake);
            &&& outcome is Reopen <==> finished(wakes.push(wake))
            &&& outcome is StrokeEnded <==> ends(wakes.push(wake))
            &&& outcome matches IdleOutcome::StrokeEnded { eraser, at } ==> eraser == erasing(wakes)
                && at == model.pen_point(reported(wakes, 0), reported(wakes, 1))
            &&& outcome is ReopenAndSettle <==> wake is ReadFailed
            &&& outcome is Cancelled <==> wake is Cancelled
        }),
{
    law_a_wait_knows_its_history(model, config, wakes);
    let wait = IdleWait::fresh(model, config).after(wakes);
    lemma_outcome(wait, wake);
    lemma_place(wait);
    assert(wakes.push(wake).drop_last() =~= wakes);
}

/// What a wait keeps of the writing, over the series of wakes as a name only.
proof fn lemma_run_keeps(model: DeviceModel, config: IdleTriggerConfig, wakes: Seq<IdleWake>)
    ensures
        ({
            let wait = crate::gesture::run(IdleWait::fresh(model, config), wakes);
            &&& wait.wf()
            &&& wait.keeps(written_across(model, wakes), written_down(model, wakes))
            &&& crate::gesture::all_normal(written_across(model, wakes))
            &&& crate::gesture::all_normal(written_down(model, wakes))
        }),
    decreases wakes.len(),
{
    let start = IdleWait::fresh(model, config);
    crate::gesture::lemma_run(start, wakes);
    if wakes.len() > 0 {
        let earlier = wakes.drop_last();
        lemma_run_keeps(model, config, earlier);
        lemma_run_knows(model, config, earlier);
        lemma_run_knows(model, config, wakes);
        let before = crate::gesture::run(start, earlier);
        let now = crate::gesture::run(start, wakes);
        lemma_step(before, wakes.last());
        crate::gesture::lemma_step_keeps(
            before,
            wakes.last(),
            written_across(model, earlier),
            written_down(model, earlier),
        );
        lemma_place(now);
    }
}

/// The least and the greatest of what was written, on both axes, are the edges
/// of the box that the trigger reports. If one axis was never known, the box is
/// where the writing ended on it; if nothing was traced, the box is a small one
/// around that.
pub proof fn law_the_box_follows_the_history(
    model: DeviceModel,
    config: IdleTriggerConfig,
    wakes: Seq<IdleWake>,
)
    requires
        wrote(wakes) is Some,
    ensures
        ({
            let across = written_across(model, wakes);
            let down = written_down(model, wakes);
            let anchor = written_end(model, wakes);
            let b = IdleWait::fresh(model, config).after(wakes).trigger().bbox;
            &&& across.len() > 0 ==> crate::gesture::is_span(b.0, b.2, across)
            &&& down.len() > 0 ==> crate::gesture::is_span(b.1, b.3, down)
            &&& across.len() == 0 && down.len() > 0 ==> b.0 == anchor.0 && b.2 == anchor.0
            &&& down.len() == 0 && across.len() > 0 ==> b.1 == anchor.1 && b.3 == anchor.1
            &&& across.len() == 0 && down.len() == 0 ==> b == crate::gesture::spec_box_around(
                anchor,
            )
        }),
{
    lemma_run_keeps(model, config, wakes);
    law_a_wait_knows_its_history(model, config, wakes);
    lemma_after_is_run(model, config, wakes);
    let wait = IdleWait::fresh(model, config).after(wakes);
    lemma_trigger_box(wait, written_across(model, wakes), written_down(model, wakes));
}

proof fn lemma_trigger_box(wait: IdleWait, across: Seq<Binary32>, down: Seq<Binary32>)
    requires
        wait.keeps(across, down),
        wait.last_stroke_end is Some,
    ensures
        ({
            let anchor = wait.last_stroke_end->0;
            let b = wait.trigger().bbox;
            &&& across.len() > 0 ==> crate::gesture::is_span(b.0, b.2, across)
            &&& down.len() > 0 ==> crate::gesture::is_span(b.1, b.3, down)
            &&& across.len() == 0 && down.len() > 0 ==> b.0 == anchor.0 && b.2 == anchor.0
            &&& down.len() == 0 && across.len() > 0 ==> b.1 == anchor.1 && b.3 == anchor.1
            &&& across.len() == 0 && down.len() == 0 ==> b == crate::gesture::spec_box_around(
                anchor,
            )
        }),
{
}

/// A watcher waits just if the pen is to be watched and its digitizer was opened
/// at some time, for its device and with its delay; at the start of a wait
/// nothing has happened yet.
pub proof fn law_watchers_wait_where_there_is_a_pen(
    no_gesture: bool,
    config: IdleTriggerConfig,
    log_gestures: bool,
    model: DeviceModel,
    opened: bool,
    reopened: bool,
)
    ensures
        ({
            let watcher = IdleWatcher::spec_new(no_gesture, config, log_gestures, model, opened);
            &&& watcher.spec_wait() is Some <==> !no_gesture && opened
            &&& watcher.spec_reopened(reopened).spec_wait() is Some <==> (!no_gesture && opened)
                || reopened
            &&& watcher.spec_reopened(false) == watcher
            &&& watcher.log_gestures == log_gestures && watcher.spec_reopened(
                reopened,
            ).log_gestures == log_gestures
            &&& watcher.spec_reopened(reopened).spec_wait() matches Some(wait) ==> wait
                == IdleWait::fresh(model, config).after(seq![])
        }),
{
}

} // verus!
