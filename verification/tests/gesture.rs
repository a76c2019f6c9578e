use ghostwriter::binary32::Binary32;
use ghostwriter::device::DeviceModel;
use ghostwriter::event::{EventKind, InputEvent};
use ghostwriter::gesture::{
    expand_bbox, input_to_virtual, Bounds, IdleOutcome, IdleTrigger, IdleTriggerConfig, IdleWait,
    IdleWake, IdleWatcher, Point,
};

const MS: u128 = 1_000_000;

fn f(x: Binary32) -> f32 {
    f32::from_bits(x.to_bits())
}

fn point(p: Point) -> (f32, f32) {
    (f(p.0), f(p.1))
}

fn bounds(b: Bounds) -> (f32, f32, f32, f32) {
    (f(b.0), f(b.1), f(b.2), f(b.3))
}

fn key(code: u16, value: i32) -> InputEvent {
    InputEvent { kind: EventKind::Key, code, value }
}

fn abs(code: u16, value: i32) -> InputEvent {
    InputEvent { kind: EventKind::Absolute, code, value }
}

const DOWN: InputEvent = InputEvent { kind: EventKind::Key, code: 330, value: 1 };
const UP: InputEvent = InputEvent { kind: EventKind::Key, code: 330, value: 0 };

fn paper_pro(x: i32, y: i32) -> (f32, f32) {
    (x as f32 / 11180.0 * 768.0, y as f32 / 15340.0 * 1024.0)
}

fn wait() -> IdleWait {
    IdleWatcher::new(
        false,
        IdleTriggerConfig::default(),
        false,
        DeviceModel::RemarkablePaperPro,
        true,
    )
    .wait_for_idle_trigger()
    .unwrap()
}

fn feed(wait: &mut IdleWait, now: u128, event: InputEvent) -> IdleOutcome {
    wait.wake(IdleWake::Event { event, drawing: false, now: now * MS })
}

fn tick(wait: &mut IdleWait, now: u128) -> IdleOutcome {
    wait.wake(IdleWake::Tick { drawing: false, now: now * MS })
}

/// A stroke from one point to another that ends at `now`.
fn stroke(wait: &mut IdleWait, now: u128, from: (i32, i32), to: (i32, i32)) {
    for event in [abs(0, from.0), abs(1, from.1), DOWN, abs(0, to.0), abs(1, to.1)] {
        assert_eq!(feed(wait, now, event), IdleOutcome::Waiting);
    }
    assert!(matches!(feed(wait, now, UP), IdleOutcome::StrokeEnded { .. }));
}

fn fired(outcome: IdleOutcome) -> IdleTrigger {
    match outcome {
        IdleOutcome::Triggered(trigger) => trigger,
        other => panic!("{:?}", other),
    }
}

#[test]
fn the_default_delay_is_three_and_a_half_seconds() {
    assert_eq!(IdleTriggerConfig::default(), IdleTriggerConfig { idle_delay_ms: 3500 });
}

#[test]
fn pen_positions_map_in_single_precision() {
    let mut all: Vec<i32> = (-100..21000).step_by(7).collect();
    all.extend([i32::MIN, i32::MAX, 11180, 15340, 15725, 20966, 16777217]);
    for v in all {
        for w in [0, 1, v, 7777] {
            assert_eq!(
                point(input_to_virtual(v, w, DeviceModel::RemarkablePaperPro)),
                paper_pro(v, w)
            );
            for model in [DeviceModel::Remarkable2, DeviceModel::Unknown] {
                assert_eq!(
                    point(input_to_virtual(v, w, model)),
                    (w as f32 / 15725.0 * 768.0, (1.0 - v as f32 / 20966.0) * 1024.0)
                );
            }
        }
    }
}

#[test]
fn the_corners_of_the_digitizer_are_those_of_the_screen() {
    assert_eq!(
        point(input_to_virtual(11180, 15340, DeviceModel::RemarkablePaperPro)),
        (768.0, 1024.0)
    );
    assert_eq!(point(input_to_virtual(20966, 15725, DeviceModel::Remarkable2)), (768.0, 0.0));
    assert_eq!(point(input_to_virtual(0, 0, DeviceModel::Remarkable2)), (0.0, 1024.0));
}

#[test]
fn boxes_grow_to_hold_points() {
    let p = |x, y| (Binary32::of(x), Binary32::of(y));
    let mut bbox = None;
    expand_bbox(&mut bbox, p(5, -3));
    assert_eq!(bounds(bbox.unwrap()), (5.0, -3.0, 5.0, -3.0));
    expand_bbox(&mut bbox, p(2, 7));
    assert_eq!(bounds(bbox.unwrap()), (2.0, -3.0, 5.0, 7.0));
    expand_bbox(&mut bbox, p(3, 3));
    assert_eq!(bounds(bbox.unwrap()), (2.0, -3.0, 5.0, 7.0));
    expand_bbox(&mut bbox, p(0, 0));
    assert_eq!(bounds(bbox.unwrap()), (0.0, -3.0, 5.0, 7.0));
}

#[test]
fn rested_writing_triggers_with_its_end_and_its_box() {
    let mut wait = wait();
    stroke(&mut wait, 1000, (2000, 3000), (4000, 1000));
    assert_eq!(tick(&mut wait, 4499), IdleOutcome::Waiting);
    let trigger = fired(tick(&mut wait, 4500));
    assert_eq!(point(trigger.anchor), paper_pro(4000, 1000));
    let (x1, y0) = paper_pro(4000, 1000);
    let (_, y1) = paper_pro(4000, 3000);
    assert_eq!(bounds(trigger.bbox), (x1, y0, x1, y1));
}

#[test]
fn any_stroke_restarts_the_clock() {
    let mut wait = wait();
    stroke(&mut wait, 0, (100, 100), (200, 200));
    stroke(&mut wait, 3000, (300, 300), (400, 400));
    assert_eq!(tick(&mut wait, 3500), IdleOutcome::Waiting);
    assert_eq!(tick(&mut wait, 6499), IdleOutcome::Waiting);
    let trigger = fired(tick(&mut wait, 6500));
    assert_eq!(point(trigger.anchor), paper_pro(400, 400));
}

#[test]
fn a_long_stroke_is_not_silence() {
    let mut wait = wait();
    stroke(&mut wait, 0, (100, 100), (200, 200));
    feed(&mut wait, 1000, DOWN);
    assert_eq!(tick(&mut wait, 9000), IdleOutcome::Waiting);
    feed(&mut wait, 9001, UP);
    assert_eq!(tick(&mut wait, 12500), IdleOutcome::Waiting);
    fired(tick(&mut wait, 12501));
}

#[test]
fn hovering_moves_neither_anchor_nor_box() {
    let mut wait = wait();
    stroke(&mut wait, 0, (100, 100), (200, 200));
    feed(&mut wait, 10, abs(0, 9000));
    feed(&mut wait, 10, abs(1, 9000));
    let trigger = fired(tick(&mut wait, 3500));
    assert_eq!(point(trigger.anchor), paper_pro(200, 200));
    assert_eq!(f(trigger.bbox.2), paper_pro(200, 200).0);
}

#[test]
fn erasing_is_not_writing() {
    let mut wait = wait();
    feed(&mut wait, 0, key(321, 1));
    for event in [DOWN, abs(0, 5000), UP] {
        feed(&mut wait, 0, event);
    }
    assert!(wait.last_activity.is_some());
    assert_eq!(wait.content_bbox, None);
    assert_eq!(tick(&mut wait, 60_000), IdleOutcome::Waiting);
    feed(&mut wait, 60_000, key(321, 0));
    stroke(&mut wait, 60_001, (1, 1), (2, 2));
    fired(tick(&mut wait, 63_501));
}

#[test]
fn erasing_restarts_the_clock() {
    let mut wait = wait();
    stroke(&mut wait, 0, (1, 1), (2, 2));
    feed(&mut wait, 3000, key(321, 1));
    feed(&mut wait, 3000, DOWN);
    assert_eq!(
        feed(&mut wait, 3000, UP),
        IdleOutcome::StrokeEnded {
            eraser: true,
            at: input_to_virtual(2, 2, DeviceModel::RemarkablePaperPro),
        }
    );
    assert_eq!(tick(&mut wait, 6499), IdleOutcome::Waiting);
    fired(tick(&mut wait, 6500));
}

#[test]
fn the_diary_does_not_answer_itself() {
    let mut wait = wait();
    stroke(&mut wait, 0, (1, 1), (2, 2));
    for event in [DOWN, abs(0, 8000), abs(1, 8000), UP] {
        let wake = IdleWake::Event { event, drawing: true, now: 10 * MS };
        assert_eq!(wait.wake(wake), IdleOutcome::Waiting);
    }
    assert_eq!(wait.wake(IdleWake::Tick { drawing: true, now: 9000 * MS }), IdleOutcome::Waiting);
    assert_eq!(tick(&mut wait, 9001), IdleOutcome::Reopen);
    assert!(!wait.has_new_content);
    assert_eq!(wait.content_bbox, None);
    assert_eq!(tick(&mut wait, 99_999), IdleOutcome::Waiting);
}

#[test]
fn a_report_after_drawing_leaves_nothing_to_answer() {
    let mut wait = wait();
    stroke(&mut wait, 0, (1, 1), (2, 2));
    wait.wake(IdleWake::Event { event: abs(0, 5000), drawing: true, now: 10 * MS });
    assert!(wait.was_drawing);
    assert_eq!(feed(&mut wait, 20, abs(0, 7)), IdleOutcome::Reopen);
    assert!(!wait.was_drawing && !wait.has_new_content && !wait.in_stroke);
    assert_eq!(wait.content_bbox, None);
    assert_eq!(wait.cur_x, 7);
    assert_eq!(tick(&mut wait, 3500), IdleOutcome::Waiting);
    assert_eq!(tick(&mut wait, 99_999), IdleOutcome::Waiting);
}

#[test]
fn a_stroke_under_way_does_not_outlive_a_drawing() {
    let mut wait = wait();
    stroke(&mut wait, 0, (1, 1), (2, 2));
    feed(&mut wait, 5, DOWN);
    wait.wake(IdleWake::Tick { drawing: true, now: 10 * MS });
    assert_eq!(feed(&mut wait, 20, UP), IdleOutcome::Reopen);
    assert_eq!(tick(&mut wait, 99_999), IdleOutcome::Waiting);
}

#[test]
fn writing_may_begin_right_after_a_drawing() {
    let mut wait = wait();
    stroke(&mut wait, 0, (1, 1), (2, 2));
    wait.wake(IdleWake::Tick { drawing: true, now: 10 * MS });
    assert_eq!(feed(&mut wait, 20, DOWN), IdleOutcome::Reopen);
    feed(&mut wait, 21, abs(0, 5590));
    feed(&mut wait, 21, abs(1, 7670));
    feed(&mut wait, 22, UP);
    let trigger = fired(tick(&mut wait, 3522));
    assert_eq!(point(trigger.anchor), (384.0, 512.0));
    assert_eq!(bounds(trigger.bbox), (384.0, 512.0, 384.0, 512.0));
}

#[test]
fn the_box_waits_for_both_axes() {
    let mut wait = wait();
    let report = InputEvent { kind: EventKind::Synchronization, code: 0, value: 0 };
    for event in [DOWN, abs(0, 5590), abs(1, 7670), report, UP] {
        feed(&mut wait, 0, event);
    }
    let trigger = fired(tick(&mut wait, 3500));
    assert_eq!(point(trigger.anchor), (384.0, 512.0));
    assert_eq!(bounds(trigger.bbox), (384.0, 512.0, 384.0, 512.0));
}

#[test]
fn what_is_known_of_one_axis_is_kept() {
    let mut wait = wait();
    for event in [DOWN, abs(0, 8385), abs(0, 5590), abs(1, 7670), UP] {
        feed(&mut wait, 0, event);
    }
    let trigger = fired(tick(&mut wait, 3500));
    assert_eq!(bounds(trigger.bbox), (384.0, 512.0, 576.0, 512.0));
}

#[test]
fn an_axis_that_is_never_reported_stays_where_it_was() {
    let mut wait = wait();
    for event in [DOWN, abs(0, 5590), abs(0, 8385), UP] {
        feed(&mut wait, 0, event);
    }
    let trigger = fired(tick(&mut wait, 3500));
    assert_eq!(point(trigger.anchor), (576.0, 0.0));
    assert_eq!(bounds(trigger.bbox), (384.0, 0.0, 576.0, 0.0));
}

#[test]
fn the_x_of_a_remarkable_2_runs_up_the_page() {
    let model = DeviceModel::Remarkable2;
    let mut wait = IdleWatcher::new(false, IdleTriggerConfig::default(), false, model, true)
        .wait_for_idle_trigger()
        .unwrap();
    for event in [DOWN, abs(0, 0), abs(0, 10483), abs(1, 15725), UP] {
        feed(&mut wait, 0, event);
    }
    let trigger = fired(tick(&mut wait, 3500));
    assert_eq!(bounds(trigger.bbox), (768.0, 512.0, 768.0, 1024.0));
}

#[test]
fn an_eraser_stroke_only_delays_the_answer() {
    let answers = |erase: bool| {
        let mut wait = wait();
        stroke(&mut wait, 0, (100, 100), (200, 300));
        if erase {
            let moves = [key(321, 1), DOWN, abs(0, 9000), abs(1, 9000), UP, key(321, 0)];
            for event in moves {
                feed(&mut wait, 3000, event);
            }
            assert_eq!(tick(&mut wait, 6499), IdleOutcome::Waiting);
        }
        fired(tick(&mut wait, 6500))
    };
    assert_eq!(answers(true), answers(false));
}

#[test]
fn a_touch_without_movement_gets_a_small_box() {
    let mut wait = wait();
    for event in [abs(0, 5590), abs(1, 7670), DOWN, UP] {
        feed(&mut wait, 0, event);
    }
    let trigger = fired(tick(&mut wait, 3500));
    assert_eq!(point(trigger.anchor), (384.0, 512.0));
    assert_eq!(bounds(trigger.bbox), (334.0, 482.0, 434.0, 522.0));
}

#[test]
fn a_read_failure_ends_the_stroke() {
    let mut wait = wait();
    feed(&mut wait, 0, DOWN);
    assert_eq!(wait.wake(IdleWake::ReadFailed), IdleOutcome::ReopenAndSettle);
    assert!(!wait.in_stroke);
    assert_eq!(feed(&mut wait, 1, UP), IdleOutcome::Waiting);
    assert!(!wait.has_new_content);
}

#[test]
fn a_shutdown_ends_the_wait() {
    let mut wait = wait();
    let before = wait;
    assert_eq!(wait.wake(IdleWake::Cancelled), IdleOutcome::Cancelled);
    assert_eq!(wait, before);
}

#[test]
fn reports_of_no_interest_change_nothing() {
    let mut wait = wait();
    let before = wait;
    for event in [
        abs(24, 7),
        key(320, 1),
        key(330, 2),
        InputEvent { kind: EventKind::Synchronization, code: 0, value: 0 },
        InputEvent { kind: EventKind::Other(4), code: 0, value: 9 },
    ] {
        assert_eq!(feed(&mut wait, 0, event), IdleOutcome::Waiting);
    }
    assert_eq!(wait, before);
}

#[test]
fn a_delay_can_be_none_or_endless() {
    let start = |idle_delay_ms| {
        let config = IdleTriggerConfig { idle_delay_ms };
        IdleWatcher::new(false, config, false, DeviceModel::RemarkablePaperPro, true)
            .wait_for_idle_trigger()
            .unwrap()
    };
    let mut now = start(0);
    stroke(&mut now, 5, (1, 1), (2, 2));
    fired(tick(&mut now, 5));
    fired(tick(&mut now, 4));
    let mut never = start(u64::MAX);
    stroke(&mut never, 5, (1, 1), (2, 2));
    assert_eq!(tick(&mut never, u64::MAX as u128), IdleOutcome::Waiting);
}

#[test]
fn a_watcher_without_a_digitizer_does_not_wait() {
    let config = IdleTriggerConfig::default();
    for (no_gesture, opened) in [(true, true), (true, false), (false, false)] {
        let watcher = IdleWatcher::new(no_gesture, config, true, DeviceModel::Unknown, opened);
        assert!(!watcher.event_stream);
        assert_eq!(watcher.wait_for_idle_trigger(), None);
    }
}

#[test]
fn a_failed_reopening_keeps_the_digitizer() {
    let config = IdleTriggerConfig::default();
    let mut watcher = IdleWatcher::new(false, config, true, DeviceModel::Unknown, true);
    watcher.reopen_stream(false);
    assert!(watcher.event_stream);
    let mut blind = IdleWatcher::new(false, config, true, DeviceModel::Unknown, false);
    blind.reopen_stream(true);
    assert!(blind.event_stream);
}
