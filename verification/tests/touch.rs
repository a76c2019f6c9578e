use ghostwriter::device::DeviceModel;
use ghostwriter::event::{Action, EventKind, InputEvent, Plan};
use ghostwriter::touch::{
    Touch, TouchMode, TriggerCorner, TriggerOutcome, TriggerWait, TriggerWake, PEN_SLOT,
    PEN_TYPE_CALLIGRAPHY, PEN_TYPE_FINELINER, SETTINGS_COLOR_BLACK, SETTINGS_SIZE_MEDIUM,
    SETTINGS_SIZE_THIN,
};

const MODELS: [DeviceModel; 3] =
    [DeviceModel::Remarkable2, DeviceModel::RemarkablePaperPro, DeviceModel::Unknown];

fn abs(code: u16, value: i32) -> InputEvent {
    InputEvent { kind: EventKind::Absolute, code, value }
}

fn report() -> InputEvent {
    InputEvent { kind: EventKind::Synchronization, code: 0, value: 0 }
}

/// The plan with each batch of events in a list and each pause as a number.
fn steps(plan: &Plan) -> Vec<Result<Vec<InputEvent>, u64>> {
    plan.actions
        .iter()
        .map(|action| match action {
            Action::Send(events) => Ok(events.clone()),
            Action::Pause(ms) => Err(*ms),
        })
        .collect()
}

/// Where fingers go down, in the coordinates of the panel.
fn touched(plan: &Plan) -> Vec<(i32, i32)> {
    let mut points = Vec::new();
    for step in steps(plan) {
        if let Ok(events) = step {
            if events.len() == 9 {
                points.push((events[2].value, events[3].value));
            }
        }
    }
    points
}

fn panel(model: DeviceModel) -> Touch {
    Touch::new(false, TriggerCorner::UpperRight, model)
}

#[test]
fn corners_have_eight_names_in_any_case() {
    for (names, corner) in [
        (["ur", "upper-right", "UR", "Upper-Right"], TriggerCorner::UpperRight),
        (["ul", "upper-left", "Ul", "UPPER-LEFT"], TriggerCorner::UpperLeft),
        (["lr", "lower-right", "LR", "lower-RIGHT"], TriggerCorner::LowerRight),
        (["ll", "lower-left", "lL", "Lower-left"], TriggerCorner::LowerLeft),
    ] {
        for name in names {
            assert_eq!(TriggerCorner::from_string(name).unwrap(), corner, "{}", name);
        }
    }
}

#[test]
fn other_names_are_refused() {
    for name in ["", "upper", "upper right", " ur", "ur ", "urr", "Ür", "u\u{307}r", "ＵＲ"] {
        let error = TriggerCorner::from_string(name).unwrap_err();
        assert_eq!(error.name, name);
        assert_eq!(
            error.message(),
            format!(
                "Invalid trigger corner: {}. Use UR, UL, LR, LL, upper-right, upper-left, \
                 lower-right, or lower-left",
                name
            )
        );
    }
}

#[test]
fn names_are_looked_up_in_lower_case() {
    assert_eq!(TriggerCorner::from_lowercase("ur"), Some(TriggerCorner::UpperRight));
    assert_eq!(TriggerCorner::from_lowercase("UR"), None);
}

#[test]
fn corners_are_squares_of_68_pixels() {
    let inside = |x, y, corner| Touch::is_in_trigger_zone(x, y, corner);
    assert!(inside(701, 67, TriggerCorner::UpperRight));
    assert!(!inside(700, 67, TriggerCorner::UpperRight));
    assert!(!inside(701, 68, TriggerCorner::UpperRight));
    assert!(inside(67, 67, TriggerCorner::UpperLeft));
    assert!(!inside(68, 67, TriggerCorner::UpperLeft));
    assert!(inside(701, 957, TriggerCorner::LowerRight));
    assert!(!inside(701, 956, TriggerCorner::LowerRight));
    assert!(inside(67, 957, TriggerCorner::LowerLeft));
    assert!(!inside(68, 957, TriggerCorner::LowerLeft));
    assert!(inside(-5, -5, TriggerCorner::UpperLeft));
}

#[test]
fn every_point_is_in_one_corner_at_most() {
    let corners = [
        TriggerCorner::UpperRight,
        TriggerCorner::UpperLeft,
        TriggerCorner::LowerRight,
        TriggerCorner::LowerLeft,
    ];
    for x in (-10..800).step_by(3) {
        for y in (-10..1100).step_by(7) {
            let n = corners.iter().filter(|c| Touch::is_in_trigger_zone(x, y, **c)).count();
            assert!(n <= 1);
        }
    }
}

fn coordinates() -> Vec<i32> {
    let mut all: Vec<i32> = (-300..3000).collect();
    all.extend([i32::MIN, i32::MIN + 1, -16777217, 16777217, 1 << 30, i32::MAX - 1, i32::MAX]);
    all
}

#[test]
fn the_virtual_screen_maps_to_the_panel_in_single_precision() {
    for v in coordinates() {
        let across = v as f32 / 768.0;
        let down = v as f32 / 1024.0;
        assert_eq!(
            Touch::virtual_to_input((v, v), DeviceModel::RemarkablePaperPro),
            ((across * 2065.0) as i32, (down * 2833.0) as i32)
        );
        for model in [DeviceModel::Remarkable2, DeviceModel::Unknown] {
            assert_eq!(
                Touch::virtual_to_input((v, v), model),
                ((across * 1404.0) as i32, ((1.0 - down) * 1872.0) as i32)
            );
        }
    }
}

#[test]
fn the_panel_maps_to_the_virtual_screen_in_single_precision() {
    for v in coordinates() {
        assert_eq!(
            Touch::input_to_virtual((v, v), DeviceModel::RemarkablePaperPro),
            (
                (v as f32 / 2065.0 * 768.0) as i32,
                (v as f32 / 2833.0 * 1024.0) as i32
            )
        );
        for model in [DeviceModel::Remarkable2, DeviceModel::Unknown] {
            assert_eq!(
                Touch::input_to_virtual((v, v), model),
                (
                    (v as f32 / 1404.0 * 768.0) as i32,
                    ((1.0 - v as f32 / 1872.0) * 1024.0) as i32
                )
            );
        }
    }
}

#[test]
fn the_middle_of_the_screen_is_the_middle_of_the_panel() {
    assert_eq!(Touch::virtual_to_input((384, 512), DeviceModel::Remarkable2), (702, 936));
    assert_eq!(Touch::input_to_virtual((702, 936), DeviceModel::Remarkable2), (384, 512));
    assert_eq!(
        Touch::virtual_to_input((384, 512), DeviceModel::RemarkablePaperPro),
        (1032, 1416)
    );
}

#[test]
fn a_touch_starts_and_stops_with_these_events() {
    let touch = panel(DeviceModel::Remarkable2);
    assert_eq!(
        steps(&touch.touch_start((384, 512))),
        vec![
            Ok(vec![
                abs(47, 0),
                abs(57, 1),
                abs(53, 702),
                abs(54, 936),
                abs(58, 100),
                abs(48, 17),
                abs(49, 17),
                abs(52, 4),
                report(),
            ]),
            Err(1),
        ]
    );
    assert_eq!(
        steps(&touch.touch_stop()),
        vec![Ok(vec![abs(47, 0), abs(57, -1), report()]), Err(1)]
    );
    assert_eq!(
        steps(&touch.goto_xy((384, 512))),
        vec![Ok(vec![abs(47, 0), abs(57, 1), abs(53, 702), abs(54, 936), report()])]
    );
}

#[test]
fn nothing_is_sent_without_a_device() {
    for touch in [
        Touch::new(true, TriggerCorner::UpperLeft, DeviceModel::Remarkable2),
        Touch::new_simulated(TriggerCorner::UpperLeft),
    ] {
        assert!(steps(&touch.touch_start((1, 2))).is_empty());
        assert!(steps(&touch.touch_stop()).is_empty());
        assert!(steps(&touch.goto_xy((1, 2))).is_empty());
        assert_eq!(steps(&touch.tap((1, 2))), vec![Err(100), Err(300)]);
        assert_eq!(steps(&touch.tap_middle_bottom()), vec![Err(100)]);
    }
}

#[test]
fn taps_hold_and_wait() {
    let touch = panel(DeviceModel::RemarkablePaperPro);
    let pauses: Vec<u64> = steps(&touch.tap((10, 20))).into_iter().filter_map(|s| s.err()).collect();
    assert_eq!(pauses, vec![1, 100, 1, 300]);
    let plan = touch.tap_middle_bottom();
    assert_eq!(
        touched(&plan),
        vec![Touch::virtual_to_input((384, 1023), DeviceModel::RemarkablePaperPro)]
    );
    let pauses: Vec<u64> = steps(&plan).into_iter().filter_map(|s| s.err()).collect();
    assert_eq!(pauses, vec![1, 100, 1]);
}

#[test]
fn the_pen_slot_is_active_when_dark() {
    assert!(Touch::pen_slot_is_active(Some((0, 255, 255))));
    assert!(Touch::pen_slot_is_active(Some((127, 0, 0))));
    assert!(!Touch::pen_slot_is_active(Some((128, 0, 0))));
    assert!(!Touch::pen_slot_is_active(None));
}

#[test]
fn selecting_a_pen_taps_only_verified_places() {
    for model in MODELS {
        let touch = panel(model);
        let at = |points: &[(i32, i32)]| -> Vec<(i32, i32)> {
            points.iter().map(|p| Touch::virtual_to_input(*p, model)).collect()
        };
        let calligraphy = [
            PEN_SLOT,
            PEN_TYPE_CALLIGRAPHY,
            SETTINGS_SIZE_MEDIUM,
            SETTINGS_COLOR_BLACK,
            PEN_SLOT,
        ];
        let fineliner =
            [PEN_SLOT, PEN_TYPE_FINELINER, SETTINGS_SIZE_THIN, SETTINGS_COLOR_BLACK, PEN_SLOT];
        assert_eq!(touched(&touch.select_calligraphy_pen(true)), at(&calligraphy));
        assert_eq!(touched(&touch.select_fineliner(true)), at(&fineliner));
        let mut again = vec![PEN_SLOT];
        again.extend(fineliner);
        assert_eq!(touched(&touch.select_fineliner(false)), at(&again));
    }
    assert_eq!(PEN_SLOT, (28, 91));
    assert_eq!(PEN_TYPE_CALLIGRAPHY, (231, 197));
    assert_eq!(PEN_TYPE_FINELINER, (170, 136));
    assert_eq!(SETTINGS_SIZE_THIN, (109, 380));
    assert_eq!(SETTINGS_SIZE_MEDIUM, (170, 380));
    assert_eq!(SETTINGS_COLOR_BLACK, (109, 478));
}

fn wait(model: DeviceModel, corner: TriggerCorner) -> TriggerWait {
    Touch::new(false, corner, model).wait_for_trigger().unwrap()
}

#[test]
fn a_release_in_the_corner_triggers() {
    let mut wait = wait(DeviceModel::Remarkable2, TriggerCorner::UpperRight);
    assert!(wait.listening);
    assert_eq!(wait.wake(TriggerWake::Event(abs(53, 1390))), TriggerOutcome::Waiting);
    assert_eq!(wait.wake(TriggerWake::Event(abs(54, 1860))), TriggerOutcome::Waiting);
    assert_eq!(wait.wake(TriggerWake::Event(abs(57, 3))), TriggerOutcome::Waiting);
    assert_eq!(wait.wake(TriggerWake::Event(abs(57, -1))), TriggerOutcome::Triggered);
}

#[test]
fn a_release_elsewhere_keeps_waiting() {
    let mut wait = wait(DeviceModel::Remarkable2, TriggerCorner::UpperRight);
    for event in [abs(53, 1390), abs(54, 900), abs(57, -1), abs(54, 1860), abs(53, 700)] {
        assert_eq!(wait.wake(TriggerWake::Event(event)), TriggerOutcome::Waiting);
    }
    assert_eq!((wait.position_x, wait.position_y), (700, 1860));
    assert_eq!(wait.wake(TriggerWake::Event(abs(57, -1))), TriggerOutcome::Waiting);
    assert_eq!(wait.wake(TriggerWake::Event(abs(53, 1400))), TriggerOutcome::Waiting);
    assert_eq!(wait.wake(TriggerWake::Event(abs(57, -1))), TriggerOutcome::Triggered);
}

#[test]
fn a_wait_ends_on_failure_and_on_shutdown() {
    let mut wait = wait(DeviceModel::RemarkablePaperPro, TriggerCorner::LowerLeft);
    let before = wait;
    assert_eq!(wait.wake(TriggerWake::ReadFailed), TriggerOutcome::ReadFailed);
    assert_eq!(wait.wake(TriggerWake::Cancelled), TriggerOutcome::Cancelled);
    assert_eq!(wait, before);
}

#[test]
fn only_a_real_panel_is_waited_on() {
    assert_eq!(Touch::new_simulated(TriggerCorner::UpperLeft).wait_for_trigger(), None);
    let idle = Touch::new(true, TriggerCorner::UpperLeft, DeviceModel::Unknown);
    assert!(!idle.wait_for_trigger().unwrap().listening);
}

#[test]
fn the_corner_can_be_changed() {
    let mut touch = Touch::new_simulated(TriggerCorner::UpperLeft);
    touch.set_trigger_corner(TriggerCorner::LowerRight);
    assert_eq!(touch.trigger_corner, TriggerCorner::LowerRight);
    assert_eq!(touch.mode, TouchMode::Simulated);
}

#[test]
fn devices_have_their_files() {
    assert_eq!(DeviceModel::Remarkable2.touch_input_device(), "/dev/input/event2");
    assert_eq!(DeviceModel::RemarkablePaperPro.touch_input_device(), "/dev/input/event3");
    assert_eq!(DeviceModel::Unknown.touch_input_device(), "/dev/input/event2");
    assert_eq!(DeviceModel::Remarkable2.pen_input_device(), "/dev/input/event1");
    assert_eq!(DeviceModel::RemarkablePaperPro.pen_input_device(), "/dev/input/event2");
    assert_eq!(DeviceModel::Unknown.pen_input_device(), "/dev/input/event1");
}

#[test]
fn screens_have_their_dimensions() {
    assert_eq!(Touch::screen_dimensions(DeviceModel::Remarkable2), (1404, 1872));
    assert_eq!(Touch::screen_dimensions(DeviceModel::RemarkablePaperPro), (2065, 2833));
    assert_eq!(Touch::screen_dimensions(DeviceModel::Unknown), (1404, 1872));
}

#[test]
fn a_panel_that_is_not_read_is_never_triggered() {
    let touch = Touch::new(true, TriggerCorner::UpperLeft, DeviceModel::RemarkablePaperPro);
    let mut wait = touch.wait_for_trigger().unwrap();
    let before = wait;
    for event in [abs(53, 5), abs(54, 5), abs(57, -1)] {
        assert_eq!(wait.wake(TriggerWake::Event(event)), TriggerOutcome::Waiting);
    }
    assert_eq!(wait, before);
    assert_eq!(wait.wake(TriggerWake::Cancelled), TriggerOutcome::Cancelled);
}

#[test]
fn the_corner_that_was_set_last_is_the_one_that_counts() {
    let mut touch = Touch::new(false, TriggerCorner::UpperLeft, DeviceModel::RemarkablePaperPro);
    let mode = touch.mode;
    touch.set_trigger_corner(TriggerCorner::LowerRight);
    assert_eq!(touch.mode, mode);
    let mut wait = touch.wait_for_trigger().unwrap();
    for event in [abs(53, 5), abs(54, 5), abs(57, -1), abs(53, 2060), abs(54, 2830)] {
        assert_eq!(wait.wake(TriggerWake::Event(event)), TriggerOutcome::Waiting);
    }
    assert_eq!(wait.wake(TriggerWake::Event(abs(57, -1))), TriggerOutcome::Triggered);
}
