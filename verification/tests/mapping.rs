use ghostwriter::binary32::Binary32;
use ghostwriter::device::DeviceModel;
use ghostwriter::event::Action;
use ghostwriter::experiment::swipe_points;
use ghostwriter::gesture;
use ghostwriter::touch::{Touch, TriggerCorner, TriggerOutcome, TriggerWake};

const MODELS: [DeviceModel; 3] =
    [DeviceModel::Remarkable2, DeviceModel::RemarkablePaperPro, DeviceModel::Unknown];

fn value(x: Binary32) -> f32 {
    f32::from_bits(x.to_bits())
}

#[test]
fn screen_points_land_on_the_panel_and_come_back() {
    for model in MODELS {
        let (width, height) = Touch::screen_dimensions(model);
        for i in 0..=1024 {
            let (x, y) = (i % 769, i);
            let (tx, ty) = Touch::virtual_to_input((x, y), model);
            assert!(0 <= tx && tx <= width as i32 && 0 <= ty && ty <= height as i32);
            let (vx, vy) = Touch::input_to_virtual((tx, ty), model);
            assert!(x - 1 <= vx && vx <= x, "{} came back as {}", x, vx);
            assert!(y - 1 <= vy && vy <= y, "{} came back as {}", y, vy);
        }
    }
}

#[test]
fn some_points_come_back_one_pixel_short() {
    let there = Touch::virtual_to_input((1, 1), DeviceModel::Remarkable2);
    assert_eq!(there, (1, 1870));
    assert_eq!(Touch::input_to_virtual(there, DeviceModel::Remarkable2), (0, 1));
}

#[test]
fn panel_points_land_on_the_screen() {
    for model in MODELS {
        let (width, height) = Touch::screen_dimensions(model);
        for (x, y) in [(0, 0), (width as i32, height as i32), (1, height as i32 - 1), (700, 900)] {
            let (vx, vy) = Touch::input_to_virtual((x, y), model);
            assert!(0 <= vx && vx <= 768 && 0 <= vy && vy <= 1024);
        }
    }
}

#[test]
fn a_press_in_a_corner_summons_the_diary() {
    let corners = [
        (TriggerCorner::UpperRight, (740, 20)),
        (TriggerCorner::UpperRight, (702, 67)),
        (TriggerCorner::UpperLeft, (0, 0)),
        (TriggerCorner::LowerRight, (767, 1023)),
        (TriggerCorner::LowerLeft, (67, 958)),
    ];
    for model in MODELS {
        for (corner, xy) in corners {
            let touch = Touch::new(false, corner, model);
            let mut wait = touch.wait_for_trigger().unwrap();
            let mut outcomes = Vec::new();
            for action in touch.press(xy).actions {
                if let Action::Send(events) = action {
                    for event in events {
                        outcomes.push(wait.wake(TriggerWake::Event(event)));
                    }
                }
            }
            assert!(outcomes.contains(&TriggerOutcome::Triggered), "{:?} at {:?}", corner, xy);
        }
    }
}

#[test]
fn pen_points_land_on_the_screen() {
    for model in MODELS {
        let (max_x, max_y) = model.pen_max();
        let (across, along) = if model == DeviceModel::RemarkablePaperPro {
            (max_x as i32, max_y as i32)
        } else {
            (max_y as i32, max_x as i32)
        };
        for (x, y) in [(0, 0), (across, along), (across, 0), (0, along), (across - 1, along - 1)] {
            let (a, b) = gesture::input_to_virtual(x, y, model);
            assert!(0.0 <= value(a) && value(a) <= 768.0);
            assert!(0.0 <= value(b) && value(b) <= 1024.0);
        }
    }
}

#[test]
fn swipes_keep_their_ends() {
    for steps in [1, 3, 7, 20, 1000] {
        let points = swipe_points((700, 13), (-5, 16_777_215), steps);
        assert_eq!(points[0], (700, 13));
        assert_eq!(*points.last().unwrap(), (-5, 16_777_215));
    }
}

#[test]
fn swipes_beyond_single_precision_may_miss_their_end() {
    let points = swipe_points((0, 0), (16_777_217, 0), 1);
    assert_eq!(*points.last().unwrap(), (16_777_216, 0));
}

#[test]
fn rounding_is_close_and_keeps_the_order() {
    let three = Binary32::of(3);
    let mut before = 0.0;
    for v in 1..2000 {
        let third = value(Binary32::of(v).over(three)) as f64;
        let exact = v as f64 / 3.0;
        assert!((third - exact).abs() * 16_777_216.0 <= exact);
        assert!(before <= third);
        before = third;
        assert_eq!(Binary32::of(-v).over(three), Binary32::of(v).over(three).negated());
    }
}

#[test]
fn small_integers_and_what_fits_are_exact() {
    for v in [0, 1, -1, 768, 16_777_215, -16_777_215] {
        assert_eq!(Binary32::of(v).to_i32() as i64, v);
    }
    assert_eq!(Binary32::of(16_777_217).to_i32(), 16_777_216);
    assert_eq!(value(Binary32::of(3).over(Binary32::of(8))), 0.375);
}
