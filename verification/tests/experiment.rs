use ghostwriter::device::DeviceModel;
use ghostwriter::event::{Action, InputEvent, Plan};
use ghostwriter::experiment::{
    circle_steps, dot_points, new_page, ready_fineliner, rect_lines, swipe, swipe_hold,
    swipe_points, text_svg, text_y, triangle_lines, two_finger_tap, virtual_to_touch,
};
use ghostwriter::notebook::parse_number;
use ghostwriter::touch::{Touch, TriggerCorner};

fn panel() -> Touch {
    Touch::new(false, TriggerCorner::UpperRight, DeviceModel::Remarkable2)
}

fn pauses(plan: &Plan) -> Vec<u64> {
    plan.actions
        .iter()
        .filter_map(|action| match action {
            Action::Pause(ms) => Some(*ms),
            Action::Send(_) => None,
        })
        .collect()
}

fn sent(plan: &Plan) -> Vec<Vec<InputEvent>> {
    plan.actions
        .iter()
        .filter_map(|action| match action {
            Action::Send(events) => Some(events.clone()),
            Action::Pause(_) => None,
        })
        .collect()
}

/// The panel positions of all moves, the first touch of each included.
fn moves(plan: &Plan) -> Vec<(i32, i32)> {
    sent(plan)
        .iter()
        .filter(|events| events.len() > 3)
        .map(|events| (events[2].value, events[3].value))
        .collect()
}

fn mapped(points: &[(i32, i32)]) -> Vec<(i32, i32)> {
    points.iter().map(|p| Touch::virtual_to_input(*p, DeviceModel::Remarkable2)).collect()
}

#[test]
fn touches_map_in_single_precision() {
    for v in (-50..1100).chain([i32::MIN, i32::MAX, 16777217]) {
        assert_eq!(
            virtual_to_touch(v, v),
            ((v as f32 / 768.0 * 2065.0) as i32, (v as f32 / 1024.0 * 2833.0) as i32)
        );
    }
    assert_eq!(virtual_to_touch(768, 1024), (2065, 2833));
}

#[test]
fn two_fingers_go_down_and_up_together() {
    let plan = two_finger_tap(384, 512);
    assert_eq!(pauses(&plan), vec![100]);
    let batches = sent(&plan);
    let numbers = |events: &[InputEvent]| -> Vec<(u16, i32)> {
        events.iter().map(|e| (e.code, e.value)).collect()
    };
    let (tx, ty) = virtual_to_touch(384, 512);
    let (tx2, ty2) = virtual_to_touch(434, 562);
    assert_eq!(
        numbers(&batches[0]),
        vec![
            (47, 0), (57, 1), (53, tx), (54, ty), (58, 100), (48, 17), (49, 17), (52, 4),
            (47, 1), (57, 2), (53, tx2), (54, ty2), (58, 100), (48, 17), (49, 17), (52, 4),
            (0, 0),
        ]
    );
    assert_eq!(numbers(&batches[1]), vec![(47, 0), (57, -1), (47, 1), (57, -1), (0, 0)]);
}

#[test]
fn swipes_go_straight_in_single_precision() {
    for (x1, x2) in [(0, 768), (700, 100), (-5, 13), (i32::MIN, -1), (0, i32::MAX), (3, 3)] {
        for steps in [1u32, 2, 3, 7, 20, 1000] {
            let points = swipe_points((x1, x2), (x2, x1 / 2), steps);
            assert_eq!(points.len(), steps as usize + 1);
            for (i, point) in points.iter().enumerate() {
                let t = i as f32 / steps as f32;
                let x = (x1 as f32 + (x2 - x1) as f32 * t) as i32;
                let y = (x2 as f32 + (x1 / 2 - x2) as f32 * t) as i32;
                assert_eq!(*point, (x, y));
            }
        }
    }
}

#[test]
fn a_swipe_without_steps_stays_at_its_start() {
    assert_eq!(swipe_points((5, 6), (70, 80), 0), vec![(5, 6)]);
}

#[test]
fn swipes_take_20_steps() {
    let plan = swipe(&panel(), (0, 0), (100, 200));
    let mut expected = vec![(0, 0)];
    expected.extend((0..=20).map(|i| (5 * i, 10 * i)));
    assert_eq!(moves(&plan), mapped(&expected));
    assert_eq!(pauses(&plan).len(), 23);
    assert!(pauses(&plan)[1..22].iter().all(|ms| *ms == 10));
}

#[test]
fn a_held_swipe_rests_before_the_end() {
    let plan = swipe_hold(&panel(), (0, 0), (10, 0), 2, 30, 700);
    assert_eq!(moves(&plan), mapped(&[(0, 0), (0, 0), (5, 0), (10, 0)]));
    assert_eq!(pauses(&plan), vec![1, 30, 30, 30, 700, 1]);
}

#[test]
fn a_new_page_takes_a_swipe_and_a_touch() {
    let plan = new_page(&panel());
    let mut expected = vec![(700, 512)];
    for i in 0..=20i32 {
        let t = i as f32 / 20.0;
        expected.push(((700.0 - 600.0 * t) as i32, 512));
    }
    expected.push((700, 514));
    assert_eq!(moves(&plan), mapped(&expected));
    let all = pauses(&plan);
    assert_eq!(&all[22..], &[1, 300, 1, 100, 1, 300]);
}

#[test]
fn the_fineliner_is_ready_after_half_a_second() {
    let plan = ready_fineliner(&panel(), true);
    assert_eq!(moves(&plan).len(), 5);
    assert_eq!(pauses(&plan).last(), Some(&500));
}

#[test]
fn rectangles_have_four_lines() {
    assert_eq!(
        rect_lines(1, 2, 3, 4),
        vec![((1, 2), (3, 2)), ((3, 2), (3, 4)), ((3, 4), (1, 4)), ((1, 4), (1, 2))]
    );
}

#[test]
fn triangles_have_three_lines() {
    assert_eq!(
        triangle_lines((1, 2), (3, 4), (5, 6)),
        vec![((1, 2), (3, 4)), ((3, 4), (5, 6)), ((5, 6), (1, 2))]
    );
}

#[test]
fn dots_are_wiggles() {
    assert_eq!(dot_points(5, -7), vec![(5, -7), (6, -6), (7, -5), (5, -7)]);
}

#[test]
fn text_is_placed_by_its_size() {
    assert_eq!(text_y(10, None), 200);
    assert_eq!(text_y(50, None), 200);
    assert_eq!(text_y(51, None), 201);
    assert_eq!(text_y(51, Some(7)), 7);
    assert_eq!(text_y(u32::MAX, Some(7)), 7);
}

#[test]
fn text_becomes_an_svg_document() {
    for (text, size, y) in [("Hello", 40, 200), ("é < œ", 0, 4294967295), ("", 10, 99)] {
        assert_eq!(
            text_svg(text, size, y),
            format!(
                r#"<svg width="768" height="1024" xmlns="http://www.w3.org/2000/svg"><text x="80" y="{}" font-family="sans-serif" font-size="{}" fill="black">{}</text></svg>"#,
                y, size, text
            )
        );
    }
}

#[test]
fn written_numbers_read_back() {
    for n in [0u32, 7, 10, 1203, u32::MAX] {
        let svg = text_svg("", n, 1);
        let digits = svg.split("font-size=\"").nth(1).unwrap().split('"').next().unwrap();
        assert_eq!(parse_number(digits), Some(n as u64));
    }
}

#[test]
fn circles_take_a_step_for_every_three_pixels() {
    assert_eq!(circle_steps(0), 0);
    assert_eq!(circle_steps(1), 3);
    assert_eq!(circle_steps(100), 210);
    assert_eq!(circle_steps(-5), 0);
    for r in (-200..2000).chain([i32::MAX, i32::MIN, 123_456_789]) {
        let circumference = 2.0 * std::f32::consts::PI * r as f32;
        assert_eq!(circle_steps(r), (circumference / 3.0).ceil() as u64, "{}", r);
    }
}
