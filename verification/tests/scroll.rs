use ghostwriter::device::DeviceModel;
use ghostwriter::event::Action;
use ghostwriter::scroll::{best_shift, fling_up, measure_shift, scroll_up_to_make_room};
use ghostwriter::touch::Touch;

/// Rows of ink that look like nothing else.
fn page(rows: usize) -> Vec<u32> {
    let mut state: u32 = 12345;
    (0..rows)
        .map(|_| {
            state = state.wrapping_mul(1664525).wrapping_add(1013904223);
            (state >> 16) % 345
        })
        .collect()
}

/// The page, scrolled up by `shift` rows with blank rows coming in.
fn scrolled(page: &[u32], shift: i32) -> Vec<u32> {
    (0..page.len() as i32)
        .map(|y| match usize::try_from(y + shift) {
            Ok(from) if from < page.len() => page[from],
            _ => 0,
        })
        .collect()
}

#[test]
fn exact_shifts_are_found() {
    let before = page(1024);
    for shift in [0, 1, 5, 6, 250, 300, 800, 950, -1, -400, -950] {
        assert_eq!(measure_shift(&before, &scrolled(&before, shift)), shift, "{}", shift);
    }
}

#[test]
fn shifts_beyond_reach_are_not_found() {
    let before = page(1024);
    let shift = measure_shift(&before, &scrolled(&before, 960));
    assert!(shift != 960 && (-950..=950).contains(&shift));
}

#[test]
fn short_profiles_have_no_shift() {
    assert_eq!(best_shift(&[], &[]), (0, u64::MAX));
    assert_eq!(best_shift(&page(60), &page(60)), (0, u64::MAX));
    assert_eq!(best_shift(&page(61), &page(61)), (0, 0));
    assert_eq!(best_shift(&page(1024), &page(60)), (0, u64::MAX));
}

#[test]
fn blank_pages_match_at_the_first_shift() {
    assert_eq!(best_shift(&[0; 1024], &[0; 1024]), (-950, 0));
    assert_eq!(best_shift(&[0; 100], &[0; 100]), (-39, 0));
}

#[test]
fn the_cost_is_per_row() {
    // 61 rows each, so that only the shift 0 has enough rows in common.
    let a = [10u32; 61];
    let mut b = [10u32; 61];
    b[0] = 13;
    b[60] = 8;
    assert_eq!(best_shift(&a, &b), (0, 5 * 1024 / 61));
}

#[test]
fn lengths_may_differ() {
    let before = page(900);
    let mut after = scrolled(&before, 100);
    after.truncate(800);
    assert_eq!(measure_shift(&before, &after), 100);
}

#[test]
fn a_fling_goes_up_by_100_pixels() {
    let model = DeviceModel::Remarkable2;
    let plan = fling_up(model);
    let mut expected = vec![(400, 750)];
    expected.extend((1..=10).map(|i| (400, 750 - 10 * i)));
    let mut points = Vec::new();
    let mut pauses = Vec::new();
    for action in &plan.actions {
        match action {
            Action::Send(events) if events.len() > 3 => {
                points.push((events[2].value, events[3].value));
            }
            Action::Send(events) => assert_eq!(events[1].value, -1),
            Action::Pause(ms) => pauses.push(*ms),
        }
    }
    let mapped: Vec<(i32, i32)> =
        expected.into_iter().map(|p| Touch::virtual_to_input(p, model)).collect();
    assert_eq!(points, mapped);
    assert_eq!(pauses, vec![1, 10, 10, 10, 10, 10, 10, 10, 10, 10, 10, 1]);
    assert_eq!(plan.actions.len(), 24);
}

#[test]
fn scrolling_goes_on_until_there_is_room() {
    let before = page(1024);
    let mut attempt = scroll_up_to_make_room(500.5f32.to_bits());
    assert!(attempt.wants_fling());
    assert_eq!(attempt.fling_measured(&before, &scrolled(&before, 250)), 250);
    assert!(attempt.wants_fling());
    assert_eq!(attempt.fling_measured(&before, &scrolled(&before, 250)), 250);
    assert!(attempt.wants_fling());
    assert_eq!(attempt.fling_measured(&before, &scrolled(&before, 6)), 6);
    assert!(!attempt.wants_fling());
    assert_eq!(attempt.total, 506);
}

#[test]
fn scrolling_stops_when_the_page_does_not_move() {
    let before = page(1024);
    let mut attempt = scroll_up_to_make_room(500f32.to_bits());
    assert_eq!(attempt.fling_measured(&before, &scrolled(&before, 5)), 5);
    assert!(!attempt.wants_fling());
    assert_eq!(attempt.total, 0);
}

#[test]
fn scrolling_stops_after_four_flings() {
    let before = page(1024);
    let after = scrolled(&before, 10);
    let mut attempt = scroll_up_to_make_room(f32::INFINITY.to_bits());
    for _ in 0..4 {
        assert!(attempt.wants_fling());
        attempt.fling_measured(&before, &after);
    }
    assert!(!attempt.wants_fling());
    assert_eq!(attempt.total, 40);
}

#[test]
fn no_room_needed_no_scrolling() {
    assert!(!scroll_up_to_make_room(0f32.to_bits()).wants_fling());
    assert!(!scroll_up_to_make_room((-3f32).to_bits()).wants_fling());
    assert!(scroll_up_to_make_room(0.1f32.to_bits()).wants_fling());
    assert!(scroll_up_to_make_room(f32::NAN.to_bits()).wants_fling());
}
