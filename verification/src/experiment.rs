//! The commands of the experiment tool, as far as they decide anything: what
//! they touch, which lines they draw and what they render.
use vstd::prelude::*;

use crate::binary32::{Binary32, Dyadic};
use crate::device::DeviceModel;
use crate::event::{push_finger_down, push_finger_up, InputEvent, Plan, Step};
use crate::touch::Touch;

verus! {

/// The touch panel that two-finger taps go to, that of a reMarkable Paper Pro.
pub const TOUCH_DEVICE: &'static str = "/dev/input/event3";

/// A point of the virtual screen, on the touch panel of a reMarkable Paper Pro.
pub fn virtual_to_touch(x: i32, y: i32) -> (point: (i32, i32))
    ensures
        (point.0 as int, point.1 as int)
            == DeviceModel::RemarkablePaperPro.spec_virtual_to_input(x as int, y as int),
        point == spec_touch_point(x as int, y as int),
{
    Touch::virtual_to_input((x, y), DeviceModel::RemarkablePaperPro)
}

/// A tap with two fingers, one at a point of the virtual screen.
pub open spec fn spec_two_finger_tap(x: int, y: int) -> Seq<Step> {
    spec_two_fingers(spec_touch_point(x, y), spec_touch_point(x + 50, y + 50))
}

/// Two fingers down at two points of the touch panel, and both up again.
pub open spec fn spec_two_fingers(a: (i32, i32), b: (i32, i32)) -> Seq<Step> {
    seq![
        Step::Send(
            (InputEvent::spec_finger_down(0, 1, a.0, a.1) + InputEvent::spec_finger_down(
                1,
                2,
                b.0,
                b.1,
            )).push(InputEvent::spec_report()),
        ),
        Step::Pause(100),
        Step::Send(
            (InputEvent::spec_finger_up(0) + InputEvent::spec_finger_up(1)).push(
                InputEvent::spec_report(),
            ),
        ),
    ]
}

/// A point of the touch panel of a reMarkable Paper Pro, as the panel gets it.
pub open spec fn spec_touch_point(x: int, y: int) -> (i32, i32) {
    let (tx, ty) = DeviceModel::RemarkablePaperPro.spec_virtual_to_input(x, y);
    (tx as i32, ty as i32)
}

/// Taps with two fingers, one at a point of the virtual screen and one 50
/// pixels below and to the right of it. The tablet undoes the last stroke.
pub fn two_finger_tap(x: i32, y: i32) -> (plan: Plan)
    requires
        x + 50 <= i32::MAX,
        y + 50 <= i32::MAX,
    ensures
        plan@ == spec_two_fingers(
            spec_touch_point(x as int, y as int),
            spec_touch_point(x + 50, y + 50),
        ),
        plan@ == spec_two_finger_tap(x as int, y as int),
{
    let (tx, ty) = virtual_to_touch(x, y);
    let (tx2, ty2) = virtual_to_touch(x + 50, y + 50);
    let mut down: Vec<InputEvent> = Vec::new();
    push_finger_down(&mut down, 0, 1, tx, ty);
    push_finger_down(&mut down, 1, 2, tx2, ty2);
    down.push(InputEvent::report());
    let mut up: Vec<InputEvent> = Vec::new();
    push_finger_up(&mut up, 0);
    push_finger_up(&mut up, 1);
    up.push(InputEvent::report());
    let ghost pressed = (InputEvent::spec_finger_down(0, 1, tx, ty) + InputEvent::spec_finger_down(
        1,
        2,
        tx2,
        ty2,
    )).push(InputEvent::spec_report());
    let ghost lifted = (InputEvent::spec_finger_up(0) + InputEvent::spec_finger_up(1)).push(
        InputEvent::spec_report(),
    );
    assert(down@ =~= pressed);
    assert(up@ =~= lifted);
    let mut plan = Plan::new();
    plan.send(down);
    plan.pause(100);
    plan.send(up);
    plan
}

/// The coordinate `i / steps` of the way from `a` to `b`.
pub open spec fn spec_between(a: int, b: int, i: int, steps: int) -> int {
    Dyadic::of(a).plus(
        Dyadic::of(b - a).times(Dyadic::of(i).over(Dyadic::of(steps))),
    ).to_i32()
}

/// The points of a swipe in `steps` steps, both ends included.
pub open spec fn spec_swipe_points(from: (i32, i32), to: (i32, i32), steps: u32) -> Seq<
    (i32, i32),
> {
    let parts = if steps == 0 {
        1
    } else {
        steps as int
    };
    Seq::new(
        (steps + 1) as nat,
        |i: int|
            (
                spec_between(from.0 as int, to.0 as int, i, parts) as i32,
                spec_between(from.1 as int, to.1 as int, i, parts) as i32,
            ),
    )
}

fn between(a: i32, b: i32, i: u32, steps: u32) -> (r: i32)
    requires
        i32::MIN <= b - a <= i32::MAX,
        0 < steps,
    ensures
        r == spec_between(a as int, b as int, i as int, steps as int),
{
    let part = Binary32::of(i as i64).over(Binary32::of(steps as i64));
    Binary32::of(a as i64).plus(Binary32::of((b - a) as i64).times(part)).to_i32()
}

/// The points of a swipe in `steps` steps, both ends included.
pub fn swipe_points(from: (i32, i32), to: (i32, i32), steps: u32) -> (points: Vec<(i32, i32)>)
    requires
        i32::MIN <= to.0 - from.0 <= i32::MAX,
        i32::MIN <= to.1 - from.1 <= i32::MAX,
    ensures
        points@ == spec_swipe_points(from, to, steps),
{
    let parts: u32 = if steps == 0 {
        1
    } else {
        steps
    };
    let mut points: Vec<(i32, i32)> = Vec::new();
    let mut i: u64 = 0;
    while i <= steps as u64
        invariant
            i <= steps + 1,
            parts == if steps == 0 {
                1
            } else {
                steps as int
            },
            i32::MIN <= to.0 - from.0 <= i32::MAX,
            i32::MIN <= to.1 - from.1 <= i32::MAX,
            points@ =~= spec_swipe_points(from, to, steps).take(i as int),
        decreases steps + 1 - i,
    {
        points.push(
            (
                between(from.0, to.0, i as u32, parts),
                between(from.1, to.1, i as u32, parts),
            ),
        );
        i = i + 1;
    }
    assert(points@ =~= spec_swipe_points(from, to, steps));
    points
}

/// A swipe in 20 steps of ten milliseconds.
pub open spec fn spec_swipe(touch: Touch, from: (i32, i32), to: (i32, i32)) -> Seq<Step> {
    touch.spec_touch_start(from) + touch.spec_drag(spec_swipe_points(from, to, 20), 10)
        + touch.spec_touch_stop()
}

/// A swipe that holds still before the finger is lifted.
pub open spec fn spec_swipe_hold(
    touch: Touch,
    from: (i32, i32),
    to: (i32, i32),
    steps: u32,
    step_ms: u64,
    hold_ms: u64,
) -> Seq<Step> {
    (touch.spec_touch_start(from) + touch.spec_drag(
        spec_swipe_points(from, to, steps),
        step_ms,
    )).push(Step::Pause(hold_ms)) + touch.spec_touch_stop()
}

/// The swipe to the page navigation and the press of its new-page button.
pub open spec fn spec_new_page(touch: Touch) -> Seq<Step> {
    ((touch.spec_touch_start((700, 512)) + touch.spec_drag(new_page_points(), 10)
        + touch.spec_touch_stop()).push(Step::Pause(300)) + touch.spec_press((700, 514))).push(
        Step::Pause(300),
    )
}

/// Swipes between two points of the virtual screen, in 20 steps of ten
/// milliseconds.
pub fn swipe(touch: &Touch, from: (i32, i32), to: (i32, i32)) -> (plan: Plan)
    requires
        i32::MIN <= to.0 - from.0 <= i32::MAX,
        i32::MIN <= to.1 - from.1 <= i32::MAX,
    ensures
        plan@ == touch.spec_touch_start(from) + touch.spec_drag(
            spec_swipe_points(from, to, 20),
            10,
        ) + touch.spec_touch_stop(),
        plan@ == spec_swipe(*touch, from, to),
{
    let points = swipe_points(from, to, 20);
    let mut plan = touch.touch_start(from);
    plan.follow_with(touch.drag(&points, 10));
    plan.follow_with(touch.touch_stop());
    plan
}

/// Swipes slowly, and holds the finger still before lifting it, so that the
/// page is let go without any speed.
pub fn swipe_hold(
    touch: &Touch,
    from: (i32, i32),
    to: (i32, i32),
    steps: u32,
    step_ms: u64,
    hold_ms: u64,
) -> (plan: Plan)
    requires
        i32::MIN <= to.0 - from.0 <= i32::MAX,
        i32::MIN <= to.1 - from.1 <= i32::MAX,
    ensures
        plan@ == (touch.spec_touch_start(from) + touch.spec_drag(
            spec_swipe_points(from, to, steps),
            step_ms,
        )).push(Step::Pause(hold_ms)) + touch.spec_touch_stop(),
        plan@ == spec_swipe_hold(*touch, from, to, steps, step_ms, hold_ms),
{
    let points = swipe_points(from, to, steps);
    let mut plan = touch.touch_start(from);
    plan.follow_with(touch.drag(&points, step_ms));
    plan.pause(hold_ms);
    plan.follow_with(touch.touch_stop());
    plan
}

/// The points of the swipe that turns to a new page: from right to left, 600
/// pixels in 20 steps.
pub open spec fn new_page_points() -> Seq<(i32, i32)> {
    Seq::new(
        21,
        |i: int|
            (
                Dyadic::of(700).plus(
                    Dyadic::of(600).times(Dyadic::of(i).over(Dyadic::of(20))).negated(),
                ).to_i32() as i32,
                512,
            ),
    )
}

/// Turns to a new page: swipes to bring up the page navigation, and touches
/// its new-page button.
pub fn new_page(touch: &Touch) -> (plan: Plan)
    ensures
        plan@ == ((touch.spec_touch_start((700, 512)) + touch.spec_drag(new_page_points(), 10)
            + touch.spec_touch_stop()).push(Step::Pause(300)) + touch.spec_press((700, 514))).push(
            Step::Pause(300),
        ),
        plan@ == spec_new_page(*touch),
{
    let mut points: Vec<(i32, i32)> = Vec::new();
    let mut i: i64 = 0;
    while i <= 20
        invariant
            0 <= i <= 21,
            points@ =~= new_page_points().take(i as int),
        decreases 21 - i,
    {
        let part = Binary32::of(i).over(Binary32::of(20));
        let x = Binary32::of(700).plus(Binary32::of(600).times(part).negated()).to_i32();
        points.push((x, 512));
        i = i + 1;
    }
    assert(points@ =~= new_page_points());
    let mut plan = touch.touch_start((700, 512));
    plan.follow_with(touch.drag(&points, 10));
    plan.follow_with(touch.touch_stop());
    plan.pause(300);
    plan.follow_with(touch.press((700, 514)));
    plan.pause(300);
    plan
}

/// The taps that select the fineliner, and the wait for the palette to close.
pub open spec fn spec_ready_fineliner(touch: Touch, pen_active: bool) -> Seq<Step> {
    touch.spec_select_fineliner(pen_active).push(Step::Pause(500))
}

/// Gets the fineliner ready for a drawing: selects it, and waits for the
/// palette to close.
pub fn ready_fineliner(touch: &Touch, pen_active: bool) -> (plan: Plan)
    ensures
        plan@ == touch.spec_taps(
            Touch::select_taps(
                pen_active,
                crate::touch::PEN_TYPE_FINELINER,
                crate::touch::SETTINGS_SIZE_THIN,
            ),
        ).push(Step::Pause(500)),
        plan@ == spec_ready_fineliner(*touch, pen_active),
{
    let mut plan = touch.select_fineliner(pen_active);
    plan.pause(500);
    plan
}

/// A line between two points of the virtual screen.
pub type Line = ((i32, i32), (i32, i32));

/// The lines around the corners of a shape, each from one corner to the next and
/// the last back to the first.
pub open spec fn is_outline(lines: Seq<Line>, corners: Seq<(i32, i32)>) -> bool {
    &&& lines.len() == corners.len()
    &&& forall|i: int|
        0 <= i < lines.len() ==> #[trigger] lines[i] == (
            corners[i],
            corners[if i + 1 < corners.len() {
                i + 1
            } else {
                0
            }],
        )
}

/// The corners of a rectangle, clockwise from the one that is given first.
pub open spec fn rect_corners(x1: i32, y1: i32, x2: i32, y2: i32) -> Seq<(i32, i32)> {
    seq![(x1, y1), (x2, y1), (x2, y2), (x1, y2)]
}

/// The lines around a rectangle: top, right, bottom and left.
pub fn rect_lines(x1: i32, y1: i32, x2: i32, y2: i32) -> (lines: Vec<Line>)
    ensures
        lines@ == seq![
            ((x1, y1), (x2, y1)),
            ((x2, y1), (x2, y2)),
            ((x2, y2), (x1, y2)),
            ((x1, y2), (x1, y1)),
        ],
        is_outline(lines@, rect_corners(x1, y1, x2, y2)),
{
    let mut lines: Vec<Line> = Vec::new();
    lines.push(((x1, y1), (x2, y1)));
    lines.push(((x2, y1), (x2, y2)));
    lines.push(((x2, y2), (x1, y2)));
    lines.push(((x1, y2), (x1, y1)));
    lines
}

/// The lines around a triangle.
pub fn triangle_lines(a: (i32, i32), b: (i32, i32), c: (i32, i32)) -> (lines: Vec<Line>)
    ensures
        lines@ == seq![(a, b), (b, c), (c, a)],
        is_outline(lines@, seq![a, b, c]),
{
    let mut lines: Vec<Line> = Vec::new();
    lines.push((a, b));
    lines.push((b, c));
    lines.push((c, a));
    lines
}

/// Where the pen goes to draw a dot.
pub open spec fn spec_dot_points(x: i32, y: i32) -> Seq<(i32, i32)> {
    seq![
        (x, y),
        ((x + 1) as i32, (y + 1) as i32),
        ((x + 2) as i32, (y + 2) as i32),
        (x, y),
    ]
}

/// Where the pen goes to draw a dot, once it is down: a small wiggle from the
/// point and back to it.
pub fn dot_points(x: i32, y: i32) -> (points: Vec<(i32, i32)>)
    requires
        x + 2 <= i32::MAX,
        y + 2 <= i32::MAX,
    ensures
        points@ == seq![
            (x, y),
            ((x + 1) as i32, (y + 1) as i32),
            ((x + 2) as i32, (y + 2) as i32),
            (x, y),
        ],
        points@ == spec_dot_points(x, y),
{
    let mut points: Vec<(i32, i32)> = Vec::new();
    points.push((x, y));
    points.push((x + 1, y + 1));
    points.push((x + 2, y + 2));
    points.push((x, y));
    points
}

/// The ratio of a circle's circumference to its radius, in single precision.
pub open spec fn full_turn() -> Dyadic {
    Dyadic { significand: 13176795, exponent: -21 }
}

/// In how many steps a circle is traced.
pub open spec fn spec_circle_steps(r: int) -> int {
    let thirds = full_turn().times(Dyadic::of(r)).over(Dyadic::of(3)).ceiling();
    if thirds < 0 {
        0
    } else {
        thirds
    }
}

/// In how many steps a circle is traced: one for every three pixels of its
/// circumference, or part of three.
pub fn circle_steps(r: i32) -> (steps: u64)
    ensures
        steps == spec_circle_steps(r as int),
        steps == ({
            let thirds = full_turn().times(Dyadic::of(r as int)).over(Dyadic::of(3)).ceiling();
            if thirds < 0 {
                0
            } else {
                thirds
            }
        }),
{
    let turn = Binary32 { significand: 13176795, exponent: -21 };
    let thirds: i64 = turn.times(Binary32::of(r as i64)).over(Binary32::of(3)).ceiling();
    if thirds < 0 {
        0
    } else {
        thirds as u64
    }
}

/// How far down the page text of a size is written.
pub open spec fn spec_text_y(font_size: u32, y: Option<u32>) -> int {
    match y {
        Some(y) => y as int,
        None => if font_size + 150 >= 200 {
            font_size + 150
        } else {
            200
        },
    }
}

/// How far down the page text of a size is written, unless it is said.
pub fn text_y(font_size: u32, y: Option<u32>) -> (at: u32)
    requires
        y is None ==> font_size + 150 <= u32::MAX,
    ensures
        at == match y {
            Some(y) => y as int,
            None => if font_size + 150 >= 200 {
                font_size + 150
            } else {
                200
            },
        },
        at == spec_text_y(font_size, y),
{
    match y {
        Some(y) => y,
        None => if font_size + 150 >= 200 {
            font_size + 150
        } else {
            200
        },
    }
}

/// The digits of a number, in decimal.
pub open spec fn decimal_text(n: nat) -> Seq<char>
    decreases n,
{
    let last = (n % 10 + '0' as nat) as char;
    if n < 10 {
        seq![last]
    } else {
        decimal_text(n / 10).push(last)
    }
}

/// Writes a number in decimal at the end of a text.
fn push_decimal(text: &mut String, n: u32)
    ensures
        final(text)@ == old(text)@ + decimal_text(n as nat),
    decreases n,
{
    if n >= 10 {
        push_decimal(text, n / 10);
    }
    let last: u8 = (n % 10) as u8 + 48;
    text.push(last as char);
    assert(text@ =~= old(text)@ + decimal_text(n as nat));
}

/// A page with one line of text on it.
pub open spec fn spec_text_svg(text: Seq<char>, font_size: u32, y: u32) -> Seq<char> {
    "<svg width=\"768\" height=\"1024\" xmlns=\"http://www.w3.org/2000/svg\"><text x=\"80\" y=\""@
        + decimal_text(y as nat) + "\" font-family=\"sans-serif\" font-size=\""@ + decimal_text(
        font_size as nat,
    ) + "\" fill=\"black\">"@ + text + "</text></svg>"@
}

/// A page with one line of text on it, as an SVG document.
pub fn text_svg(text: &str, font_size: u32, y: u32) -> (svg: String)
    ensures
        svg@ == spec_text_svg(text@, font_size, y),
{
    let mut svg: String = String::new();
    svg.append(
        "<svg width=\"768\" height=\"1024\" xmlns=\"http://www.w3.org/2000/svg\"><text x=\"80\" y=\"",
    );
    push_decimal(&mut svg, y);
    svg.append("\" font-family=\"sans-serif\" font-size=\"");
    push_decimal(&mut svg, font_size);
    svg.append("\" fill=\"black\">");
    svg.append(text);
    svg.append("</text></svg>");
    assert(svg@ =~= spec_text_svg(text@, font_size, y));
    svg
}

/// A number written in decimal reads back as itself.
pub proof fn law_decimal_text_reads_back(n: nat)
    requires
        n <= u64::MAX,
    ensures
        crate::notebook::number(decimal_text(n)) == Some(n as u64),
{
    lemma_decimal_text(n);
    let text = decimal_text(n);
    assert(text[0] != '+');
    assert(crate::notebook::unsigned_part(text) =~= text);
}

proof fn lemma_decimal_text(n: nat)
    ensures
        decimal_text(n).len() > 0,
        crate::notebook::all_digits(decimal_text(n)),
        crate::notebook::decimal(decimal_text(n)) == n,
        crate::notebook::is_digit(decimal_text(n)[0]),
    decreases n,
{
    let text = decimal_text(n);
    let last = (n % 10 + '0' as nat) as char;
    if n < 10 {
        assert(text.drop_last() =~= seq![]);
        reveal_with_fuel(crate::notebook::decimal, 2);
    } else {
        lemma_decimal_text(n / 10);
        assert(text.drop_last() =~= decimal_text(n / 10));
        assert forall|i: int| 0 <= i < text.len() implies crate::notebook::is_digit(
            #[trigger] text[i],
        ) by {
            if i < text.len() - 1 {
                assert(text[i] == decimal_text(n / 10)[i]);
            }
        }
    }
}

/// A shape is drawn in one go: each line starts where the one before it ended,
/// and the last ends where the first started.
pub proof fn law_outlines_are_closed(lines: Seq<Line>, corners: Seq<(i32, i32)>, i: int)
    requires
        is_outline(lines, corners),
        0 <= i < lines.len(),
    ensures
        lines[i].0 == corners[i],
        i + 1 < lines.len() ==> lines[i + 1].0 == lines[i].1,
        lines[0].0 == lines[lines.len() - 1].1,
{
    assert(lines[lines.len() - 1].1 == corners[0]);
    assert(lines[0].0 == corners[0]);
    if i + 1 < lines.len() {
        assert(lines[i + 1].0 == corners[i + 1]);
    }
}

/// The sides of a rectangle run along the axes, between the corners that were
/// given.
pub proof fn law_rectangles_have_right_angles(x1: i32, y1: i32, x2: i32, y2: i32)
    ensures
        ({
            let c = rect_corners(x1, y1, x2, y2);
            &&& c.len() == 4 && c[0] == (x1, y1) && c[2] == (x2, y2)
            &&& c[0].1 == c[1].1 && c[1].0 == c[2].0
            &&& c[2].1 == c[3].1 && c[3].0 == c[0].0
        }),
{
}

/// A dot starts and ends at its point, and goes two pixels away from it on both
/// axes, one at a time.
pub proof fn law_dots_are_wiggles(x: i32, y: i32, i: int)
    requires
        x + 2 <= i32::MAX,
        y + 2 <= i32::MAX,
        0 <= i < 3,
    ensures
        spec_dot_points(x, y).len() == 4,
        spec_dot_points(x, y)[i].0 == x + i && spec_dot_points(x, y)[i].1 == y + i,
        spec_dot_points(x, y)[3] == (x, y),
{
}

/// Text is written where it is said, or far enough down for its size: 150 pixels
/// and its own size, but never less than 200.
pub proof fn law_text_has_room(font_size: u32, y: u32)
    ensures
        spec_text_y(font_size, Some(y)) == y,
        spec_text_y(font_size, None) >= 200,
        spec_text_y(font_size, None) >= font_size + 150,
        spec_text_y(font_size, None) == 200 || spec_text_y(font_size, None) == font_size + 150,
{
}

/// The text stands in its page as it is, before the end of the two elements, and
/// nothing else in the page depends on it.
pub proof fn law_text_stands_in_its_page(text: Seq<char>, font_size: u32, y: u32)
    ensures
        ({
            let page = spec_text_svg(text, font_size, y);
            let blank = spec_text_svg(seq![], font_size, y);
            let n = blank.len() - "</text></svg>"@.len();
            &&& blank.skip(n) == "</text></svg>"@
            &&& page == blank.take(n) + text + "</text></svg>"@
        }),
{
    let blank = spec_text_svg(seq![], font_size, y);
    let end = "</text></svg>"@;
    let n = blank.len() - end.len();
    let page = spec_text_svg(text, font_size, y);
    assert(blank.skip(n) =~= end);
    assert(page =~= blank.take(n) + text + end);
}

/// The height and the size stand in the page in decimal, each between the same
/// words.
pub proof fn law_numbers_stand_in_their_page(text: Seq<char>, font_size: u32, y: u32)
    ensures
        ({
            let head =
                "<svg width=\"768\" height=\"1024\" xmlns=\"http://www.w3.org/2000/svg\"><text x=\"80\" y=\""@;
            let middle = "\" font-family=\"sans-serif\" font-size=\""@;
            let tail = "\" fill=\"black\">"@ + text + "</text></svg>"@;
            let page = spec_text_svg(text, font_size, y);
            let at = page.skip(head.len() as int).take(decimal_text(y as nat).len() as int);
            let size = page.take(page.len() - tail.len()).skip(
                head.len() + at.len() + middle.len() as int,
            );
            &&& page.take(head.len() as int) == head
            &&& crate::notebook::number(at) == Some(y as u64)
            &&& crate::notebook::number(size) == Some(font_size as u64)
        }),
{
    let head =
        "<svg width=\"768\" height=\"1024\" xmlns=\"http://www.w3.org/2000/svg\"><text x=\"80\" y=\""@;
    let middle = "\" font-family=\"sans-serif\" font-size=\""@;
    let tail = "\" fill=\"black\">"@ + text + "</text></svg>"@;
    let page = spec_text_svg(text, font_size, y);
    let dy = decimal_text(y as nat);
    let df = decimal_text(font_size as nat);
    assert(page =~= head + dy + middle + df + tail);
    assert(page.take(head.len() as int) =~= head);
    assert(page.skip(head.len() as int).take(dy.len() as int) =~= dy);
    assert(page.take(page.len() - tail.len()).skip(head.len() + dy.len() + middle.len() as int)
        =~= df);
    law_decimal_text_reads_back(y as nat);
    law_decimal_text_reads_back(font_size as nat);
}

/// Decimal text has no plus sign and no leading zero.
pub proof fn law_decimal_text_is_short(n: nat)
    ensures
        decimal_text(n).len() > 0,
        n > 0 ==> decimal_text(n)[0] != '0',
        forall|i: int|
            0 <= i < decimal_text(n).len() ==> 48 <= (#[trigger] decimal_text(n)[i]) as int <= 57,
    decreases n,
{
    lemma_decimal_text(n);
    assert forall|i: int| 0 <= i < decimal_text(n).len() implies 48 <= (#[trigger] decimal_text(
        n,
    )[i]) as int <= 57 by {
        assert(crate::notebook::is_digit(decimal_text(n)[i]));
    }
    if n >= 10 {
        law_decimal_text_is_short(n / 10);
        assert(decimal_text(n)[0] == decimal_text(n / 10)[0]);
    }
}

/// Two-finger taps go to the touch panel of the device whose map they use.
pub proof fn law_two_finger_taps_go_to_their_panel()
    ensures
        TOUCH_DEVICE@ == DeviceModel::RemarkablePaperPro.spec_touch_input_device(),
{
}

} // verus!
