//! What the coordinate maps keep: where points of one space land in another,
//! and how much of a point comes back from a round trip.
use vstd::arithmetic::power2::*;
use vstd::prelude::*;

use crate::binary32::Dyadic;
use crate::device::DeviceModel;
use crate::event::{InputEvent, Step, ABS_MT_POSITION_X, ABS_MT_POSITION_Y};
use crate::touch::{
    Touch, TouchMode, TriggerOutcome, TriggerWait, TriggerWake, VIRTUAL_HEIGHT, VIRTUAL_WIDTH,
};

verus! {

/// The errors of a multiplication by `to`, and of what is multiplied, put
/// together. Everything is in units of `1 / s`: `q` stands for `w / from`, `kept`
/// is that rounded once more and `r` the product.
proof fn lemma_errors(w: int, from: int, to: int, s: int, q: int, kept: int, r: int)
    requires
        0 <= w <= from,
        0 < from,
        512 <= to <= 4096,
        s > 0,
        -(from * s) <= (q * from - w * s) * 0x100_0000 <= from * s,
        -2 * s <= (kept - q) * 0x100_0000 <= 2 * s,
        -3 * s <= kept <= 3 * s,
        crate::binary32::magnitude(r - kept * to) * 0x100_0000 <= crate::binary32::magnitude(
            kept * to,
        ),
    ensures
        -(from * s) <= (r * from - (w * to) * s) * 512 <= from * s,
        -s < r < 8192 * s,
{
    let fs = from * s;
    let a = q * from - w * s;
    let b = kept - q;
    let c = r - kept * to;
    let exact = (w * to) * s;
    assert(fs > 0) by (nonlinear_arith)
        requires
            fs == from * s,
            from > 0,
            s > 0,
    ;
    assert(-12288 * s <= kept * to <= 12288 * s) by (nonlinear_arith)
        requires
            -3 * s <= kept <= 3 * s,
            0 < to <= 4096,
            s > 0,
    ;
    assert(-12288 * s <= c * 0x100_0000 <= 12288 * s);
    let e1 = a * to;
    let e2 = (b * from) * to;
    let e3 = c * from;
    assert(r * from == exact + e1 + e2 + e3) by (nonlinear_arith)
        requires
            r == kept * to + c,
            kept == q + b,
            a == q * from - w * s,
            exact == (w * to) * s,
            e1 == a * to,
            e2 == (b * from) * to,
            e3 == c * from,
    ;
    assert(-4096 * fs <= e1 * 0x100_0000 <= 4096 * fs) by (nonlinear_arith)
        requires
            e1 == a * to,
            -fs <= a * 0x100_0000 <= fs,
            0 < to <= 4096,
            fs > 0,
    ;
    assert(-2 * fs <= (b * from) * 0x100_0000 <= 2 * fs) by (nonlinear_arith)
        requires
            -2 * s <= b * 0x100_0000 <= 2 * s,
            fs == from * s,
            from > 0,
    ;
    let bf = b * from;
    assert(-8192 * fs <= e2 * 0x100_0000 <= 8192 * fs) by (nonlinear_arith)
        requires
            e2 == bf * to,
            -2 * fs <= bf * 0x100_0000 <= 2 * fs,
            0 < to <= 4096,
            fs > 0,
    ;
    assert(-12288 * fs <= e3 * 0x100_0000 <= 12288 * fs) by (nonlinear_arith)
        requires
            e3 == c * from,
            -12288 * s <= c * 0x100_0000 <= 12288 * s,
            fs == from * s,
            from > 0,
    ;
    assert(0 <= exact <= 4096 * fs) by (nonlinear_arith)
        requires
            exact == (w * to) * s,
            fs == from * s,
            0 <= w <= from,
            0 < to <= 4096,
            s > 0,
    ;
    assert(-s < r < 8192 * s) by (nonlinear_arith)
        requires
            -fs < r * from < 8192 * fs,
            fs == from * s,
            from > 0,
    ;
}

/// A coordinate that is scaled is the exact one without its fraction, to within
/// one part in 512 of a pixel.
proof fn lemma_scaled(v: int, from: int, to: int, turned: bool)
    requires
        0 <= v <= from,
        512 <= from <= 4096,
        512 <= to <= 4096,
    ensures
        ({
            let exact = if turned {
                (from - v) * to
            } else {
                v * to
            };
            let r = crate::touch::scaled(v, from, to, turned);
            &&& 0 <= r
            &&& (r * from - exact) * 512 <= from
            &&& (exact - (r + 1) * from) * 512 < from
        }),
{
    let k: nat = 256;
    let s = pow2(k) as int;
    lemma_pow2_pos(k);
    Dyadic::lemma_of(v);
    Dyadic::lemma_of(1);
    crate::rounding::law_small_integers_are_exact(v, k);
    crate::rounding::law_small_integers_are_exact(1, k);
    let part = Dyadic::of(v).over(Dyadic::of(from));
    Dyadic::of(v).lemma_over_units(from, k);
    Dyadic::lemma_of(from);
    Dyadic::of(v).lemma_over(Dyadic::of(from));
    let p = part.units(k);
    let kept = if turned {
        Dyadic::of(1).plus(part.negated())
    } else {
        part
    };
    let x = pow2((part.exponent + k) as nat);
    lemma_pow2_pos((part.exponent + k) as nat);
    assert((-part.significand) * x == -(part.significand * x)) by (nonlinear_arith);
    assert(p >= 0) by (nonlinear_arith)
        requires
            p == part.significand * x,
            part.significand >= 0,
            x > 0,
    ;
    if turned {
        Dyadic::of(1).lemma_plus_units(part.negated(), k);
    }
    let q = kept.units(k);
    assert(-100 <= kept.exponent <= 80) by {
        if turned {
            Dyadic::of(1).lemma_plus(part.negated());
        }
    }
    kept.lemma_times_units(to, k);
    let product = kept.times(Dyadic::of(to));
    let r = product.units(k);
    assert(v * s >= 0) by (nonlinear_arith)
        requires
            v >= 0,
            s > 0,
    ;
    assert(v * s <= from * s) by (nonlinear_arith)
        requires
            v <= from,
            s > 0,
    ;
    assert(0x100_0000 * p <= 0x100_0001 * s) by (nonlinear_arith)
        requires
            (p * from - v * s) * 0x100_0000 <= v * s,
            v * s <= from * s,
            from > 0,
    ;
    let (w, q0) = if turned {
        (from - v, s - p)
    } else {
        (v, p)
    };
    assert((s - p) * from - (from - v) * s == -(p * from - v * s)) by (nonlinear_arith);
    lemma_errors(w, from, to, s, q0, q, r);
    crate::rounding::lemma_truncated_units(product, k);
    let t = product.truncated();
    let exact = w * to;
    assert(exact >= 0) by (nonlinear_arith)
        requires
            exact == w * to,
            0 <= w,
            to > 0,
    ;
    if r >= 0 {
        assert(0 <= t < 8192) by (nonlinear_arith)
            requires
                t * s <= r < (t + 1) * s,
                0 <= r < 8192 * s,
                s > 0,
        ;
        assert((t * from - exact) * 512 <= from) by (nonlinear_arith)
            requires
                t * s <= r,
                (r * from - exact * s) * 512 <= from * s,
                s > 0,
                from > 0,
        ;
        assert((exact - (t + 1) * from) * 512 < from) by (nonlinear_arith)
            requires
                r < (t + 1) * s,
                (exact * s - r * from) * 512 <= from * s,
                s > 0,
                from > 0,
        ;
    } else {
        assert(t == 0) by (nonlinear_arith)
            requires
                (t - 1) * s < r <= t * s,
                -s < r < 0,
                s > 0,
        ;
        assert((exact - from) * 512 < from) by (nonlinear_arith)
            requires
                r < 0,
                (exact * s - r * from) * 512 <= from * s,
                s > 0,
                from > 0,
        ;
    }
}

/// A point of the virtual screen lands on the touch panel.
pub proof fn law_screen_points_are_on_the_panel(model: DeviceModel, x: int, y: int)
    requires
        0 <= x <= VIRTUAL_WIDTH,
        0 <= y <= VIRTUAL_HEIGHT,
    ensures
        0 <= model.spec_virtual_to_input(x, y).0 <= model.spec_screen_dimensions().0,
        0 <= model.spec_virtual_to_input(x, y).1 <= model.spec_screen_dimensions().1,
{
    let (width, height) = model.spec_screen_dimensions();
    lemma_scaled(x, VIRTUAL_WIDTH as int, width as int, false);
    lemma_scaled(y, VIRTUAL_HEIGHT as int, height as int, model.touch_y_turned());
}

/// A point of the touch panel lands on the virtual screen.
pub proof fn law_panel_points_are_on_the_screen(model: DeviceModel, x: int, y: int)
    requires
        0 <= x <= model.spec_screen_dimensions().0,
        0 <= y <= model.spec_screen_dimensions().1,
    ensures
        0 <= model.spec_input_to_virtual(x, y).0 <= VIRTUAL_WIDTH,
        0 <= model.spec_input_to_virtual(x, y).1 <= VIRTUAL_HEIGHT,
{
    let (width, height) = model.spec_screen_dimensions();
    lemma_scaled(x, width as int, VIRTUAL_WIDTH as int, false);
    lemma_scaled(y, height as int, VIRTUAL_HEIGHT as int, model.touch_y_turned());
}

/// A point of the virtual screen comes back from the touch panel, or the pixel
/// before it on either axis does.
pub proof fn law_touches_come_back(model: DeviceModel, x: int, y: int)
    requires
        0 <= x <= VIRTUAL_WIDTH,
        0 <= y <= VIRTUAL_HEIGHT,
    ensures
        ({
            let (tx, ty) = model.spec_virtual_to_input(x, y);
            let (vx, vy) = model.spec_input_to_virtual(tx, ty);
            x - 1 <= vx <= x && y - 1 <= vy <= y
        }),
{
    let (width, height) = model.spec_screen_dimensions();
    let turned = model.touch_y_turned();
    let (tx, ty) = model.spec_virtual_to_input(x, y);
    law_screen_points_are_on_the_panel(model, x, y);
    lemma_scaled(x, VIRTUAL_WIDTH as int, width as int, false);
    lemma_scaled(y, VIRTUAL_HEIGHT as int, height as int, turned);
    lemma_scaled(tx, width as int, VIRTUAL_WIDTH as int, false);
    lemma_scaled(ty, height as int, VIRTUAL_HEIGHT as int, turned);
}

/// What a press sends: the finger down, and up again.
proof fn lemma_press_sends(touch: Touch, xy: (i32, i32))
    requires
        touch.mode matches TouchMode::Real { input_device: true, .. },
    ensures
        ({
            let model = touch.mode->device_model;
            let (x, y) = model.spec_virtual_to_input(xy.0 as int, xy.1 as int);
            Step::sent(touch.spec_press(xy)) == InputEvent::spec_finger_down(
                0,
                1,
                x as i32,
                y as i32,
            ).push(InputEvent::spec_report()) + InputEvent::spec_finger_up(0).push(
                InputEvent::spec_report(),
            )
        }),
{
    let start = touch.spec_touch_start(xy);
    let stop = touch.spec_touch_stop();
    let plan = touch.spec_press(xy);
    assert(plan.len() == 5);
    assert(plan.drop_last() =~= plan.take(4));
    assert(plan.take(4).drop_last() =~= plan.take(3));
    assert(plan.take(3).drop_last() =~= plan.take(2));
    assert(plan.take(2).drop_last() =~= plan.take(1));
    assert(plan.take(1).drop_last() =~= plan.take(0));
    reveal_with_fuel(Step::sent, 6);
}

/// A press in a corner of the screen, a pixel or more from the rest of it,
/// summons the diary: the panel reports the events that the press sends, and
/// the release among them ends the wait for that corner.
pub proof fn law_a_pressed_corner_summons(touch: Touch, wait: TriggerWait, xy: (i32, i32)) -> (i:
    int)
    requires
        touch.mode matches TouchMode::Real { input_device: true, device_model, .. } && device_model
            == wait.device_model,
        wait.listening,
        0 <= xy.0 <= VIRTUAL_WIDTH,
        0 <= xy.1 <= VIRTUAL_HEIGHT,
        wait.trigger_corner.holds(xy.0 as int, xy.1 as int),
        wait.trigger_corner.holds(xy.0 - 1, xy.1 - 1),
    ensures
        ({
            let events = Step::sent(touch.spec_press(xy));
            &&& 0 <= i < events.len()
            &&& TriggerWait::is_release(events[i])
            &&& wait.after(events.take(i)).outcome(TriggerWake::Event(events[i]))
                == TriggerOutcome::Triggered
        }),
{
    let model = wait.device_model;
    let (x, y) = model.spec_virtual_to_input(xy.0 as int, xy.1 as int);
    let events = Step::sent(touch.spec_press(xy));
    lemma_press_sends(touch, xy);
    law_screen_points_are_on_the_panel(model, xy.0 as int, xy.1 as int);
    law_touches_come_back(model, xy.0 as int, xy.1 as int);
    let i = 10int;
    let seen = events.take(i + 1);
    assert(seen.drop_last() =~= events.take(i));
    crate::touch::law_wait_holds_the_last_position(wait, events.take(i));
    crate::touch::law_wait_holds_the_last_position(wait, seen);
    assert(crate::touch::last_value(seen, ABS_MT_POSITION_Y, wait.position_y) == y) by {
        reveal_with_fuel(crate::touch::last_value, 9);
    }
    assert(crate::touch::last_value(seen, ABS_MT_POSITION_X, wait.position_x) == x) by {
        reveal_with_fuel(crate::touch::last_value, 10);
    }
    i
}

/// A position of the pen within the digitizer's range is on the virtual screen.
pub proof fn law_pen_points_are_on_the_screen(model: DeviceModel, x: int, y: int)
    requires
        ({
            let (max_x, max_y) = model.spec_pen_max();
            if model == DeviceModel::RemarkablePaperPro {
                0 <= x <= max_x && 0 <= y <= max_y
            } else {
                0 <= y <= max_x && 0 <= x <= max_y
            }
        }),
    ensures
        ({
            let (a, b) = model.spec_pen_to_virtual(x, y);
            &&& Dyadic::of(0).at_most(a) && a.at_most(Dyadic::of(VIRTUAL_WIDTH as int))
            &&& Dyadic::of(0).at_most(b) && b.at_most(Dyadic::of(VIRTUAL_HEIGHT as int))
        }),
{
    let (max_x, max_y) = model.spec_pen_max();
    if model == DeviceModel::RemarkablePaperPro {
        lemma_pen_axis(x, max_x as int, VIRTUAL_WIDTH as int, false);
        lemma_pen_axis(y, max_y as int, VIRTUAL_HEIGHT as int, false);
    } else {
        lemma_pen_axis(y, max_x as int, VIRTUAL_WIDTH as int, false);
        lemma_pen_axis(x, max_y as int, VIRTUAL_HEIGHT as int, true);
    }
}

/// A position within an axis of the digitizer is within that of the screen.
proof fn lemma_pen_axis(v: int, from: int, to: int, turned: bool)
    requires
        0 <= v <= from,
        512 <= from < 0x1_0000,
        512 <= to <= 4096,
    ensures
        ({
            let part = Dyadic::of(v).over(Dyadic::of(from));
            let kept = if turned {
                Dyadic::of(1).plus(part.negated())
            } else {
                part
            };
            let r = kept.times(Dyadic::of(to));
            Dyadic::of(0).at_most(r) && r.at_most(Dyadic::of(to))
        }),
{
    let k: nat = 256;
    let s = pow2(k) as int;
    lemma_pow2_pos(k);
    Dyadic::lemma_of(v);
    Dyadic::lemma_of(1);
    Dyadic::lemma_of(from);
    Dyadic::lemma_of(to);
    crate::rounding::law_small_integers_are_exact(v, k);
    crate::rounding::law_small_integers_are_exact(1, k);
    crate::rounding::law_small_integers_are_exact(0, k);
    crate::rounding::law_small_integers_are_exact(to, k);
    let part = Dyadic::of(v).over(Dyadic::of(from));
    Dyadic::of(v).lemma_over_units(from, k);
    Dyadic::of(v).lemma_over(Dyadic::of(from));
    assert(v * s <= from * s) by (nonlinear_arith)
        requires
            v <= from,
            s > 0,
    ;
    let kept = if turned {
        Dyadic::of(1).plus(part.negated())
    } else {
        part
    };
    let x = pow2((part.exponent + k) as nat);
    lemma_pow2_pos((part.exponent + k) as nat);
    let p = part.units(k);
    assert((-part.significand) * x == -(part.significand * x)) by (nonlinear_arith);
    assert(p >= 0) by (nonlinear_arith)
        requires
            p == part.significand * x,
            part.significand >= 0,
            x > 0,
    ;
    if turned {
        Dyadic::of(1).lemma_plus_units(part.negated(), k);
        Dyadic::of(1).lemma_plus(part.negated());
    }
    kept.lemma_times_units(to, k);
    let r = kept.times(Dyadic::of(to));
    let y = pow2((r.exponent + k) as nat);
    lemma_pow2_pos((r.exponent + k) as nat);
    assert(r.units(k) >= 0) by (nonlinear_arith)
        requires
            r.units(k) == r.significand * y,
            r.significand >= 0,
            y > 0,
    ;
    assert(0 * s == 0) by (nonlinear_arith);
    Dyadic::lemma_of(0);
    crate::rounding::lemma_at_most_units(Dyadic::of(0), r, k);
    crate::rounding::lemma_at_most_units(r, Dyadic::of(to), k);
}

/// A number of whole units is kept whole.
proof fn lemma_whole(d: Dyadic, v: int, k: nat)
    requires
        d.exponent + k >= 0,
        d.units(k) == v * pow2(k),
        i32::MIN <= v <= i32::MAX,
    ensures
        d.to_i32() == v,
{
    crate::rounding::lemma_truncated_units(d, k);
    let s = pow2(k) as int;
    let t = d.truncated();
    lemma_pow2_pos(k);
    assert(t == v) by (nonlinear_arith)
        requires
            s > 0,
            v * s >= 0 ==> t * s <= v * s < (t + 1) * s,
            v * s <= 0 ==> (t - 1) * s < v * s <= t * s,
    ;
}

/// The way from `a` to `b` starts at `a` and ends at `b`.
proof fn lemma_between(a: int, b: int, steps: int)
    requires
        -0x100_0000 < a < 0x100_0000,
        -0x100_0000 < b < 0x100_0000,
        -0x100_0000 < b - a < 0x100_0000,
        0 < steps <= u32::MAX,
    ensures
        crate::experiment::spec_between(a, b, 0, steps) == a,
        crate::experiment::spec_between(a, b, steps, steps) == b,
{
    let k: nat = 256;
    let s = pow2(k) as int;
    lemma_pow2_pos(k);
    let da = Dyadic::of(a);
    let diff = Dyadic::of(b - a);
    let n = Dyadic::of(steps);
    let none = Dyadic { significand: 0, exponent: 0 };
    Dyadic::lemma_of(a);
    Dyadic::lemma_of(b - a);
    Dyadic::lemma_of(steps);
    crate::rounding::law_small_integers_are_exact(a, k);
    crate::rounding::law_small_integers_are_exact(b - a, k);
    // At the start nothing is added.
    assert(Dyadic::of(0).over(n) == none);
    assert(diff.significand * 0 == 0);
    assert(diff.times(none) == none);
    assert(0 * s == 0) by (nonlinear_arith);
    crate::rounding::lemma_sum_fits(da, none, a, k);
    lemma_whole(da.plus(none), a, k);
    // At the end all of the difference is.
    let one = n.over(n);
    n.lemma_over(n);
    let d = n.significand as nat;
    assert(n.significand * s == d * (1 * s)) by (nonlinear_arith)
        requires
            n.significand == d,
    ;
    crate::rounding::law_what_fits_is_exact(n.significand, d, 0, 1, 0, k);
    let way = diff.times(one);
    diff.lemma_times(one);
    crate::rounding::lemma_product_fits(diff, one, b - a, k);
    assert((b - a) * s + a * s == b * s) by (nonlinear_arith);
    crate::rounding::lemma_sum_fits(da, way, b, k);
    lemma_whole(da.plus(way), b, k);
}

/// None of the way from `a` is `a`.
pub(crate) proof fn lemma_no_way(a: int, b: int)
    requires
        -0x100_0000 < a < 0x100_0000,
    ensures
        crate::experiment::spec_between(a, b, 0, 1) == a,
{
    let k: nat = 256;
    let s = pow2(k) as int;
    lemma_pow2_pos(k);
    Dyadic::lemma_of(a);
    crate::rounding::law_small_integers_are_exact(a, k);
    let none = Dyadic { significand: 0, exponent: 0 };
    let da = Dyadic::of(a);
    let part = Dyadic::of(0).over(Dyadic::of(1));
    assert(part == none);
    let way = Dyadic::of(b - a).times(part);
    assert(Dyadic::of(b - a).significand * 0 == 0);
    assert(way == none);
    assert(0 * s == 0);
    crate::rounding::lemma_sum_fits(da, way, a, k);
    lemma_whole(da.plus(way), a, k);
}

/// A swipe starts and ends where it was asked to.
pub proof fn law_swipes_keep_their_ends(from: (i32, i32), to: (i32, i32), steps: u32)
    requires
        0 < steps,
        -0x100_0000 < from.0 < 0x100_0000,
        -0x100_0000 < from.1 < 0x100_0000,
        -0x100_0000 < to.0 < 0x100_0000,
        -0x100_0000 < to.1 < 0x100_0000,
        -0x100_0000 < to.0 - from.0 < 0x100_0000,
        -0x100_0000 < to.1 - from.1 < 0x100_0000,
    ensures
        crate::experiment::spec_swipe_points(from, to, steps).first() == from,
        crate::experiment::spec_swipe_points(from, to, steps).last() == to,
{
    lemma_between(from.0 as int, to.0 as int, steps as int);
    lemma_between(from.1 as int, to.1 as int, steps as int);
}

/// A touch goes where it should on the panel: to within a pixel, and never
/// beyond, of the same part of the panel's width and height. The panel of a
/// reMarkable 2 is 1404 wide and 1872 high and its y axis runs up the page; that
/// of a reMarkable Paper Pro is 2065 wide and 2833 high.
pub proof fn law_touches_go_where_they_should(model: DeviceModel, x: int, y: int)
    requires
        0 <= x <= 768,
        0 <= y <= 1024,
    ensures
        ({
            let (tx, ty) = model.spec_virtual_to_input(x, y);
            let (width, height, along) = if model == DeviceModel::RemarkablePaperPro {
                (2065int, 2833int, y)
            } else {
                (1404int, 1872int, 1024 - y)
            };
            &&& (tx * 768 - x * width) * 512 <= 768
            &&& (x * width - (tx + 1) * 768) * 512 < 768
            &&& (ty * 1024 - along * height) * 512 <= 1024
            &&& (along * height - (ty + 1) * 1024) * 512 < 1024
        }),
{
    let (width, height) = model.spec_screen_dimensions();
    lemma_scaled(x, 768, width as int, false);
    lemma_scaled(y, 1024, height as int, model.touch_y_turned());
}

/// A touch is read where it is: the same of the way back.
pub proof fn law_touches_are_read_where_they_are(model: DeviceModel, x: int, y: int)
    requires
        0 <= x <= model.spec_screen_dimensions().0,
        0 <= y <= model.spec_screen_dimensions().1,
    ensures
        ({
            let (vx, vy) = model.spec_input_to_virtual(x, y);
            let (width, height, along) = if model == DeviceModel::RemarkablePaperPro {
                (2065int, 2833int, y)
            } else {
                (1404int, 1872int, 1872 - y)
            };
            &&& (vx * width - x * 768) * 512 <= width
            &&& (x * 768 - (vx + 1) * width) * 512 < width
            &&& (vy * height - along * 1024) * 512 <= height
            &&& (along * 1024 - (vy + 1) * height) * 512 < height
        }),
{
    let (width, height) = model.spec_screen_dimensions();
    lemma_scaled(x, width as int, 768, false);
    lemma_scaled(y, height as int, 1024, model.touch_y_turned());
}

/// Across and down do not mix: each coordinate of a touch depends on its own
/// axis alone, both ways.
pub proof fn law_touch_axes_do_not_mix(model: DeviceModel, x: int, y: int, u: int, v: int)
    ensures
        model.spec_virtual_to_input(x, y).0 == model.spec_virtual_to_input(x, v).0,
        model.spec_virtual_to_input(x, y).1 == model.spec_virtual_to_input(u, y).1,
        model.spec_input_to_virtual(x, y).0 == model.spec_input_to_virtual(x, v).0,
        model.spec_input_to_virtual(x, y).1 == model.spec_input_to_virtual(u, y).1,
{
}

/// How far a scaled coordinate is from the exact one, in units of `1 / 2^256`.
proof fn lemma_axis_is_true(v: int, from: int, to: int, turned: bool)
    requires
        0 <= v <= from,
        512 <= from < 0x1_0000,
        512 <= to <= 4096,
    ensures
        ({
            let part = Dyadic::of(v).over(Dyadic::of(from));
            let kept = if turned {
                Dyadic::of(1).plus(part.negated())
            } else {
                part
            };
            let r = kept.times(Dyadic::of(to)).units(256);
            let w = if turned {
                from - v
            } else {
                v
            };
            -(from * pow2(256)) <= (r * from - (w * to) * pow2(256)) * 512 <= from * pow2(256)
        }),
{
    let k: nat = 256;
    let s = pow2(k) as int;
    lemma_pow2_pos(k);
    Dyadic::lemma_of(v);
    Dyadic::lemma_of(1);
    crate::rounding::law_small_integers_are_exact(v, k);
    crate::rounding::law_small_integers_are_exact(1, k);
    let part = Dyadic::of(v).over(Dyadic::of(from));
    Dyadic::of(v).lemma_over_units(from, k);
    Dyadic::lemma_of(from);
    Dyadic::of(v).lemma_over(Dyadic::of(from));
    let p = part.units(k);
    let kept = if turned {
        Dyadic::of(1).plus(part.negated())
    } else {
        part
    };
    let x = pow2((part.exponent + k) as nat);
    lemma_pow2_pos((part.exponent + k) as nat);
    assert((-part.significand) * x == -(part.significand * x)) by (nonlinear_arith);
    assert(p >= 0) by (nonlinear_arith)
        requires
            p == part.significand * x,
            part.significand >= 0,
            x > 0,
    ;
    if turned {
        Dyadic::of(1).lemma_plus_units(part.negated(), k);
    }
    let q = kept.units(k);
    assert(-100 <= kept.exponent <= 80) by {
        if turned {
            Dyadic::of(1).lemma_plus(part.negated());
        }
    }
    kept.lemma_times_units(to, k);
    let r = kept.times(Dyadic::of(to)).units(k);
    assert(0 <= v * s <= from * s) by (nonlinear_arith)
        requires
            0 <= v <= from,
            s > 0,
    ;
    assert(0x100_0000 * p <= 0x100_0001 * s) by (nonlinear_arith)
        requires
            (p * from - v * s) * 0x100_0000 <= v * s,
            v * s <= from * s,
            from > 0,
    ;
    let (w, q0) = if turned {
        (from - v, s - p)
    } else {
        (v, p)
    };
    assert((s - p) * from - (from - v) * s == -(p * from - v * s)) by (nonlinear_arith);
    lemma_errors(w, from, to, s, q0, q, r);
}

/// The pen is where it should be on the virtual screen, to within one part in
/// 512 of a pixel. The digitizer of a reMarkable Paper Pro reports x up to
/// 11180 and y up to 15340; that of a reMarkable 2 lies on its side, with x up to
/// 20966 running up the page and y up to 15725 running across it.
pub proof fn law_pen_points_are_where_they_should_be(model: DeviceModel, x: int, y: int)
    requires
        model == DeviceModel::RemarkablePaperPro ==> 0 <= x <= 11180 && 0 <= y <= 15340,
        model != DeviceModel::RemarkablePaperPro ==> 0 <= x <= 20966 && 0 <= y <= 15725,
    ensures
        ({
            let (a, b) = model.spec_pen_to_virtual(x, y);
            let (across, width, down, height) = if model == DeviceModel::RemarkablePaperPro {
                (x, 11180int, y, 15340int)
            } else {
                (y, 15725int, 20966 - x, 20966int)
            };
            let s = pow2(256);
            &&& -(width * s) <= (a.units(256) * width - (across * 768) * s) * 512 <= width * s
            &&& -(height * s) <= (b.units(256) * height - (down * 1024) * s) * 512 <= height * s
        }),
{
    if model == DeviceModel::RemarkablePaperPro {
        lemma_axis_is_true(x, 11180, 768, false);
        lemma_axis_is_true(y, 15340, 1024, false);
    } else {
        lemma_axis_is_true(y, 15725, 768, false);
        lemma_axis_is_true(x, 20966, 1024, true);
    }
}

/// Across and down do not mix for the pen either; which of its axes runs across
/// the screen depends on the device.
pub proof fn law_pen_axes_do_not_mix(model: DeviceModel, x: i32, y: i32, u: i32, v: i32)
    ensures
        model == DeviceModel::RemarkablePaperPro ==> model.pen_point(x, y).0 == model.pen_point(
            x,
            v,
        ).0 && model.pen_point(x, y).1 == model.pen_point(u, y).1,
        model != DeviceModel::RemarkablePaperPro ==> model.pen_point(x, y).0 == model.pen_point(
            u,
            y,
        ).0 && model.pen_point(x, y).1 == model.pen_point(x, v).1,
{
}

/// A product by a number of either sign is that by its size, with the sign.
proof fn lemma_signed_product(d: int, part: Dyadic)
    requires
        -0x100_0000 < d < 0x100_0000,
    ensures
        d > 0 ==> Dyadic::of(d).times(part) == part.times(Dyadic::of(d)),
        d < 0 ==> Dyadic::of(d).times(part) == part.times(Dyadic::of(-d)).negated(),
        d == 0 ==> Dyadic::of(d).times(part) == (Dyadic { significand: 0, exponent: 0 }),
{
    let a = Dyadic::of(d);
    assert(a.significand * part.significand == part.significand * a.significand)
        by (nonlinear_arith);
    assert(0 * part.significand == 0);
    if d < 0 {
        let b = Dyadic::of(-d);
        crate::rounding::law_rounding_is_symmetric(d, 1, 0);
        assert(a == b.negated());
        let n = part.significand * b.significand;
        assert(a.significand * part.significand == -n) by (nonlinear_arith)
            requires
                a.significand == -b.significand,
                n == part.significand * b.significand,
        ;
        crate::rounding::law_rounding_is_symmetric(n, 1, a.exponent + part.exponent);
    }
}

/// A swipe goes straight: its point after `i` of `steps` steps is the point that
/// far along the line, without its fraction, to within an eighth of a pixel.
pub proof fn law_swipes_go_straight(a: int, b: int, i: int, steps: int)
    requires
        -0x8000 <= a <= 0x8000,
        -0x8000 <= b <= 0x8000,
        0 <= i <= steps,
        0 < steps < 0x1_0000,
    ensures
        ({
            let exact = a * steps + (b - a) * i;
            let r = crate::experiment::spec_between(a, b, i, steps) * steps;
            exact - 2 * steps <= r <= exact + 2 * steps
        }),
        is_whole_part(
            crate::experiment::spec_between(a, b, i, steps),
            a * steps + (b - a) * i,
            steps,
            1,
            0x4_0000 * steps,
        ),
{
    let k: nat = 256;
    let s = pow2(k) as int;
    lemma_pow2_pos(k);
    let d = b - a;
    let m = if d < 0 {
        -d
    } else {
        d
    };
    let part = Dyadic::of(i).over(Dyadic::of(steps));
    Dyadic::lemma_of(i);
    Dyadic::lemma_of(steps);
    Dyadic::lemma_of(a);
    crate::rounding::law_small_integers_are_exact(i, k);
    crate::rounding::law_small_integers_are_exact(a, k);
    Dyadic::of(i).lemma_over_units(steps, k);
    Dyadic::of(i).lemma_over(Dyadic::of(steps));
    let p = part.units(k);
    let x = pow2((part.exponent + k) as nat);
    lemma_pow2_pos((part.exponent + k) as nat);
    assert(p >= 0) by (nonlinear_arith)
        requires
            p == part.significand * x,
            part.significand >= 0,
            x > 0,
    ;
    assert(0 <= i * s <= steps * s) by (nonlinear_arith)
        requires
            0 <= i <= steps,
            s > 0,
    ;
    // The part is at most a little more than one.
    assert(p <= 2 * s) by (nonlinear_arith)
        requires
            (p * steps - i * s) * 0x100_0000 <= i * s,
            i * s <= steps * s,
            steps > 0,
            s > 0,
    ;
    lemma_signed_product(d, part);
    let way = Dyadic::of(d).times(part);
    let w = way.units(k);
    let pm = p * m;
    assert(0 <= pm <= 0x2_0000 * s) by (nonlinear_arith)
        requires
            s > 0,
            0 <= p <= 2 * s,
            0 <= m <= 0x1_0000,
            pm == p * m,
    ;
    if d != 0 {
        part.lemma_times_units(m, k);
        let t = part.times(Dyadic::of(m));
        let y = pow2((t.exponent + k) as nat);
        assert((-t.significand) * y == -(t.significand * y)) by (nonlinear_arith);
    } else {
        assert(0 * s == 0 && p * 0 == 0) by (nonlinear_arith);
    }
    let sd = if d < 0 {
        -pm
    } else {
        pm
    };
    let off = w - sd;
    assert(-pm <= off * 0x100_0000 <= pm);
    assert(way.normal() && -130 <= way.exponent <= 80) by {
        if d != 0 {
            Dyadic::lemma_of(m);
            part.lemma_times(Dyadic::of(m));
        }
    }
    Dyadic::of(a).lemma_plus_units(way, k);
    let sum = Dyadic::of(a).plus(way);
    let v = sum.units(k);
    let as_ = a * s;
    assert(-0x8000 * s <= as_ <= 0x8000 * s) by (nonlinear_arith)
        requires
            -0x8000 <= a <= 0x8000,
            as_ == a * s,
            s > 0,
    ;
    let e = v - (as_ + w);
    assert(-0x4_0000 * s <= e * 0x100_0000 <= 0x4_0000 * s);
    crate::rounding::lemma_truncated_units(sum, k);
    let r = sum.truncated();
    // Everything, times the number of steps.
    assert(v - as_ - sd == off + e);
    assert(-s <= 16 * (v - as_ - sd) <= s);
    let f = p * steps - i * s;
    assert(-(steps * s) <= f * 0x100_0000 <= steps * s);
    assert(sd * steps == d * (p * steps)) by (nonlinear_arith)
        requires
            sd == (if d < 0 {
                -pm
            } else {
                pm
            }),
            pm == p * m,
            m == (if d < 0 {
                -d
            } else {
                d
            }),
    ;
    let df = d * f;
    let ss = steps * s;
    assert(ss > 0) by (nonlinear_arith)
        requires
            ss == steps * s,
            steps > 0,
            s > 0,
    ;
    assert(-0x1_0000 * ss <= df * 0x100_0000 <= 0x1_0000 * ss) by (nonlinear_arith)
        requires
            df == d * f,
            -ss <= f * 0x100_0000 <= ss,
            -0x1_0000 <= d <= 0x1_0000,
            ss > 0,
    ;
    assert(d * (p * steps) == df + (d * i) * s) by (nonlinear_arith)
        requires
            f == p * steps - i * s,
            df == d * f,
    ;
    let g = v - as_ - sd;
    let gs = g * steps;
    assert(-ss <= 16 * gs <= ss) by (nonlinear_arith)
        requires
            -s <= 16 * g <= s,
            gs == g * steps,
            ss == steps * s,
            steps > 0,
    ;
    let exact = a * steps + d * i;
    assert(v * steps == exact * s + df + gs) by (nonlinear_arith)
        requires
            v == as_ + sd + g,
            as_ == a * s,
            sd * steps == df + (d * i) * s,
            gs == g * steps,
            exact == a * steps + d * i,
    ;
    assert(-ss <= 8 * (v * steps - exact * s) <= ss);
    assert((r - 1) * s < v < (r + 1) * s) by (nonlinear_arith)
        requires
            v >= 0 ==> r * s <= v < (r + 1) * s,
            v <= 0 ==> (r - 1) * s < v <= r * s,
            s > 0,
    ;
    assert(exact - 2 * steps <= r * steps <= exact + 2 * steps) by (nonlinear_arith)
        requires
            (r - 1) * s < v < (r + 1) * s,
            -ss <= 8 * (v * steps - exact * s) <= ss,
            ss == steps * s,
            steps > 0,
            s > 0,
    ;
    assert(-0x4_0000 < r < 0x4_0000) by (nonlinear_arith)
        requires
            (r - 1) * s < v < (r + 1) * s,
            -0x3_0000 * s <= v - as_ <= 0x3_0000 * s,
            -0x8000 * s <= as_ <= 0x8000 * s,
            s > 0,
    ;
    crate::rounding::law_numbers_lose_their_fraction(sum, k);
    let room = 0x4_0000 * steps;
    assert(room * s == 0x4_0000 * ss) by (nonlinear_arith)
        requires
            room == 0x4_0000 * steps,
            ss == steps * s,
    ;
    assert(-0x7000_0000 * steps <= exact <= 0x7000_0000 * steps) by (nonlinear_arith)
        requires
            exact - 2 * steps <= r * steps <= exact + 2 * steps,
            -0x4_0000 < r < 0x4_0000,
            steps > 0,
    ;
    lemma_far_part(v, s, r, exact, steps, room);
}

/// A circle is traced in a step for every three pixels of its circumference: as
/// many as cover it, and none to spare. There are none for a circle without a
/// size.
pub proof fn law_circles_are_covered(r: int)
    requires
        -0x100_0000 < r < 0x100_0000,
    ensures
        r > 0 ==> 6_283_184 * r <= 3_000_000 * crate::experiment::spec_circle_steps(r),
        r > 0 ==> 3_000_000 * (crate::experiment::spec_circle_steps(r) - 1) < 6_283_187 * r,
        r <= 0 ==> crate::experiment::spec_circle_steps(r) == 0,
{
    if r > 0 {
        lemma_circle_steps(r);
    } else {
        lemma_no_circle(r);
    }
}

/// The steps round a circle, from its rounded circumference.
proof fn lemma_circle_steps(r: int)
    requires
        0 < r < 0x100_0000,
    ensures
        6_283_184 * r <= 3_000_000 * crate::experiment::spec_circle_steps(r),
        3_000_000 * (crate::experiment::spec_circle_steps(r) - 1) < 6_283_187 * r,
{
    let k: nat = 256;
    let s = pow2(k) as int;
    lemma_pow2_pos(k);
    let turn = crate::experiment::full_turn();
    let round = turn.times(Dyadic::of(r));
    let thirds = round.over(Dyadic::of(3));
    let u = pow2(235) as int;
    lemma_pow2_pos(235);
    assert(s == 2097152 * u) by {
        lemma_pow2_adds(21, 235);
        lemma2_to64();
    }
    Dyadic::lemma_of(r);
    turn.lemma_times_units(r, k);
    turn.lemma_times(Dyadic::of(r));
    round.lemma_over_units(3, k);
    crate::rounding::lemma_ceiling_units(thirds, k);
    let c = thirds.ceiling();
    assert(turn.units(k) == 13176795 * u);
    lemma_steps_cover(turn.units(k), r, u, round.units(k), thirds.units(k), c, s);
}

/// The arithmetic of [`lemma_circle_steps`].
proof fn lemma_steps_cover(t: int, r: int, u: int, a: int, b: int, c: int, s: int)
    requires
        t == 13176795 * u,
        u > 0,
        r > 0,
        s == 2097152 * u,
        crate::binary32::magnitude(a - t * r) * 0x100_0000 <= crate::binary32::magnitude(t * r),
        crate::binary32::magnitude(b * 3 - a) * 0x100_0000 <= crate::binary32::magnitude(a),
        (c - 1) * s < b <= c * s,
    ensures
        6_283_184 * r <= 3_000_000 * c,
        3_000_000 * (c - 1) < 6_283_187 * r,
{
    let ur = u * r;
    let cu = c * u;
    assert(ur > 0 && t * r == 13176795 * ur) by (nonlinear_arith)
        requires
            ur == u * r,
            t == 13176795 * u,
            u > 0,
            r > 0,
    ;
    assert(c * s == 2097152 * cu && (c - 1) * s == 2097152 * (cu - u)) by (nonlinear_arith)
        requires
            cu == c * u,
            s == 2097152 * u,
    ;
    assert(a > 0);
    assert(13176793 * ur <= 6291456 * cu);
    assert(6291456 * (cu - u) < 13176797 * ur);
    assert(13176793 * r <= 6291456 * c) by (nonlinear_arith)
        requires
            13176793 * ur <= 6291456 * cu,
            ur == u * r,
            cu == c * u,
            u > 0,
    ;
    assert(6291456 * (c - 1) < 13176797 * r) by (nonlinear_arith)
        requires
            6291456 * (cu - u) < 13176797 * ur,
            ur == u * r,
            cu == c * u,
            u > 0,
    ;
}

/// A circle without a size has no circumference.
proof fn lemma_no_circle(r: int)
    requires
        -0x100_0000 < r <= 0,
    ensures
        crate::experiment::spec_circle_steps(r) == 0,
{
    let k: nat = 256;
    let s = pow2(k) as int;
    lemma_pow2_pos(k);
    let turn = crate::experiment::full_turn();
    let round = turn.times(Dyadic::of(r));
    let thirds = round.over(Dyadic::of(3));
    Dyadic::lemma_of(3);
    if r == 0 {
        let none = Dyadic { significand: 0, exponent: 0 };
        assert(round == none);
        assert(thirds == none);
        assert(0 * pow2(0) == 0) by (nonlinear_arith);
    } else {
        let m = Dyadic::of(-r);
        Dyadic::lemma_of(-r);
        crate::rounding::law_rounding_is_symmetric(r, 1, 0);
        turn.lemma_times_units(-r, k);
        turn.lemma_times(m);
        let back = turn.times(m);
        let n = turn.significand * m.significand;
        assert(turn.significand * Dyadic::of(r).significand == -n) by (nonlinear_arith)
            requires
                Dyadic::of(r).significand == -m.significand,
                n == turn.significand * m.significand,
        ;
        crate::rounding::law_rounding_is_symmetric(n, 1, turn.exponent + m.exponent);
        back.lemma_over_units(3, k);
        crate::rounding::law_rounding_is_symmetric(
            back.significand,
            crate::binary32::magnitude(Dyadic::of(3).significand),
            back.exponent - Dyadic::of(3).exponent,
        );
        let i = (thirds.exponent + k) as nat;
        let x = pow2(i) as int;
        lemma_pow2_pos(i);
        assert(thirds.significand * x <= 0) by (nonlinear_arith)
            requires
                thirds.significand <= 0,
                x > 0,
        ;
        crate::rounding::lemma_ceiling_units(thirds, k);
        let c = thirds.ceiling();
        assert(c <= 0) by (nonlinear_arith)
            requires
                (c - 1) * s < thirds.significand * x,
                thirds.significand * x <= 0,
                s > 0,
        ;
    }
}

/// The swipe to a new page goes from 700 to 100 across the screen, and straight.
pub proof fn law_the_new_page_swipe_goes_straight(i: int)
    requires
        0 <= i <= 20,
    ensures
        crate::experiment::new_page_points().len() == 21,
        crate::experiment::new_page_points()[i].1 == 512,
        700 - 30 * i - 1 <= crate::experiment::new_page_points()[i].0 <= 700 - 30 * i,
{
    let part = Dyadic::of(i).over(Dyadic::of(20));
    lemma_signed_product(-600, part);
    lemma_signed_product(600, part);
    law_swipes_go_straight(700, 100, i, 20);
}

/// The errors of scaling a coordinate put together, in units of `1 / s`: `u` is
/// the coordinate `v`, `p` that over `from`, `q` what is kept of it and `r` the
/// product with `to`. All of them are small beside `a`, which is `v` and `from`
/// together.
proof fn lemma_far_errors(
    v: int,
    from: int,
    to: int,
    turned: bool,
    s: int,
    u: int,
    p: int,
    q: int,
    r: int,
)
    requires
        0 < from,
        0 < to,
        0 < s,
        crate::binary32::magnitude(u - v * s) * 0x100_0000 <= crate::binary32::magnitude(v * s),
        crate::binary32::magnitude(p * from - u) * 0x100_0000 <= crate::binary32::magnitude(u),
        turned ==> crate::binary32::magnitude(q - (s - p)) * 0x100_0000
            <= crate::binary32::magnitude(s - p),
        !turned ==> q == p,
        crate::binary32::magnitude(r - q * to) * 0x100_0000 <= crate::binary32::magnitude(q * to),
    ensures
        ({
            let w = if turned {
                from - v
            } else {
                v
            };
            let room = (crate::binary32::magnitude(v) + from) * to;
            -(room * s) <= (r * from - (w * to) * s) * 0x20_0000 <= room * s
        }),
{
    let size = crate::binary32::magnitude(v) as int;
    let w = if turned {
        from - v
    } else {
        v
    };
    let q0 = if turned {
        s - p
    } else {
        p
    };
    let vs = v * s;
    let fs = from * s;
    let a = (size + from) * s;
    assert(-a <= vs <= a && 0 < fs <= a && -a <= w * s <= a) by (nonlinear_arith)
        requires
            vs == v * s,
            fs == from * s,
            a == (size + from) * s,
            -size <= v <= size,
            0 <= size,
            -(size + from) <= w <= size + from,
            0 < from,
            0 < s,
    ;
    assert((s - p) * from == fs - p * from && (from - v) * s == fs - vs) by (nonlinear_arith)
        requires
            fs == from * s,
            vs == v * s,
    ;
    // What is multiplied, times `from`, is off by a little.
    let e1 = q0 * from - w * s;
    assert(-3 * a <= e1 * 0x100_0000 <= 3 * a);
    let qf0 = q0 * from;
    assert(-2 * a <= qf0 <= 2 * a);
    let b = q - q0;
    let bf = b * from;
    assert(-2 * a <= bf * 0x100_0000 <= 2 * a) by (nonlinear_arith)
        requires
            crate::binary32::magnitude(b) * 0x100_0000 <= crate::binary32::magnitude(q0),
            bf == b * from,
            qf0 == q0 * from,
            -2 * a <= qf0 <= 2 * a,
            0 < from,
    ;
    let qf = q * from;
    assert(qf == qf0 + bf) by (nonlinear_arith)
        requires
            qf == q * from,
            qf0 == q0 * from,
            bf == b * from,
            b == q - q0,
    ;
    assert(-3 * a <= qf <= 3 * a);
    let c = r - q * to;
    let cf = c * from;
    let at = a * to;
    assert(-3 * at <= cf * 0x100_0000 <= 3 * at) by (nonlinear_arith)
        requires
            crate::binary32::magnitude(c) * 0x100_0000 <= crate::binary32::magnitude(q * to),
            cf == c * from,
            at == a * to,
            qf == q * from,
            -3 * a <= qf <= 3 * a,
            0 < from,
            0 < to,
    ;
    assert(r * from == (w * to) * s + e1 * to + bf * to + cf) by (nonlinear_arith)
        requires
            c == r - q * to,
            cf == c * from,
            b == q - q0,
            bf == b * from,
            e1 == q0 * from - w * s,
    ;
    assert(-3 * at <= (e1 * to) * 0x100_0000 <= 3 * at) by (nonlinear_arith)
        requires
            -3 * a <= e1 * 0x100_0000 <= 3 * a,
            at == a * to,
            0 < to,
    ;
    assert(-2 * at <= (bf * to) * 0x100_0000 <= 2 * at) by (nonlinear_arith)
        requires
            -2 * a <= bf * 0x100_0000 <= 2 * a,
            at == a * to,
            0 < to,
    ;
    let room = (size + from) * to;
    assert(at == room * s) by (nonlinear_arith)
        requires
            at == a * to,
            a == (size + from) * s,
            room == (size + from) * to,
    ;
}

/// How far a scaled coordinate is from the exact one, wherever it is.
proof fn lemma_far_axis(v: int, from: int, to: int, turned: bool)
    requires
        -0x8000_0000 <= v <= 0x8000_0000,
        512 <= from < 0x1_0000,
        512 <= to <= 4096,
    ensures
        ({
            let part = Dyadic::of(v).over(Dyadic::of(from));
            let kept = if turned {
                Dyadic::of(1).plus(part.negated())
            } else {
                part
            };
            let r = kept.times(Dyadic::of(to)).units(256);
            let w = if turned {
                from - v
            } else {
                v
            };
            let room = (crate::binary32::magnitude(v) + from) * to;
            &&& kept.times(Dyadic::of(to)).exponent >= -256
            &&& -(room * pow2(256)) <= (r * from - (w * to) * pow2(256)) * 0x20_0000
                <= room * pow2(256)
        }),
{
    let k: nat = 256;
    let s = pow2(k) as int;
    lemma_pow2_pos(k);
    Dyadic::lemma_of(v);
    Dyadic::lemma_of(1);
    Dyadic::lemma_of(from);
    crate::rounding::law_rounding_is_close(v, 1, 0, k);
    crate::rounding::law_small_integers_are_exact(1, k);
    let part = Dyadic::of(v).over(Dyadic::of(from));
    Dyadic::of(v).lemma_over_units(from, k);
    Dyadic::of(v).lemma_over(Dyadic::of(from));
    let kept = if turned {
        Dyadic::of(1).plus(part.negated())
    } else {
        part
    };
    let x = pow2((part.exponent + k) as nat);
    assert((-part.significand) * x == -(part.significand * x)) by (nonlinear_arith);
    if turned {
        Dyadic::of(1).lemma_plus_units(part.negated(), k);
        Dyadic::of(1).lemma_plus(part.negated());
    }
    assert(-100 <= kept.exponent <= 80);
    kept.lemma_times_units(to, k);
    let u = Dyadic::of(v).units(k);
    assert(u * 1 == u);
    lemma_far_errors(
        v,
        from,
        to,
        turned,
        s,
        u,
        part.units(k),
        kept.units(k),
        kept.times(Dyadic::of(to)).units(k),
    );
}

/// Whether `t` is `w * to / from` without its fraction, but for one part in
/// `2^21` of `room`.
pub open spec fn is_whole_part(t: int, w: int, from: int, to: int, room: int) -> bool {
    &&& w >= 0 ==> (t * from - w * to) * 0x20_0000 <= room && (w * to - (t + 1) * from)
        * 0x20_0000 <= room
    &&& w <= 0 ==> (w * to - t * from) * 0x20_0000 <= room && ((t - 1) * from - w * to)
        * 0x20_0000 <= room
}

/// A coordinate that is scaled, wherever it is.
proof fn lemma_far_scaled(v: int, from: int, to: int, turned: bool)
    requires
        -0x8000_0000 <= v <= 0x8000_0000,
        512 <= from <= 4096,
        512 <= to <= 4096,
    ensures
        ({
            let w = if turned {
                from - v
            } else {
                v
            };
            let room = (crate::binary32::magnitude(v) + from) * to;
            let r = crate::touch::scaled(v, from, to, turned);
            &&& -0x7000_0000 * from <= w * to <= 0x7000_0000 * from ==> is_whole_part(
                r,
                w,
                from,
                to,
                room,
            )
            &&& w * to >= 0x9000_0000 * from ==> r == i32::MAX
            &&& w * to <= -0x9000_0000 * from ==> r == i32::MIN
        }),
{
    let k: nat = 256;
    let s = pow2(k) as int;
    lemma_pow2_pos(k);
    lemma_far_axis(v, from, to, turned);
    let part = Dyadic::of(v).over(Dyadic::of(from));
    let kept = if turned {
        Dyadic::of(1).plus(part.negated())
    } else {
        part
    };
    let product = kept.times(Dyadic::of(to));
    let w = if turned {
        from - v
    } else {
        v
    };
    let size = crate::binary32::magnitude(v) as int;
    let room = (size + from) * to;
    crate::rounding::law_numbers_lose_their_fraction(product, k);
    let x = product.units(k);
    let t = product.to_i32();
    let exact = w * to;
    assert(0 <= room <= 0x100_0000 * (0x100_0000 * from)) by (nonlinear_arith)
        requires
            room == (size + from) * to,
            0 <= size <= 0x8000_0000,
            512 <= from <= 4096,
            512 <= to <= 4096,
    ;
    lemma_far_part(x, s, t, exact, from, room);
    assert(w >= 0 ==> exact >= 0) by (nonlinear_arith)
        requires
            exact == w * to,
            to > 0,
    ;
    assert(w <= 0 ==> exact <= 0) by (nonlinear_arith)
        requires
            exact == w * to,
            to > 0,
    ;
}

/// The arithmetic of [`lemma_far_scaled`].
proof fn lemma_far_part(x: int, s: int, t: int, exact: int, from: int, room: int)
    requires
        s > 0,
        from > 0,
        0 <= room <= 0x100_0000 * (0x100_0000 * from),
        -(room * s) <= (x * from - exact * s) * 0x20_0000 <= room * s,
        0 <= x < 0x8000_0000 * s ==> t * s <= x < (t + 1) * s,
        -0x8000_0000 * s <= x <= 0 ==> (t - 1) * s < x <= t * s,
        x >= 0x8000_0000 * s ==> t == 0x7fff_ffff,
        x <= -0x8000_0000 * s ==> t == -0x8000_0000,
    ensures
        -0x7000_0000 * from <= exact <= 0x7000_0000 * from ==> {
            &&& exact >= 0 ==> (t * from - exact) * 0x20_0000 <= room && (exact - (t + 1) * from)
                * 0x20_0000 <= room
            &&& exact <= 0 ==> (exact - t * from) * 0x20_0000 <= room && ((t - 1) * from - exact)
                * 0x20_0000 <= room
        },
        exact >= 0x9000_0000 * from ==> t == 0x7fff_ffff,
        exact <= -0x9000_0000 * from ==> t == -0x8000_0000,
{
    let fs = from * s;
    let es = exact * s;
    let rs = room * s;
    let xf = x * from;
    assert(fs > 0 && 0 <= rs <= 0x100_0000 * (0x100_0000 * fs)) by (nonlinear_arith)
        requires
            fs == from * s,
            rs == room * s,
            0 <= room <= 0x100_0000 * (0x100_0000 * from),
            from > 0,
            s > 0,
    ;
    assert(exact >= 0x9000_0000 * from ==> es >= 0x9000_0000 * fs) by (nonlinear_arith)
        requires
            es == exact * s,
            fs == from * s,
            s > 0,
    ;
    assert(exact <= -0x9000_0000 * from ==> es <= -0x9000_0000 * fs) by (nonlinear_arith)
        requires
            es == exact * s,
            fs == from * s,
            s > 0,
    ;
    assert(exact <= 0x7000_0000 * from ==> es <= 0x7000_0000 * fs) by (nonlinear_arith)
        requires
            es == exact * s,
            fs == from * s,
            s > 0,
    ;
    assert(exact >= -0x7000_0000 * from ==> es >= -0x7000_0000 * fs) by (nonlinear_arith)
        requires
            es == exact * s,
            fs == from * s,
            s > 0,
    ;
    assert((xf >= 0x8000_0000 * fs ==> x >= 0x8000_0000 * s) && (xf <= -0x8000_0000 * fs ==> x
        <= -0x8000_0000 * s) && (xf < 0x8000_0000 * fs ==> x < 0x8000_0000 * s) && (xf
        > -0x8000_0000 * fs ==> x > -0x8000_0000 * s)) by (nonlinear_arith)
        requires
            xf == x * from,
            fs == from * s,
            from > 0,
    ;
    if -0x7000_0000 * from <= exact <= 0x7000_0000 * from {
        let ts = t * s;
        let tfs = t * fs;
        assert((t + 1) * s == ts + s && (t - 1) * s == ts - s) by (nonlinear_arith)
            requires
                ts == t * s,
        ;
        assert((x >= 0 ==> tfs <= xf < tfs + fs) && (x <= 0 ==> tfs - fs < xf <= tfs))
            by (nonlinear_arith)
            requires
                x >= 0 ==> ts <= x < ts + s,
                x <= 0 ==> ts - s < x <= ts,
                ts == t * s,
                tfs == t * fs,
                fs == from * s,
                xf == x * from,
                from > 0,
        ;
        assert((x >= 0 ==> tfs > -fs) && (x <= 0 ==> tfs < fs)) by {
            assert(x >= 0 ==> xf >= 0) by (nonlinear_arith)
                requires
                    xf == x * from,
                    from > 0,
            ;
            assert(x <= 0 ==> xf <= 0) by (nonlinear_arith)
                requires
                    xf == x * from,
                    from > 0,
            ;
        }
        assert((tfs > -fs ==> t >= 0) && (tfs < fs ==> t <= 0)) by (nonlinear_arith)
            requires
                tfs == t * fs,
                fs > 0,
        ;
        assert((t >= 0 ==> tfs >= 0) && (t <= 0 ==> tfs <= 0)) by (nonlinear_arith)
            requires
                tfs == t * fs,
                fs > 0,
        ;
        assert((exact >= 0 ==> es >= 0) && (exact <= 0 ==> es <= 0)) by (nonlinear_arith)
            requires
                es == exact * s,
                s > 0,
        ;
        let tf = t * from;
        assert(tf * s == tfs && (t + 1) * from == tf + from && (t - 1) * from == tf - from)
            by (nonlinear_arith)
            requires
                tf == t * from,
                tfs == t * fs,
                fs == from * s,
        ;
        let (a, b, c, d) = (tf - exact, exact - tf - from, exact - tf, tf - from - exact);
        assert(a * s == tfs - es && b * s == es - tfs - fs && c * s == es - tfs && d * s == tfs
            - fs - es) by (nonlinear_arith)
            requires
                a == tf - exact,
                b == exact - tf - from,
                c == exact - tf,
                d == tf - from - exact,
                tf * s == tfs,
                es == exact * s,
                fs == from * s,
        ;
        if exact >= 0 {
            assert((tfs - es) * 0x20_0000 <= rs && (es - tfs - fs) * 0x20_0000 <= rs);
            lemma_cancel(a, s, room);
            lemma_cancel(b, s, room);
        }
        if exact <= 0 {
            assert((es - tfs) * 0x20_0000 <= rs && (tfs - fs - es) * 0x20_0000 <= rs);
            lemma_cancel(c, s, room);
            lemma_cancel(d, s, room);
        }
    }
}

proof fn lemma_cancel(a: int, s: int, room: int)
    requires
        s > 0,
        (a * s) * 0x20_0000 <= room * s,
    ensures
        a * 0x20_0000 <= room,
{
    assert(a * 0x20_0000 <= room) by (nonlinear_arith)
        requires
            s > 0,
            (a * s) * 0x20_0000 <= room * s,
    ;
}

/// A touch off the screen goes where it should off the panel: nothing is held
/// back at the edges. Only what is too far out for 32 bits stays at their ends.
pub proof fn law_touches_off_the_screen_go_off_the_panel(model: DeviceModel, x: i32, y: i32)
    ensures
        ({
            let (tx, ty) = model.spec_virtual_to_input(x as int, y as int);
            let (width, height, along) = if model == DeviceModel::RemarkablePaperPro {
                (2065int, 2833int, y as int)
            } else {
                (1404int, 1872int, 1024 - y)
            };
            let (ax, ay) = (
                crate::binary32::magnitude(x as int),
                crate::binary32::magnitude(y as int),
            );
            &&& ax <= 0x2000_0000 ==> is_whole_part(tx, x as int, 768, width, (ax + 768) * width)
            &&& ay <= 0x2000_0000 ==> is_whole_part(ty, along, 1024, height, (ay + 1024) * height)
            &&& x >= 0x7000_0000 ==> tx == 0x7fff_ffff
            &&& x <= -0x7000_0000 ==> tx == -0x8000_0000
            &&& along >= 0x7000_0000 ==> ty == 0x7fff_ffff
            &&& along <= -0x7000_0000 ==> ty == -0x8000_0000
        }),
{
    let (width, height) = model.spec_screen_dimensions();
    lemma_far_scaled(x as int, 768, width as int, false);
    lemma_far_scaled(y as int, 1024, height as int, model.touch_y_turned());
}

/// Whatever the panel reports is read where it is, off the screen too.
pub proof fn law_touches_off_the_panel_are_read(model: DeviceModel, x: i32, y: i32)
    ensures
        ({
            let (vx, vy) = model.spec_input_to_virtual(x as int, y as int);
            let (width, height, along) = if model == DeviceModel::RemarkablePaperPro {
                (2065int, 2833int, y as int)
            } else {
                (1404int, 1872int, 1872 - y)
            };
            let (ax, ay) = (
                crate::binary32::magnitude(x as int),
                crate::binary32::magnitude(y as int),
            );
            &&& is_whole_part(vx, x as int, width, 768, (ax + width) * 768)
            &&& is_whole_part(vy, along, height, 1024, (ay + height) * 1024)
        }),
{
    let (width, height) = model.spec_screen_dimensions();
    lemma_far_scaled(x as int, width as int, 768, false);
    lemma_far_scaled(y as int, height as int, 1024, model.touch_y_turned());
}

/// Whatever the digitizer reports, the pen is where it should be, off the screen
/// too, to within one part in `2^21`.
pub proof fn law_pen_points_off_the_screen_are_where_they_should_be(
    model: DeviceModel,
    x: i32,
    y: i32,
)
    ensures
        ({
            let (a, b) = model.spec_pen_to_virtual(x as int, y as int);
            let (across, width, down, flipped, height) = if model
                == DeviceModel::RemarkablePaperPro {
                (x as int, 11180int, y as int, y as int, 15340int)
            } else {
                (y as int, 15725int, x as int, 20966 - x, 20966int)
            };
            let s = pow2(256);
            let near = (crate::binary32::magnitude(across) + width) * 768;
            let far = (crate::binary32::magnitude(down) + height) * 1024;
            &&& -(near * s) <= (a.units(256) * width - (across * 768) * s) * 0x20_0000 <= near * s
            &&& -(far * s) <= (b.units(256) * height - (flipped * 1024) * s) * 0x20_0000 <= far * s
        }),
{
    if model == DeviceModel::RemarkablePaperPro {
        lemma_far_axis(x as int, 11180, 768, false);
        lemma_far_axis(y as int, 15340, 1024, false);
    } else {
        lemma_far_axis(y as int, 15725, 768, false);
        lemma_far_axis(x as int, 20966, 1024, true);
    }
}

} // verus!
