//! Scrolling the page up by touch, in a closed loop.
//!
//! A continuous page scrolls by flings, whose length depends on their speed and
//! cannot be told in advance. So each fling is measured afterwards, by aligning
//! the ink of the rows before it with the ink of the rows after it, and the
//! caller gets the total of what was measured.
use vstd::prelude::*;

use crate::binary32::at_least;
use crate::device::DeviceModel;
use crate::event::{Plan, Step};
use crate::touch::{Touch, TouchMode, TriggerCorner};

verus! {

/// The largest shift, in either direction, that is looked for.
pub const SHIFT_MAX: i32 = 950;

/// Shifts that leave this many rows in common or fewer are not considered.
pub const OVERLAP_MIN: u32 = 60;

/// Flings that move the page by this much or less have not moved it.
pub const STILL_MAX: i32 = 5;

/// No more flings than this are tried.
pub const FLING_MAX: u32 = 4;

pub open spec fn min_len(a: Seq<u32>, b: Seq<u32>) -> int {
    if a.len() <= b.len() {
        a.len() as int
    } else {
        b.len() as int
    }
}

pub open spec fn distance(a: u32, b: u32) -> int {
    if a >= b {
        a - b
    } else {
        b - a
    }
}

/// The difference between row `y + s` of `a` and row `y` of `b`, nothing if one
/// of them does not exist.
pub open spec fn row_cost(a: Seq<u32>, b: Seq<u32>, s: int, y: int) -> int {
    if 0 <= y + s < min_len(a, b) {
        distance(a[y + s], b[y])
    } else {
        0
    }
}

/// The sum of the differences in the first `rows` rows of `b`.
pub open spec fn cost_to(a: Seq<u32>, b: Seq<u32>, s: int, rows: int) -> int
    decreases rows,
{
    if rows <= 0 {
        0
    } else {
        cost_to(a, b, s, rows - 1) + row_cost(a, b, s, rows - 1)
    }
}

/// The sum of the differences between `a`, moved up by `s` rows, and `b`.
pub open spec fn cost(a: Seq<u32>, b: Seq<u32>, s: int) -> int {
    cost_to(a, b, s, min_len(a, b))
}

/// How many rows `a`, moved up by `s` rows, has in common with `b`.
pub open spec fn overlap(a: Seq<u32>, b: Seq<u32>, s: int) -> int {
    let n = min_len(a, b);
    let moved = if s < 0 {
        -s
    } else {
        s
    };
    if moved < n {
        n - moved
    } else {
        0
    }
}

/// Whether a shift is looked at.
pub open spec fn considered(a: Seq<u32>, b: Seq<u32>, s: int) -> bool {
    -SHIFT_MAX <= s <= SHIFT_MAX && overlap(a, b, s) > OVERLAP_MIN
}

/// The difference per row of overlap, in units of 1/1024.
pub open spec fn mean_cost(a: Seq<u32>, b: Seq<u32>, s: int) -> int {
    cost(a, b, s) * 1024 / overlap(a, b, s)
}

/// Whether `s` is the best shift: of the least difference per row, and the
/// first of those.
pub open spec fn is_best(a: Seq<u32>, b: Seq<u32>, s: int) -> bool {
    &&& considered(a, b, s)
    &&& forall|t: int|
        considered(a, b, t) ==> mean_cost(a, b, s) <= #[trigger] mean_cost(a, b, t)
    &&& forall|t: int|
        considered(a, b, t) && t < s ==> mean_cost(a, b, s) < #[trigger] mean_cost(a, b, t)
}

/// Whether two profiles can be compared without leaving the range of the
/// machine's integers.
pub open spec fn comparable(a: Seq<u32>, b: Seq<u32>) -> bool {
    &&& min_len(a, b) + SHIFT_MAX - 1 <= i32::MAX
    &&& forall|s: int| considered(a, b, s) ==> #[trigger] cost(a, b, s) * 1024 <= u64::MAX
}

/// A sum of differences over `rows` rows is not negative, and no larger than
/// if each were as large as possible.
proof fn lemma_cost_bounds(a: Seq<u32>, b: Seq<u32>, s: int, rows: int, most: int)
    requires
        0 <= rows <= min_len(a, b),
        0 <= most,
        forall|y: int| 0 <= y < min_len(a, b) ==> #[trigger] row_cost(a, b, s, y) <= most,
    ensures
        0 <= cost_to(a, b, s, rows) <= rows * most,
    decreases rows,
{
    if rows > 0 {
        lemma_cost_bounds(a, b, s, rows - 1, most);
        assert(row_cost(a, b, s, rows - 1) <= most);
        assert(rows * most == (rows - 1) * most + most) by (nonlinear_arith);
    } else {
        assert(rows * most == 0) by (nonlinear_arith)
            requires
                rows == 0,
        ;
    }
}

/// The sum of the differences between `a`, moved up by `s` rows, and `b`, with
/// the number of rows in common.
fn compare(a: &[u32], b: &[u32], s: i32) -> (r: (u64, u32))
    requires
        min_len(a@, b@) + SHIFT_MAX - 1 <= i32::MAX,
        -SHIFT_MAX <= s <= SHIFT_MAX,
    ensures
        r.0 == cost(a@, b@, s as int),
        r.1 == overlap(a@, b@, s as int),
{
    let n: usize = if a.len() <= b.len() {
        a.len()
    } else {
        b.len()
    };
    let mut total: u64 = 0;
    let mut count: u32 = 0;
    let mut y: i32 = 0;
    while y < n as i32
        invariant
            n == min_len(a@, b@),
            n + SHIFT_MAX - 1 <= i32::MAX,
            -SHIFT_MAX <= s <= SHIFT_MAX,
            0 <= y <= n,
            total == cost_to(a@, b@, s as int, y as int),
            count == if s < 0 {
                if y + s > 0 {
                    y + s
                } else {
                    0
                }
            } else if y + s <= n {
                y as int
            } else if s <= n {
                n - s
            } else {
                0
            },
        decreases n - y,
    {
        proof {
            lemma_cost_bounds(a@, b@, s as int, y as int, u32::MAX as int);
            assert(y * u32::MAX <= 0x7fff_ffff * 0xffff_ffff) by (nonlinear_arith)
                requires
                    0 <= y <= 0x7fff_ffff,
                    u32::MAX == 0xffff_ffff,
            ;
        }
        let ya: i32 = y + s;
        if 0 <= ya && ya < n as i32 {
            let p: u32 = a[ya as usize];
            let q: u32 = b[y as usize];
            total = total + if p >= q {
                (p - q) as u64
            } else {
                (q - p) as u64
            };
            count = count + 1;
        }
        y = y + 1;
    }
    (total, count)
}

/// The best shift of `a` (before) onto `b` (after), with its difference per
/// row in units of 1/1024. If no shift leaves enough rows in common, the shift
/// is 0 and the difference the largest number there is.
pub fn best_shift(a: &[u32], b: &[u32]) -> (best: (i32, u64))
    requires
        comparable(a@, b@),
    ensures
        if exists|s: int| considered(a@, b@, s) {
            is_best(a@, b@, best.0 as int) && best.1 == mean_cost(a@, b@, best.0 as int)
        } else {
            best == (0i32, u64::MAX)
        },
{
    let mut best: (i32, u64) = (0, u64::MAX);
    let mut s: i32 = -SHIFT_MAX;
    let ghost mut found = false;
    while s <= SHIFT_MAX
        invariant
            comparable(a@, b@),
            -SHIFT_MAX <= s <= SHIFT_MAX + 1,
            found <==> exists|t: int| t < s && considered(a@, b@, t),
            !found ==> best == (0i32, u64::MAX),
            found ==> {
                &&& considered(a@, b@, best.0 as int)
                &&& best.0 < s
                &&& best.1 == mean_cost(a@, b@, best.0 as int)
                &&& forall|t: int|
                    considered(a@, b@, t) && t < s ==> best.1 <= #[trigger] mean_cost(a@, b@, t)
                &&& forall|t: int|
                    considered(a@, b@, t) && t < best.0 ==> best.1 < #[trigger] mean_cost(
                        a@,
                        b@,
                        t,
                    )
            },
        decreases SHIFT_MAX + 1 - s,
    {
        let (total, count) = compare(a, b, s);
        if count > OVERLAP_MIN {
            assert(considered(a@, b@, s as int));
            let normalized: u64 = total * 1024 / count as u64;
            assert(normalized == mean_cost(a@, b@, s as int));
            assert(normalized < u64::MAX) by (nonlinear_arith)
                requires
                    normalized == (total * 1024) as int / count as int,
                    total * 1024 <= u64::MAX,
                    count > 60,
            ;
            if normalized < best.1 {
                best = (s, normalized);
            }
            proof {
                found = true;
            }
        }
        s = s + 1;
    }
    best
}

/// The best shift of `a` onto `b`, or 0 if none is looked at.
pub open spec fn shift_between(a: Seq<u32>, b: Seq<u32>) -> int {
    if exists|s: int| considered(a, b, s) {
        choose|s: int| is_best(a, b, s)
    } else {
        0
    }
}

/// There is one best shift at most.
pub proof fn law_best_shift_is_unique(a: Seq<u32>, b: Seq<u32>, s: int, t: int)
    requires
        is_best(a, b, s),
        is_best(a, b, t),
    ensures
        s == t,
{
    assert(mean_cost(a, b, s) <= mean_cost(a, b, t));
    assert(mean_cost(a, b, t) <= mean_cost(a, b, s));
}

/// The best shift of `a` (before) onto `b` (after); positive if the content
/// moved up.
pub fn measure_shift(a: &[u32], b: &[u32]) -> (shift: i32)
    requires
        comparable(a@, b@),
    ensures
        if exists|s: int| considered(a@, b@, s) {
            is_best(a@, b@, shift as int)
        } else {
            shift == 0
        },
        shift == shift_between(a@, b@),
        -SHIFT_MAX <= shift <= SHIFT_MAX,
{
    let best = best_shift(a, b);
    proof {
        if exists|s: int| considered(a@, b@, s) {
            law_best_shift_is_unique(a@, b@, best.0 as int, shift_between(a@, b@));
        }
    }
    best.0
}

/// Profiles of pages can always be compared.
pub proof fn law_profiles_are_comparable(
    a: Seq<u32>,
    b: Seq<u32>,
    before: crate::ink::Grey,
    after: crate::ink::Grey,
)
    requires
        before.is_profile(a),
        after.is_profile(b),
    ensures
        comparable(a, b),
{
    crate::ink::law_profiles_are_small(before, a);
    crate::ink::law_profiles_are_small(after, b);
    lemma_small_profiles(a, b);
}

/// Whether a profile is no larger than that of a page.
pub open spec fn page_sized(profile: Seq<u32>) -> bool {
    &&& profile.len() <= 1024
    &&& forall|y: int| 0 <= y < profile.len() ==> #[trigger] profile[y] <= 768
}

proof fn lemma_small_profiles(a: Seq<u32>, b: Seq<u32>)
    requires
        page_sized(a),
        page_sized(b),
    ensures
        comparable(a, b),
{
    assert forall|s: int| considered(a, b, s) implies #[trigger] cost(a, b, s) * 1024
        <= u64::MAX by {
        lemma_cost_bounds(a, b, s, min_len(a, b), 768);
        assert(min_len(a, b) * 768 <= 1024 * 768);
    }
}

/// If any shift is looked at, one of them is the best; `hi` bounds the search.
proof fn lemma_best_exists(a: Seq<u32>, b: Seq<u32>, t: int, hi: int) -> (s: int)
    requires
        considered(a, b, t),
        t <= hi <= SHIFT_MAX,
    ensures
        considered(a, b, s),
        s <= hi,
        forall|u: int|
            considered(a, b, u) && u <= hi ==> mean_cost(a, b, s) <= #[trigger] mean_cost(a, b, u),
        forall|u: int|
            considered(a, b, u) && u < s ==> mean_cost(a, b, s) < #[trigger] mean_cost(a, b, u),
    decreases hi + SHIFT_MAX,
{
    let earlier = hi - 1;
    if exists|u: int| considered(a, b, u) && u <= earlier {
        let u = choose|u: int| considered(a, b, u) && u <= earlier;
        let best = lemma_best_exists(a, b, u, earlier);
        if considered(a, b, hi) && mean_cost(a, b, hi) < mean_cost(a, b, best) {
            hi
        } else {
            best
        }
    } else {
        t
    }
}

/// There is a best shift whenever any is looked at.
pub proof fn law_a_best_shift_exists(a: Seq<u32>, b: Seq<u32>, t: int)
    requires
        considered(a, b, t),
    ensures
        is_best(a, b, shift_between(a, b)),
{
    let s = lemma_best_exists(a, b, t, SHIFT_MAX as int);
    assert(is_best(a, b, s));
}

/// Whether `a`, moved up by `s` rows, is the same as `b` in all rows that they
/// have in common.
pub open spec fn aligns(a: Seq<u32>, b: Seq<u32>, s: int) -> bool {
    forall|y: int|
        0 <= y < min_len(a, b) && 0 <= y + s < min_len(a, b) ==> a[y + s] == #[trigger] b[y]
}

/// If a page scrolled by `s` rows and shows the same ink otherwise, a shift at
/// which all rows in common are the same is measured. If `s` is the only such
/// shift, it is `s`.
pub proof fn law_an_exact_shift_is_measured(a: Seq<u32>, b: Seq<u32>, s: int)
    requires
        min_len(a, b) <= 1024,
        considered(a, b, s),
        aligns(a, b, s),
    ensures
        aligns(a, b, shift_between(a, b)),
        (forall|t: int| considered(a, b, t) && #[trigger] aligns(a, b, t) ==> t == s)
            ==> shift_between(a, b) == s,
{
    let n = min_len(a, b);
    let best = shift_between(a, b);
    law_a_best_shift_exists(a, b, s);
    assert forall|i: int| 0 <= i < n implies #[trigger] row_cost(a, b, s, i) <= 0 by {
        if 0 <= i + s < n {
            assert(a[i + s] == b[i]);
        }
    }
    lemma_cost_bounds(a, b, s, n, 0);
    assert(n * 0 == 0);
    assert(mean_cost(a, b, s) == 0) by (nonlinear_arith)
        requires
            mean_cost(a, b, s) == 0int * 1024 / overlap(a, b, s),
            overlap(a, b, s) > 60,
    ;
    lemma_cost_bounds(a, b, best, n, u32::MAX as int);
    let (c, o) = (cost(a, b, best), overlap(a, b, best));
    assert(mean_cost(a, b, best) <= mean_cost(a, b, s));
    assert(c == 0) by (nonlinear_arith)
        requires
            c * 1024 / o <= 0,
            0 <= c,
            0 < o <= 1024,
    ;
    assert forall|y: int| 0 <= y < n && 0 <= y + best < n implies a[y + best]
        == #[trigger] b[y] by {
        lemma_zero_cost(a, b, best, n, y);
    }
    assert(considered(a, b, best) && aligns(a, b, best));
}

/// Where the sum of the differences is nothing, every difference is.
proof fn lemma_zero_cost(a: Seq<u32>, b: Seq<u32>, s: int, rows: int, y: int)
    requires
        0 <= y < rows <= min_len(a, b),
        cost_to(a, b, s, rows) == 0,
    ensures
        row_cost(a, b, s, y) == 0,
    decreases rows,
{
    lemma_cost_bounds(a, b, s, rows - 1, u32::MAX as int);
    if y < rows - 1 {
        lemma_zero_cost(a, b, s, rows - 1, y);
    }
}

/// The points of a fling after its first: a quick drag of 100 pixels up the
/// middle of the screen.
pub open spec fn fling_points() -> Seq<(i32, i32)> {
    Seq::new(10, |i: int| (400, (740 - 10 * i) as i32))
}

/// A fling stays away from the toolbar and from every trigger corner.
pub proof fn law_flings_stay_clear(i: int, corner: TriggerCorner)
    requires
        0 <= i < fling_points().len(),
    ensures
        fling_points()[i].0 >= crate::ink::PAGE_X_MIN,
        !corner.holds(fling_points()[i].0 as int, fling_points()[i].1 as int),
        !corner.holds(400, 750),
{
}

/// One fling up the page of a device.
pub open spec fn spec_fling_up(device_model: DeviceModel) -> Seq<Step> {
    let touch = Touch {
        mode: TouchMode::Real { input_device: true, event_stream: true, device_model },
        trigger_corner: TriggerCorner::UpperRight,
    };
    touch.spec_touch_start((400, 750)) + touch.spec_drag(fling_points(), 10)
        + touch.spec_touch_stop()
}

/// One fling up the page.
pub fn fling_up(device_model: DeviceModel) -> (plan: Plan)
    ensures
        plan@ == spec_fling_up(device_model),
        ({
            let touch = Touch {
                mode: TouchMode::Real { input_device: true, event_stream: true, device_model },
                trigger_corner: TriggerCorner::UpperRight,
            };
            plan@ == touch.spec_touch_start((400, 750)) + touch.spec_drag(fling_points(), 10)
                + touch.spec_touch_stop()
        }),
{
    let touch = Touch::new(false, TriggerCorner::UpperRight, device_model);
    let mut points: Vec<(i32, i32)> = Vec::new();
    let mut i: i32 = 1;
    while i <= 10
        invariant
            1 <= i <= 11,
            points@ =~= fling_points().take(i - 1),
        decreases 11 - i,
    {
        points.push((400, 750 - 10 * i));
        i = i + 1;
    }
    assert(points@ =~= fling_points());
    let mut plan = touch.touch_start((400, 750));
    plan.follow_with(touch.drag(&points, 10));
    plan.follow_with(touch.touch_stop());
    plan
}

/// An attempt to scroll the page up.
#[derive(Clone, Copy, Debug, PartialEq, Eq, Structural)]
pub struct ScrollUp {
    /// How much blank space is needed, as the bit pattern of a number in
    /// single precision.
    pub needed_px: u32,
    /// What the flings so far have moved the page by.
    pub total: i32,
    pub flings: u32,
    /// Whether the last fling did not move the page.
    pub stuck: bool,
}

impl ScrollUp {
    pub open spec fn wf(self) -> bool {
        &&& self.flings <= FLING_MAX
        &&& 0 <= self.total <= SHIFT_MAX * self.flings
    }

    /// Whether the space is there.
    pub open spec fn done(self) -> bool {
        crate::binary32::reaches(self.total as int, self.needed_px)
    }

    /// Whether to fling once more.
    pub open spec fn goes_on(self) -> bool {
        self.flings < FLING_MAX && !self.stuck && !self.done()
    }

    /// The attempt after a fling that moved the page up by `shift`.
    pub open spec fn flung(self, shift: int) -> ScrollUp {
        if shift <= STILL_MAX {
            ScrollUp { flings: (self.flings + 1) as u32, stuck: true, ..self }
        } else {
            ScrollUp {
                flings: (self.flings + 1) as u32,
                total: (self.total + shift) as i32,
                ..self
            }
        }
    }

    /// An attempt at its start.
    pub open spec fn spec_start(needed_px: u32) -> ScrollUp {
        ScrollUp { needed_px, total: 0, flings: 0, stuck: false }
    }

    /// Whether to fling once more. If not, `total` is what the page moved by.
    pub fn wants_fling(&self) -> (more: bool)
        requires
            self.wf(),
        ensures
            more == self.goes_on(),
    {
        self.flings < FLING_MAX && !self.stuck && !at_least(self.total, self.needed_px)
    }

    /// Takes in the ink before and after a fling, and returns what the fling
    /// moved the page by.
    pub fn fling_measured(&mut self, before: &[u32], after: &[u32]) -> (shift: i32)
        requires
            old(self).wf(),
            old(self).flings < FLING_MAX,
            comparable(before@, after@),
        ensures
            shift == shift_between(before@, after@),
            *final(self) == old(self).flung(shift_between(before@, after@)),
            final(self).wf(),
    {
        let shift = measure_shift(before, after);
        self.flings = self.flings + 1;
        if shift <= STILL_MAX {
            self.stuck = true;
        } else {
            self.total = self.total + shift;
        }
        shift
    }

    /// The attempt after a series of flings, as long as it goes on.
    pub open spec fn after(self, shifts: Seq<int>) -> ScrollUp
        decreases shifts.len(),
    {
        if shifts.len() == 0 {
            self
        } else {
            let before = self.after(shifts.drop_last());
            if before.goes_on() {
                before.flung(shifts.last())
            } else {
                before
            }
        }
    }
}

/// Starts to scroll the page up until `needed_px` pixels of blank space, given
/// as the bit pattern of a number in single precision, have come up below.
pub fn scroll_up_to_make_room(needed_px: u32) -> (attempt: ScrollUp)
    ensures
        attempt == (ScrollUp { needed_px, total: 0, flings: 0, stuck: false }),
        attempt == ScrollUp::spec_start(needed_px),
        attempt.wf(),
{
    ScrollUp { needed_px, total: 0, flings: 0, stuck: false }
}

/// An attempt is over after [`FLING_MAX`] flings at the latest. When it is over
/// without having reached what was needed, the last fling did not move the
/// page, or there were that many of them; and a page that never moved was
/// scrolled by nothing.
pub proof fn law_scrolling_ends(attempt: ScrollUp, shifts: Seq<int>)
    requires
        attempt.flings == 0,
        attempt.total == 0,
        !attempt.stuck,
        forall|i: int| 0 <= i < shifts.len() ==> #[trigger] shifts[i] <= SHIFT_MAX,
    ensures
        attempt.after(shifts).wf(),
        attempt.after(shifts).flings <= shifts.len(),
        shifts.len() >= FLING_MAX ==> !attempt.after(shifts).goes_on(),
        attempt.after(shifts).goes_on() ==> attempt.after(shifts).flings == shifts.len(),
        !attempt.after(shifts).goes_on() ==> attempt.after(shifts).done() || attempt.after(
            shifts,
        ).stuck || attempt.after(shifts).flings == FLING_MAX,
        shifts.len() > 0 && shifts[0] <= STILL_MAX ==> attempt.after(shifts).total == 0
            && !attempt.after(shifts).goes_on(),
    decreases shifts.len(),
{
    if shifts.len() > 0 {
        law_scrolling_ends(attempt, shifts.drop_last());
        assert(shifts.last() <= SHIFT_MAX);
        if shifts.len() == 1 {
            assert(shifts.drop_last() =~= seq![]);
        } else {
            assert(shifts.drop_last()[0] == shifts[0]);
        }
    }
}

/// The sum of the shifts that count as moving the page.
pub open spec fn moved_by(shifts: Seq<int>) -> int
    decreases shifts.len(),
{
    if shifts.len() == 0 {
        0
    } else {
        moved_by(shifts.drop_last()) + if shifts.last() > STILL_MAX {
            shifts.last()
        } else {
            0
        }
    }
}

/// The total of an attempt is the sum of what its flings moved the page by,
/// without those that did not move it; and before each of its flings the total
/// was below what was needed.
pub proof fn law_the_total_is_what_was_measured(attempt: ScrollUp, shifts: Seq<int>)
    requires
        attempt.flings == 0,
        attempt.total == 0,
        !attempt.stuck,
        forall|i: int| 0 <= i < shifts.len() ==> #[trigger] shifts[i] <= SHIFT_MAX,
    ensures
        ({
            let flings = attempt.after(shifts).flings as int;
            &&& flings <= shifts.len()
            &&& attempt.after(shifts).total == moved_by(shifts.take(flings))
            &&& forall|i: int|
                0 <= i < flings ==> !(#[trigger] attempt.after(shifts.take(i))).done()
        }),
    decreases shifts.len(),
{
    if shifts.len() > 0 {
        let earlier = shifts.drop_last();
        law_the_total_is_what_was_measured(attempt, earlier);
        law_scrolling_ends(attempt, earlier);
        let before = attempt.after(earlier);
        let flings = attempt.after(shifts).flings as int;
        assert(shifts.last() <= SHIFT_MAX);
        assert(earlier.take(before.flings as int) =~= shifts.take(before.flings as int));
        if before.goes_on() {
            assert(shifts.take(flings) =~= shifts);
            assert(earlier.take(before.flings as int) =~= earlier);
        }
        assert forall|i: int| 0 <= i < flings implies !(#[trigger] attempt.after(
            shifts.take(i),
        )).done() by {
            assert(i <= earlier.len());
            assert(shifts.take(i) =~= earlier.take(i));
            if i == earlier.len() {
                assert(earlier.take(i) =~= earlier);
            }
        }
    } else {
        assert(shifts.take(0) =~= seq![]);
    }
}

/// The difference between two counts.
pub open spec fn gap(p: u32, q: u32) -> int {
    if p < q {
        q - p
    } else {
        p - q
    }
}

/// The sum of the differences in the first `rows` of the rows that `a`, moved up
/// by `s` rows, has in common with `b`.
pub open spec fn misfit(a: Seq<u32>, b: Seq<u32>, s: int, rows: int) -> int
    decreases rows,
{
    if rows <= 0 {
        0
    } else {
        let y = rows - 1 + if s < 0 {
            -s
        } else {
            0
        };
        misfit(a, b, s, rows - 1) + gap(a[y + s], b[y])
    }
}

/// The rows that two profiles of `n` rows have in common after a shift.
pub open spec fn in_common(n: int, s: int) -> int {
    if s < 0 {
        n + s
    } else {
        n - s
    }
}

/// Whether `n` is the length of the shorter of two profiles.
pub open spec fn is_shorter(a: Seq<u32>, b: Seq<u32>, n: int) -> bool {
    n <= a.len() && n <= b.len() && (n == a.len() || n == b.len())
}

proof fn lemma_cost_is_misfit(a: Seq<u32>, b: Seq<u32>, s: int, n: int, rows: int)
    requires
        is_shorter(a, b, n),
        0 <= rows <= n,
        in_common(n, s) > 0,
    ensures
        ({
            let first = if s < 0 {
                -s
            } else {
                0
            };
            let shared = if rows <= first {
                0
            } else if rows - first <= in_common(n, s) {
                rows - first
            } else {
                in_common(n, s)
            };
            cost_to(a, b, s, rows) == misfit(a, b, s, shared)
        }),
    decreases rows,
{
    if rows > 0 {
        lemma_cost_is_misfit(a, b, s, n, rows - 1);
    }
}

/// The cost of a shift is the sum of the differences of the rows in common, in
/// units of 1/1024 per row; and every shift of up to 950 rows either way that
/// leaves more than 60 rows in common takes part.
pub proof fn law_every_shift_takes_part(a: Seq<u32>, b: Seq<u32>, s: int, n: int)
    requires
        is_shorter(a, b, n),
    ensures
        considered(a, b, s) <==> -950 <= s <= 950 && in_common(n, s) > 60,
        in_common(n, s) > 60 ==> mean_cost(a, b, s) == misfit(a, b, s, in_common(n, s)) * 1024
            / in_common(n, s),
{
    if in_common(n, s) > 60 {
        lemma_cost_is_misfit(a, b, s, n, n);
    }
}

/// Of all shifts of up to 950 rows either way that leave more than 60 rows in
/// common, the one that is measured has the least difference per row, and is
/// the first of those. Without such a shift nothing is measured.
pub proof fn law_the_measured_shift_fits_best(a: Seq<u32>, b: Seq<u32>, s: int, n: int)
    requires
        is_shorter(a, b, n),
    ensures
        ({
            let r = shift_between(a, b);
            &&& n > 60 ==> -950 <= r <= 950 && in_common(n, r) > 60
            &&& n <= 60 ==> r == 0
            &&& -950 <= s <= 950 && in_common(n, s) > 60 ==> {
                let least = misfit(a, b, r, in_common(n, r)) * 1024 / in_common(n, r);
                let other = misfit(a, b, s, in_common(n, s)) * 1024 / in_common(n, s);
                least <= other && (s < r ==> least < other)
            }
        }),
{
    let r = shift_between(a, b);
    if n > 60 {
        law_every_shift_takes_part(a, b, 0, n);
        law_a_best_shift_exists(a, b, 0);
        law_every_shift_takes_part(a, b, r, n);
        law_every_shift_takes_part(a, b, s, n);
    } else {
        assert forall|t: int| !considered(a, b, t) by {
            law_every_shift_takes_part(a, b, t, n);
        }
    }
}

/// A page that scrolled by any `s` of up to 950 rows either way, with more than
/// 60 rows still in sight and the ink of those unchanged, is measured by a shift
/// that fits just as well; by `s` itself if no other shift does.
pub proof fn law_a_scrolled_page_is_measured(a: Seq<u32>, b: Seq<u32>, s: int, n: int)
    requires
        is_shorter(a, b, n),
        n <= 1024,
        -950 <= s <= 950,
        in_common(n, s) > 60,
        forall|y: int| 0 <= y < n && 0 <= y + s < n ==> a[y + s] == #[trigger] b[y],
    ensures
        ({
            let r = shift_between(a, b);
            &&& forall|y: int| 0 <= y < n && 0 <= y + r < n ==> a[y + r] == #[trigger] b[y]
            &&& (forall|t: int|
                -950 <= t <= 950 && in_common(n, t) > 60 && t != s ==> !#[trigger] aligns(a, b, t))
                ==> r == s
        }),
{
    law_every_shift_takes_part(a, b, s, n);
    law_an_exact_shift_is_measured(a, b, s);
    assert forall|t: int| considered(a, b, t) implies -950 <= t <= 950 && in_common(n, t) > 60 by {
        law_every_shift_takes_part(a, b, t, n);
    }
}

/// A fling that moved the page by more than five rows is added to the total; any
/// other ends the attempt.
pub proof fn law_a_fling_counts_if_it_moved_the_page(attempt: ScrollUp, shift: int)
    requires
        attempt.wf(),
        attempt.flings < 4,
        -950 <= shift <= 950,
    ensures
        ({
            let after = attempt.flung(shift);
            &&& after.total == attempt.total + if shift > 5 {
                shift
            } else {
                0
            }
            &&& after.flings == attempt.flings + 1
            &&& after.needed_px == attempt.needed_px
            &&& shift <= 5 ==> !after.goes_on()
            &&& shift > 5 ==> after.stuck == attempt.stuck
        }),
{
}

pub open spec fn sum(shifts: Seq<int>) -> int
    decreases shifts.len(),
{
    if shifts.len() == 0 {
        0
    } else {
        sum(shifts.drop_last()) + shifts.last()
    }
}

/// An attempt goes on just as long as fewer than four flings were made, each of
/// them moved the page by more than five rows, and their sum has never reached
/// what is needed.
pub proof fn law_when_scrolling_goes_on(attempt: ScrollUp, shifts: Seq<int>)
    requires
        attempt.flings == 0,
        attempt.total == 0,
        !attempt.stuck,
        forall|i: int| 0 <= i < shifts.len() ==> #[trigger] shifts[i] <= 950,
    ensures
        attempt.after(shifts).goes_on() <==> {
            &&& shifts.len() < 4
            &&& forall|i: int| 0 <= i < shifts.len() ==> #[trigger] shifts[i] > 5
            &&& forall|j: int|
                0 <= j <= shifts.len() ==> !crate::binary32::reaches(
                    sum(#[trigger] shifts.take(j)),
                    attempt.needed_px,
                )
        },
        attempt.after(shifts).goes_on() ==> attempt.after(shifts).total == sum(shifts),
    decreases shifts.len(),
{
    let needed = attempt.needed_px;
    assert(shifts.take(shifts.len() as int) =~= shifts);
    lemma_needed_stays(attempt, shifts);
    law_scrolling_ends(attempt, shifts);
    if shifts.len() > 0 {
        let earlier = shifts.drop_last();
        let n = earlier.len() as int;
        law_when_scrolling_goes_on(attempt, earlier);
        law_scrolling_ends(attempt, earlier);
        lemma_needed_stays(attempt, earlier);
        assert(shifts[n] <= 950);
        assert(forall|i: int| 0 <= i < n ==> earlier[i] == #[trigger] shifts[i]);
        assert forall|j: int| 0 <= j <= n implies #[trigger] shifts.take(j) == earlier.take(j) by {
            assert(shifts.take(j) =~= earlier.take(j));
        }
        assert forall|j: int| 0 <= j <= n implies #[trigger] earlier.take(j) == shifts.take(j) by {
            assert(shifts.take(j) =~= earlier.take(j));
        }
        assert forall|i: int| 0 <= i < n implies #[trigger] earlier[i] == shifts[i] by {}
    } else {
        assert(shifts.take(0) =~= seq![]);
    }
}

proof fn lemma_needed_stays(attempt: ScrollUp, shifts: Seq<int>)
    ensures
        attempt.after(shifts).needed_px == attempt.needed_px,
    decreases shifts.len(),
{
    if shifts.len() > 0 {
        lemma_needed_stays(attempt, shifts.drop_last());
    }
}

/// A fling goes straight up by 100 pixels, ten at a time.
pub proof fn law_flings_go_straight_up(i: int)
    requires
        0 <= i < 10,
    ensures
        fling_points().len() == 10,
        fling_points()[i] == (400i32, (750 - 10 * (i + 1)) as i32),
{
}

/// From its start, an attempt to make room goes on just as long as fewer than
/// four flings were made, each of them moved the page by more than five rows,
/// and their sum has never reached what is needed; whenever it stops, its total
/// is the sum of the flings that were made and moved the page.
pub proof fn law_room_is_made_from_the_start(needed_px: u32, shifts: Seq<int>)
    requires
        forall|i: int| 0 <= i < shifts.len() ==> #[trigger] shifts[i] <= 950,
    ensures
        ({
            let after = ScrollUp::spec_start(needed_px).after(shifts);
            &&& after.goes_on() <==> {
                &&& shifts.len() < 4
                &&& forall|i: int| 0 <= i < shifts.len() ==> #[trigger] shifts[i] > 5
                &&& forall|j: int|
                    0 <= j <= shifts.len() ==> !crate::binary32::reaches(
                        sum(#[trigger] shifts.take(j)),
                        needed_px,
                    )
            }
            &&& after.goes_on() ==> after.total == sum(shifts)
            &&& after.flings <= shifts.len()
            &&& after.total == moved_by(shifts.take(after.flings as int))
        }),
{
    let start = ScrollUp::spec_start(needed_px);
    law_when_scrolling_goes_on(start, shifts);
    law_the_total_is_what_was_measured(start, shifts);
}

} // verus!
