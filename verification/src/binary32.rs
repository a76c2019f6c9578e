//! Single-precision arithmetic on integers.
//!
//! The tablet's coordinate maps are defined in IEEE 754 binary32 arithmetic.
//! A [`Binary32`] is such a number, kept as a significand of 24 bits and a
//! power of two, and every operation here rounds as the standard prescribes:
//! to the nearest representable number, and to an even significand when two
//! are equally near. Exponents are never large enough in this library to reach
//! the ends of the format, so infinities and subnormal numbers do not arise.
use vstd::arithmetic::power2::*;
use vstd::prelude::*;

verus! {

/// The smallest significand of a nonzero number.
pub const SIGNIFICAND_MIN: u32 = 0x80_0000;

/// One more than the largest significand.
pub const SIGNIFICAND_END: u32 = 0x100_0000;

/// The number `significand * 2^exponent`.
#[derive(Clone, Copy, Debug, PartialEq, Eq, Structural)]
pub struct Binary32 {
    pub significand: i32,
    pub exponent: i32,
}

/// A number `significand * 2^exponent`, with no bound on either.
pub struct Dyadic {
    pub significand: int,
    pub exponent: int,
}

impl View for Binary32 {
    type V = Dyadic;

    open spec fn view(&self) -> Dyadic {
        Dyadic { significand: self.significand as int, exponent: self.exponent as int }
    }
}

impl Dyadic {
    /// The form in which every rounded number is kept: zero has one
    /// representation, and any other number a significand of exactly 24 bits.
    pub open spec fn normal(self) -> bool {
        ||| self.significand == 0 && self.exponent == 0
        ||| SIGNIFICAND_MIN <= magnitude(self.significand) < SIGNIFICAND_END
    }
}

impl Dyadic {
    /// The [`Binary32`] that is this number.
    pub open spec fn kept(self) -> Binary32 {
        Binary32 { significand: self.significand as i32, exponent: self.exponent as i32 }
    }

    /// The integer `v`, rounded.
    pub open spec fn of(v: int) -> Dyadic {
        rounded(v, 1, 0)
    }

    pub open spec fn negated(self) -> Dyadic {
        Dyadic { significand: -self.significand, exponent: self.exponent }
    }

    /// The sum of two numbers, rounded.
    pub open spec fn plus(self, other: Dyadic) -> Dyadic {
        let e = if self.exponent <= other.exponent {
            self.exponent
        } else {
            other.exponent
        };
        rounded(
            self.significand * pow2((self.exponent - e) as nat) + other.significand * pow2(
                (other.exponent - e) as nat,
            ),
            1,
            e,
        )
    }

    /// The product of two numbers, rounded.
    pub open spec fn times(self, other: Dyadic) -> Dyadic {
        rounded(self.significand * other.significand, 1, self.exponent + other.exponent)
    }

    /// The quotient of two numbers, rounded.
    pub open spec fn over(self, other: Dyadic) -> Dyadic
        recommends
            other.significand != 0,
    {
        rounded(
            if other.significand < 0 {
                -self.significand
            } else {
                self.significand
            },
            magnitude(other.significand),
            self.exponent - other.exponent,
        )
    }

    /// The number without its fraction.
    pub open spec fn truncated(self) -> int {
        if self.exponent >= 0 {
            self.significand * pow2(self.exponent as nat)
        } else {
            with_sign_of(
                self.significand,
                magnitude(self.significand) / pow2((-self.exponent) as nat),
            )
        }
    }

    /// The number without its fraction, brought into the range of `i32`.
    pub open spec fn to_i32(self) -> int {
        if self.truncated() < i32::MIN {
            i32::MIN as int
        } else if self.truncated() > i32::MAX {
            i32::MAX as int
        } else {
            self.truncated()
        }
    }

    /// The smallest integer that is not below the number.
    pub open spec fn ceiling(self) -> int {
        if self.exponent >= 0 {
            self.significand * pow2(self.exponent as nat)
        } else {
            -((-self.significand) / (pow2((-self.exponent) as nat) as int))
        }
    }

    /// The bit pattern of the number in the interchange format: a sign bit,
    /// eight bits of biased exponent and the 23 low bits of the significand.
    pub open spec fn bits(self) -> int {
        if self.significand == 0 {
            0
        } else {
            (if self.significand < 0 {
                0x8000_0000int
            } else {
                0
            }) + (self.exponent + 150) * 0x80_0000 + (magnitude(self.significand)
                - SIGNIFICAND_MIN)
        }
    }

    /// `self <= other`, as numbers.
    pub open spec fn at_most(self, other: Dyadic) -> bool {
        if self.exponent <= other.exponent {
            self.significand <= other.significand * pow2((other.exponent - self.exponent) as nat)
        } else {
            self.significand * pow2((self.exponent - other.exponent) as nat) <= other.significand
        }
    }
}

impl Binary32 {
    pub open spec fn wf(self) -> bool {
        &&& self@.normal()
        &&& -400 <= self.exponent <= 400
    }

    /// Whether the number is one of the interchange format's: zero or a normal
    /// number of it.
    pub open spec fn representable(self) -> bool {
        &&& self.wf()
        &&& -149 <= self.exponent <= 104
    }
}

pub open spec fn magnitude(n: int) -> nat {
    if n < 0 {
        (-n) as nat
    } else {
        n as nat
    }
}

/// The sign of `n`, times `m`.
pub open spec fn with_sign_of(n: int, m: nat) -> int {
    if n < 0 {
        -(m as int)
    } else {
        m as int
    }
}

/// The integer nearest to `n / d`, the even one if two are.
pub open spec fn half_even(n: nat, d: nat) -> nat {
    let q = n / d;
    let r = n % d;
    if 2 * r < d {
        q
    } else if 2 * r > d {
        q + 1
    } else {
        q + q % 2
    }
}

/// `n / d * 2^e` with `n` doubled until `n / d` is at least
/// [`SIGNIFICAND_MIN`]: the new `n` and `e`.
pub open spec fn doubled(n: nat, d: nat, e: int) -> (nat, int)
    decreases if n < SIGNIFICAND_MIN * d { SIGNIFICAND_MIN * d - n } else { 0 },
{
    if 0 < n && n < SIGNIFICAND_MIN * d {
        doubled(2 * n, d, e - 1)
    } else {
        (n, e)
    }
}

/// `n / d * 2^e` with `d` doubled until `n / d` is below
/// [`SIGNIFICAND_END`]: the new `d` and `e`.
pub open spec fn halved(n: nat, d: nat, e: int) -> (nat, int)
    decreases n - d,
{
    if 0 < d && n >= SIGNIFICAND_END * d {
        halved(n, 2 * d, e + 1)
    } else {
        (d, e)
    }
}

/// The number in binary32 precision that is nearest to `n / d * 2^e`.
pub open spec fn rounded(n: int, d: nat, e: int) -> Dyadic {
    if n == 0 {
        Dyadic { significand: 0, exponent: 0 }
    } else {
        let (a, f) = doubled(magnitude(n), d, e);
        let (b, g) = halved(a, d, f);
        let m = half_even(a, b);
        if m == SIGNIFICAND_END {
            Dyadic { significand: with_sign_of(n, SIGNIFICAND_MIN as nat), exponent: g + 1 }
        } else {
            Dyadic { significand: with_sign_of(n, m), exponent: g }
        }
    }
}

pub(crate) proof fn lemma_scale_by_one(n: nat)
    ensures
        n * pow2(0) == n,
{
    lemma2_to64();
    assert(n * pow2(0) == n) by (nonlinear_arith)
        requires
            pow2(0) == 1,
    ;
}

/// `doubled` stops with a quotient that is large enough, and no larger than
/// needed; `k` bounds the number of steps.
pub(crate) proof fn lemma_doubled(n: nat, d: nat, e: int, k: nat)
    requires
        0 < n,
        0 < d,
        SIGNIFICAND_MIN * d <= n * pow2(k),
    ensures
        ({
            let (a, f) = doubled(n, d, e);
            &&& SIGNIFICAND_MIN * d <= a
            &&& e - k <= f <= e
            &&& a == n * pow2((e - f) as nat)
            &&& f < e ==> a < SIGNIFICAND_END * d
        }),
    decreases k,
{
    if n < SIGNIFICAND_MIN * d {
        if k == 0 {
            lemma_scale_by_one(n);
        }
        let j = (k - 1) as nat;
        lemma_pow2_unfold(k);
        assert(n * pow2(k) == (2 * n) * pow2(j)) by (nonlinear_arith)
            requires
                pow2(k) == 2 * pow2(j),
        ;
        lemma_doubled(2 * n, d, e - 1, j);
        lemma_scale_by_one(2 * n);
        let (a, f) = doubled(2 * n, d, e - 1);
        let s = (e - 1 - f) as nat;
        lemma_pow2_unfold((e - f) as nat);
        assert(n * pow2((e - f) as nat) == (2 * n) * pow2(s)) by (nonlinear_arith)
            requires
                pow2((e - f) as nat) == 2 * pow2(s),
        ;
    } else {
        lemma_scale_by_one(n);
    }
}

/// `halved` stops with a quotient that is small enough, and no smaller than
/// needed; `k` bounds the number of steps.
pub(crate) proof fn lemma_halved(n: nat, d: nat, e: int, k: nat)
    requires
        0 < d,
        SIGNIFICAND_MIN * d <= n,
        n < SIGNIFICAND_END * d * pow2(k),
    ensures
        ({
            let (b, f) = halved(n, d, e);
            &&& 0 < b
            &&& SIGNIFICAND_MIN * b <= n < SIGNIFICAND_END * b
            &&& e <= f <= e + k
            &&& b == d * pow2((f - e) as nat)
        }),
    decreases k,
{
    if n >= SIGNIFICAND_END * d {
        if k == 0 {
            lemma_scale_by_one(SIGNIFICAND_END as nat * d);
        }
        let j = (k - 1) as nat;
        lemma_pow2_unfold(k);
        assert(SIGNIFICAND_END * d * pow2(k) == SIGNIFICAND_END * (2 * d) * pow2(j))
            by (nonlinear_arith)
            requires
                pow2(k) == 2 * pow2(j),
        ;
        lemma_halved(n, 2 * d, e + 1, j);
        let (b, f) = halved(n, 2 * d, e + 1);
        let s = (f - e - 1) as nat;
        lemma_pow2_unfold((f - e) as nat);
        assert(d * pow2((f - e) as nat) == (2 * d) * pow2(s)) by (nonlinear_arith)
            requires
                pow2((f - e) as nat) == 2 * pow2(s),
        ;
    } else {
        lemma_scale_by_one(d);
    }
}

/// `half_even` is within half a unit of the quotient.
pub(crate) proof fn lemma_half_even(n: nat, d: nat)
    requires
        0 < d,
    ensures
        -(d as int) <= 2 * (n - half_even(n, d) * d) <= d,
{
    let q = n / d;
    let r = n % d;
    assert(n == q * d + r && r < d) by (nonlinear_arith)
        requires
            0 < d,
            q == n / d,
            r == n % d,
    ;
    assert((q + 1) * d == q * d + d) by (nonlinear_arith);
}

/// `half_even` of a quotient in `[lo, hi)` is in `[lo, hi]`.
pub(crate) proof fn lemma_half_even_range(n: nat, d: nat, lo: nat, hi: nat)
    requires
        0 < d,
        lo * d <= n < hi * d,
    ensures
        lo <= half_even(n, d) <= hi,
{
    let q = n / d;
    let r = n % d;
    assert(n == q * d + r && r < d) by (nonlinear_arith)
        requires
            0 < d,
            q == n / d,
            r == n % d,
    ;
    assert(lo <= q < hi) by (nonlinear_arith)
        requires
            n == q * d + r,
            0 <= r < d,
            lo * d <= n < hi * d,
    ;
}

impl Dyadic {
    /// A rounded number is normal, and its exponent is within the steps that
    /// the quotient needs.
    proof fn lemma_rounded(n: int, d: nat, e: int, up: nat, down: nat)
        requires
            n != 0,
            0 < d,
            SIGNIFICAND_MIN * d <= magnitude(n) * pow2(up),
            magnitude(n) < SIGNIFICAND_END * d * pow2(down),
        ensures
            rounded(n, d, e).normal(),
            rounded(n, d, e).significand != 0,
            (rounded(n, d, e).significand < 0) == (n < 0),
            e - up <= rounded(n, d, e).exponent <= e + down + 1,
    {
        let m = magnitude(n);
        lemma_doubled(m, d, e, up);
        let (a, f) = doubled(m, d, e);
        if f < e {
            lemma_scale_by_one(SIGNIFICAND_END as nat * d);
            lemma_halved(a, d, f, 0);
        } else {
            lemma_scale_by_one(m);
            lemma_halved(a, d, f, down);
        }
        let (b, g) = halved(a, d, f);
        lemma_half_even_range(a, b, SIGNIFICAND_MIN as nat, SIGNIFICAND_END as nat);
    }
}

/// No more than 55 doublings and 101 halvings are needed in `round`.
proof fn lemma_steps(n: nat, d: nat)
    requires
        0 < n,
        0 < d,
    ensures
        d <= 0x1_0000_0000 ==> SIGNIFICAND_MIN * d <= n * pow2(55),
        n < 0x2000_0000_0000_0000_0000_0000_0000_0000 ==> n < SIGNIFICAND_END * d * pow2(101),
{
    lemma2_to64();
    lemma2_to64_rest();
    lemma_pow2_adds(64, 37);
    assert(n * pow2(55) >= pow2(55)) by (nonlinear_arith)
        requires
            n >= 1,
    ;
    assert(SIGNIFICAND_END * d * pow2(101) >= SIGNIFICAND_END * pow2(101)) by (nonlinear_arith)
        requires
            d >= 1,
    ;
}

/// The number nearest to `n / d * 2^e`, or to its negative.
fn round(negative: bool, n: u128, d: u128, e: i32) -> (r: Binary32)
    requires
        n < 0x2000_0000_0000_0000_0000_0000_0000_0000,
        0 < d <= 0x1_0000_0000,
        -250 <= e <= 250,
    ensures
        r@ == rounded(if negative { -(n as int) } else { n as int }, d as nat, e as int),
        r.wf(),
        r.significand == 0 <==> n == 0,
{
    if n == 0 {
        return Binary32 { significand: 0, exponent: 0 };
    }
    let ghost (last_a, last_e) = doubled(n as nat, d as nat, e as int);
    let ghost (last_b, last_f) = halved(last_a, d as nat, last_e);
    proof {
        lemma_steps(n as nat, d as nat);
        Dyadic::lemma_rounded(if negative { -(n as int) } else { n as int }, d as nat, e as int, 55, 101);
        lemma_doubled(n as nat, d as nat, e as int, 55);
        lemma_scale_by_one(n as nat);
        lemma_steps(last_a, d as nat);
        lemma_halved(last_a, d as nat, last_e, 101);
        lemma_half_even_range(last_a, last_b, SIGNIFICAND_MIN as nat, SIGNIFICAND_END as nat);
    }
    let mut a: u128 = n;
    let mut b: u128 = d;
    let mut f: i32 = e;
    while a < SIGNIFICAND_MIN as u128 * d
        invariant
            0 < a < 0x2000_0000_0000_0000_0000_0000_0000_0000,
            0 < d <= 0x1_0000_0000,
            -250 <= e <= 250,
            e - 55 <= last_e <= f <= e,
            doubled(a as nat, d as nat, f as int) == (last_a, last_e),
        decreases if a < SIGNIFICAND_MIN * d { SIGNIFICAND_MIN * d - a } else { 0 },
    {
        proof {
            lemma_steps(2 * a as nat, d as nat);
            lemma_doubled(2 * a as nat, d as nat, f - 1, 55);
        }
        a = 2 * a;
        f = f - 1;
    }
    while a >= SIGNIFICAND_END as u128 * b
        invariant
            0 < a < 0x2000_0000_0000_0000_0000_0000_0000_0000,
            0 < b,
            SIGNIFICAND_MIN * b <= a,
            -305 <= f <= last_f <= 351,
            halved(a as nat, b as nat, f as int) == (last_b, last_f),
        decreases a - b,
    {
        proof {
            assert(SIGNIFICAND_MIN * (2 * b) == SIGNIFICAND_END * b);
            lemma_steps(a as nat, 2 * b as nat);
            lemma_halved(a as nat, 2 * b as nat, f + 1, 101);
        }
        b = 2 * b;
        f = f + 1;
    }
    let q: u128 = a / b;
    let r: u128 = a % b;
    let m: u128 = if 2 * r < b {
        q
    } else if 2 * r > b {
        q + 1
    } else {
        q + q % 2
    };
    let (s, g): (i32, i32) = if m == SIGNIFICAND_END as u128 {
        (SIGNIFICAND_MIN as i32, f + 1)
    } else {
        (m as i32, f)
    };
    Binary32 { significand: if negative { -s } else { s }, exponent: g }
}

/// The size of a product of two significands.
proof fn lemma_product(a: int, b: int)
    requires
        a == 0 || SIGNIFICAND_MIN <= magnitude(a) < SIGNIFICAND_END,
        b == 0 || SIGNIFICAND_MIN <= magnitude(b) < SIGNIFICAND_END,
    ensures
        a * b == 0 || SIGNIFICAND_MIN <= magnitude(a * b) < 0x1_0000_0000_0000,
{
    let m = magnitude(a);
    let n = magnitude(b);
    assert(magnitude(a * b) == m * n) by {
        assert((-a) * (-b) == a * b) by (nonlinear_arith);
        assert((-a) * b == -(a * b)) by (nonlinear_arith);
        assert(a * (-b) == -(a * b)) by (nonlinear_arith);
        assert(a >= 0 && b >= 0 ==> a * b >= 0) by (nonlinear_arith);
        assert(a <= 0 && b <= 0 ==> a * b >= 0) by (nonlinear_arith);
        assert(a >= 0 && b <= 0 ==> a * b <= 0) by (nonlinear_arith);
        assert(a <= 0 && b >= 0 ==> a * b <= 0) by (nonlinear_arith);
    }
    if a != 0 && b != 0 {
        assert(0x80_0000 <= m * n < 0x1_0000_0000_0000) by (nonlinear_arith)
            requires
                0x80_0000 <= m < 0x100_0000,
                0x80_0000 <= n < 0x100_0000,
        ;
    } else {
        assert(a * b == 0) by (nonlinear_arith)
            requires
                a == 0 || b == 0,
        ;
    }
}

/// How normal numbers compare: by sign, then by exponent, then by significand.
proof fn lemma_at_most(a: Dyadic, b: Dyadic)
    requires
        a.normal(),
        b.normal(),
    ensures
        a.significand <= 0 <= b.significand ==> a.at_most(b),
        b.significand <= 0 <= a.significand && a.significand != b.significand ==> !a.at_most(b),
        a.exponent == b.exponent ==> (a.at_most(b) <==> a.significand <= b.significand),
        a.exponent < b.exponent && a.significand > 0 && b.significand > 0 ==> a.at_most(b),
        a.exponent > b.exponent && a.significand > 0 && b.significand > 0 ==> !a.at_most(b),
        a.exponent < b.exponent && a.significand < 0 && b.significand < 0 ==> !a.at_most(b),
        a.exponent > b.exponent && a.significand < 0 && b.significand < 0 ==> a.at_most(b),
{
    let (x, y, k) = if a.exponent <= b.exponent {
        (a.significand, b.significand, (b.exponent - a.exponent) as nat)
    } else {
        (b.significand, a.significand, (a.exponent - b.exponent) as nat)
    };
    let p = pow2(k);
    lemma_pow2_pos(k);
    lemma2_to64();
    if k >= 1 {
        if k > 1 {
            lemma_pow2_strictly_increases(1, k);
        }
        assert(y > 0 ==> y * p >= 0x80_0000 * 2) by (nonlinear_arith)
            requires
                p >= 2,
                y > 0 ==> y >= 0x80_0000,
        ;
        assert(y < 0 ==> y * p <= -0x80_0000 * 2) by (nonlinear_arith)
            requires
                p >= 2,
                y < 0 ==> y <= -0x80_0000,
        ;
        assert(y == 0 ==> y * p == 0) by (nonlinear_arith);
    } else {
        assert(y * p == y) by (nonlinear_arith)
            requires
                p == 1,
        ;
    }
}

/// Normal numbers are totally ordered.
pub proof fn law_order(a: Dyadic, b: Dyadic, c: Dyadic)
    requires
        a.normal(),
        b.normal(),
        c.normal(),
    ensures
        a.at_most(a),
        a.at_most(b) || b.at_most(a),
        a.at_most(b) && b.at_most(a) ==> a == b,
        a.at_most(b) && b.at_most(c) ==> a.at_most(c),
{
    lemma_at_most(a, a);
    lemma_at_most(a, b);
    lemma_at_most(b, a);
    lemma_at_most(b, c);
    lemma_at_most(c, b);
    lemma_at_most(a, c);
    lemma_at_most(c, a);
}

/// `v * 2^k`.
fn shifted(v: i32, k: u32) -> (r: i128)
    requires
        k <= 100,
        -0x100_0000 < v < 0x100_0000,
    ensures
        r == v * pow2(k as nat),
        -0x100_0000 * pow2(k as nat) < r < 0x100_0000 * pow2(k as nat),
        -0x1000_0000_0000_0000_0000_0000_0000_0000 < r < 0x1000_0000_0000_0000_0000_0000_0000_0000,
{
    let mut p: i128 = 1;
    let mut i: u32 = 0;
    proof {
        lemma2_to64();
    }
    while i < k
        invariant
            i <= k <= 100,
            p == pow2(i as nat),
            0 < p <= 0x10_0000_0000_0000_0000_0000_0000,
        decreases k - i,
    {
        proof {
            lemma_pow2_unfold((i + 1) as nat);
            lemma2_to64();
            lemma2_to64_rest();
            lemma_pow2_adds(64, 36);
            if i + 1 < 100 {
                lemma_pow2_strictly_increases((i + 1) as nat, 100);
            }
        }
        p = 2 * p;
        i = i + 1;
    }
    proof {
        assert(-0xff_ffff * 0x10_0000_0000_0000_0000_0000_0000 <= v * p <= 0xff_ffff * 0x10_0000_0000_0000_0000_0000_0000)
            by (nonlinear_arith)
            requires
                -0x100_0000 < v < 0x100_0000,
                0 < p <= 0x10_0000_0000_0000_0000_0000_0000,
        ;
    }
    proof {
        assert(-0x100_0000 * p < v * p < 0x100_0000 * p) by (nonlinear_arith)
            requires
                -0x100_0000 < v < 0x100_0000,
                0 < p,
        ;
    }
    v as i128 * p
}

impl Dyadic {
    /// The size of a rounded integer.
    pub proof fn lemma_of(v: int)
        requires
            -0x100_0000_0000 <= v <= 0x100_0000_0000,
        ensures
            Dyadic::of(v).normal(),
            Dyadic::of(v).significand == 0 <==> v == 0,
            Dyadic::of(v).significand < 0 <==> v < 0,
            -23 <= Dyadic::of(v).exponent <= 18,
            -0x1_0000_0000 <= v <= 0x1_0000_0000 ==> Dyadic::of(v).exponent <= 10,
            512 <= v < 0x100_0000 ==> -14 <= Dyadic::of(v).exponent <= 1,
    {
        if v != 0 {
            lemma2_to64();
            Dyadic::lemma_rounded(v, 1, 0, 23, 17);
            if -0x1_0000_0000 <= v <= 0x1_0000_0000 {
                Dyadic::lemma_rounded(v, 1, 0, 23, 9);
            }
            if 512 <= v < 0x100_0000 {
                Dyadic::lemma_rounded(v, 1, 0, 14, 0);
            }
        }
    }

    /// The size of a sum.
    pub proof fn lemma_plus(self, other: Dyadic)
        requires
            self.normal(),
            other.normal(),
        ensures
            self.plus(other).normal(),
            self.plus(other).significand == 0 || (if self.exponent <= other.exponent {
                self.exponent - 23 <= self.plus(other).exponent <= other.exponent + 2
            } else {
                other.exponent - 23 <= self.plus(other).exponent <= self.exponent + 2
            }),
    {
        let (a, b, e, k) = if self.exponent <= other.exponent {
            (self.significand, other.significand, self.exponent, (other.exponent
                - self.exponent) as nat)
        } else {
            (other.significand, self.significand, other.exponent, (self.exponent
                - other.exponent) as nat)
        };
        let p = pow2(k);
        lemma2_to64();
        lemma_pow2_pos(k);
        lemma_pow2_unfold(k + 1);
        assert(a * pow2(0) == a) by (nonlinear_arith)
            requires
                pow2(0) == 1,
        ;
        assert(-0x200_0000 * p < a + b * p < 0x200_0000 * p)
            by (nonlinear_arith)
            requires
                -0x100_0000 < a < 0x100_0000,
                -0x100_0000 < b < 0x100_0000,
                p >= 1,
        ;
        let sum = a + b * p;
        if sum != 0 {
            Dyadic::lemma_rounded(sum, 1, e, 23, k + 1);
        }
    }

    /// The size of a product.
    pub proof fn lemma_times(self, other: Dyadic)
        requires
            self.normal(),
            other.normal(),
        ensures
            self.times(other).normal(),
            self.times(other).significand == 0 || self.exponent + other.exponent <= self.times(
                other,
            ).exponent <= self.exponent + other.exponent + 25,
    {
        lemma_product(self.significand, other.significand);
        let product = self.significand * other.significand;
        if product != 0 {
            lemma2_to64();
            lemma_scale_by_one(magnitude(product));
            Dyadic::lemma_rounded(product, 1, self.exponent + other.exponent, 0, 24);
        }
    }

    /// The size of a quotient.
    pub proof fn lemma_over(self, other: Dyadic)
        requires
            self.normal(),
            other.normal(),
            other.significand != 0,
        ensures
            self.over(other).normal(),
            self.over(other).significand == 0 || self.exponent - other.exponent - 24 <= self.over(
                other,
            ).exponent <= self.exponent - other.exponent + 1,
    {
        let n = if other.significand < 0 {
            -self.significand
        } else {
            self.significand
        };
        let d = magnitude(other.significand);
        if n != 0 {
            lemma2_to64();
            lemma_scale_by_one(SIGNIFICAND_END as nat * d);
            Dyadic::lemma_rounded(n, d, self.exponent - other.exponent, 24, 0);
        }
    }
}

impl Binary32 {
    /// The integer `v`, rounded.
    pub fn of(v: i64) -> (r: Binary32)
        requires
            -0x100_0000_0000 <= v <= 0x100_0000_0000,
        ensures
            r@ == Dyadic::of(v as int),
            r.wf(),
            r.significand == 0 <==> v == 0,
            -23 <= r.exponent <= 18,
            -0x1_0000_0000 <= v <= 0x1_0000_0000 ==> r.exponent <= 10,
            512 <= v < 0x100_0000 ==> -14 <= r.exponent <= 1,
    {
        proof {
            Dyadic::lemma_of(v as int);
        }
        if v < 0 {
            round(true, (-v) as u128, 1, 0)
        } else {
            round(false, v as u128, 1, 0)
        }
    }

    /// The number with its sign changed; zero stays zero.
    pub fn negated(self) -> (r: Binary32)
        requires
            self.wf(),
        ensures
            r@ == self@.negated(),
            r.wf(),
    {
        Binary32 { significand: -self.significand, exponent: self.exponent }
    }

    /// The sum, rounded.
    pub fn plus(self, other: Binary32) -> (r: Binary32)
        requires
            self.wf(),
            other.wf(),
            -200 <= self.exponent <= 200,
            -200 <= other.exponent <= 200,
            -100 <= self.exponent - other.exponent <= 100,
        ensures
            r@ == self@.plus(other@),
            r.wf(),
            r.significand == 0 || (if self.exponent <= other.exponent {
                self.exponent - 23 <= r.exponent <= other.exponent + 2
            } else {
                other.exponent - 23 <= r.exponent <= self.exponent + 2
            }),
    {
        let e: i32 = if self.exponent <= other.exponent {
            self.exponent
        } else {
            other.exponent
        };
        let a: i128 = shifted(self.significand, (self.exponent - e) as u32);
        let b: i128 = shifted(other.significand, (other.exponent - e) as u32);
        let sum: i128 = a + b;
        proof {
            self@.lemma_plus(other@);
        }
        if sum < 0 {
            round(true, (-sum) as u128, 1, e)
        } else {
            round(false, sum as u128, 1, e)
        }
    }

    /// The product, rounded.
    pub fn times(self, other: Binary32) -> (r: Binary32)
        requires
            self.wf(),
            other.wf(),
            -200 <= self.exponent + other.exponent <= 200,
        ensures
            r@ == self@.times(other@),
            r.wf(),
            r.significand == 0 || self.exponent + other.exponent <= r.exponent <= self.exponent
                + other.exponent + 25,
    {
        proof {
            lemma_product(self.significand as int, other.significand as int);
            self@.lemma_times(other@);
        }
        let product: i64 = self.significand as i64 * other.significand as i64;
        let e: i32 = self.exponent + other.exponent;
        if product < 0 {
            round(true, (-product) as u128, 1, e)
        } else {
            round(false, product as u128, 1, e)
        }
    }

    /// The quotient, rounded.
    pub fn over(self, other: Binary32) -> (r: Binary32)
        requires
            self.wf(),
            other.wf(),
            other.significand != 0,
            -200 <= self.exponent - other.exponent <= 200,
        ensures
            r@ == self@.over(other@),
            r.wf(),
            r.significand == 0 || self.exponent - other.exponent - 24 <= r.exponent
                <= self.exponent - other.exponent + 1,
    {
        let e: i32 = self.exponent - other.exponent;
        let n: i32 = if other.significand < 0 {
            -self.significand
        } else {
            self.significand
        };
        let d: i32 = if other.significand < 0 {
            -other.significand
        } else {
            other.significand
        };
        proof {
            self@.lemma_over(other@);
        }
        if n < 0 {
            round(true, (-n) as u128, d as u128, e)
        } else {
            round(false, n as u128, d as u128, e)
        }
    }
}

impl Binary32 {
    /// The number without its fraction; numbers out of range become the
    /// nearest `i32`.
    pub fn to_i32(self) -> (r: i32)
        requires
            self.wf(),
        ensures
            r == self@.to_i32(),
    {
        if self.exponent >= 9 {
            proof {
                lemma2_to64();
                let p = pow2(self.exponent as nat);
                if self.exponent > 9 {
                    lemma_pow2_strictly_increases(9, self.exponent as nat);
                }
                assert(self.significand > 0 ==> self.significand * p >= 0x80_0000 * 512)
                    by (nonlinear_arith)
                    requires
                        p >= 512,
                        self.significand > 0 ==> self.significand >= 0x80_0000,
                ;
                assert(self.significand < 0 ==> self.significand * p <= -0x80_0000 * 512)
                    by (nonlinear_arith)
                    requires
                        p >= 512,
                        self.significand < 0 ==> self.significand <= -0x80_0000,
                ;
            }
            if self.significand < 0 {
                i32::MIN
            } else {
                i32::MAX
            }
        } else if self.exponent >= 0 {
            let v: i128 = shifted(self.significand, self.exponent as u32);
            if v < i32::MIN as i128 {
                i32::MIN
            } else if v > i32::MAX as i128 {
                i32::MAX
            } else {
                v as i32
            }
        } else if self.exponent <= -24 {
            proof {
                lemma2_to64();
                let k = (-self.exponent) as nat;
                if k > 24 {
                    lemma_pow2_strictly_increases(24, k);
                }
                let m = magnitude(self.significand as int);
                assert(m / pow2(k) == 0) by (nonlinear_arith)
                    requires
                        m < pow2(k),
                ;
            }
            0
        } else {
            let m: i32 = if self.significand < 0 {
                -self.significand
            } else {
                self.significand
            };
            let p: i128 = shifted(1, (-self.exponent) as u32);
            proof {
                lemma2_to64();
                lemma_pow2_strictly_increases((-self.exponent) as nat, 24);
                assert(1 * p == p);
                lemma_pow2_pos((-self.exponent) as nat);
                assert(m as int / p as int <= m) by (nonlinear_arith)
                    requires
                        p >= 1,
                        m >= 0,
                ;
            }
            let q: i32 = m / (p as i32);
            if self.significand < 0 {
                -q
            } else {
                q
            }
        }
    }

    /// The smallest integer that is not below the number.
    pub fn ceiling(self) -> (r: i64)
        requires
            self.wf(),
            self.exponent <= 38,
        ensures
            r == self@.ceiling(),
    {
        if self.exponent >= 0 {
            proof {
                lemma2_to64();
                if self.exponent < 38 {
                    lemma_pow2_strictly_increases(self.exponent as nat, 38);
                }
                lemma2_to64_rest();
            }
            shifted(self.significand, self.exponent as u32) as i64
        } else if self.exponent <= -24 {
            proof {
                lemma2_to64();
                let k = (-self.exponent) as nat;
                if k > 24 {
                    lemma_pow2_strictly_increases(24, k);
                }
                let n = -self.significand as int;
                let p = pow2(k) as int;
                assert(n >= 0 ==> n / p == 0) by (nonlinear_arith)
                    requires
                        n < p,
                ;
                assert(n < 0 ==> n / p == -1) by (nonlinear_arith)
                    requires
                        -p < n,
                ;
            }
            if self.significand > 0 {
                1
            } else {
                0
            }
        } else {
            let k: u32 = (-self.exponent) as u32;
            let p: i128 = shifted(1, k);
            proof {
                lemma2_to64();
                lemma_pow2_strictly_increases(k as nat, 24);
                lemma_pow2_pos(k as nat);
                assert(1 * p == p);
            }
            let d: i32 = p as i32;
            if self.significand <= 0 {
                let q: i32 = (-self.significand) / d;
                -(q as i64)
            } else {
                let m: i32 = self.significand - 1;
                let q: i32 = m / d;
                proof {
                    // The quotient of a negative number, by that of a positive one.
                    let (n, e) = (-self.significand as int, d as int);
                    assert(n / e == -(m as int / e) - 1) by (nonlinear_arith)
                        requires
                            n == -m - 1,
                            m >= 0,
                            e > 0,
                    ;
                    assert(0 <= m as int / e <= m) by (nonlinear_arith)
                        requires
                            m >= 0,
                            e > 0,
                    ;
                }
                q as i64 + 1
            }
        }
    }

    /// `self <= other`, as numbers.
    pub fn at_most(self, other: Binary32) -> (r: bool)
        requires
            self.wf(),
            other.wf(),
        ensures
            r == self@.at_most(other@),
    {
        proof {
            lemma_at_most(self@, other@);
        }
        if self.significand <= 0 && other.significand >= 0 {
            true
        } else if self.significand >= 0 && other.significand <= 0 {
            false
        } else if self.exponent == other.exponent {
            self.significand <= other.significand
        } else {
            (self.significand > 0) == (self.exponent < other.exponent)
        }
    }

    /// The bit pattern of the number in the interchange format.
    pub fn to_bits(self) -> (r: u32)
        requires
            self.representable(),
        ensures
            r == self@.bits(),
    {
        if self.significand == 0 {
            0
        } else if self.significand < 0 {
            0x8000_0000 + (self.exponent + 150) as u32 * 0x80_0000 + ((-self.significand) as u32
                - SIGNIFICAND_MIN)
        } else {
            (self.exponent + 150) as u32 * 0x80_0000 + (self.significand as u32 - SIGNIFICAND_MIN)
        }
    }
}

/// The number that a bit pattern of the interchange format stands for; none for
/// the infinities and for what is not a number.
pub open spec fn of_bits(bits: u32) -> Option<Dyadic> {
    let field = (bits / 0x80_0000) % 256;
    let fraction = bits % 0x80_0000;
    if field == 255 {
        None
    } else {
        let m = if field == 0 {
            fraction as int
        } else {
            fraction + SIGNIFICAND_MIN
        };
        Some(
            Dyadic {
                significand: if bits >= 0x8000_0000 {
                    -m
                } else {
                    m
                },
                exponent: if field == 0 {
                    -149
                } else {
                    field - 150
                },
            },
        )
    }
}

/// The bit pattern of a number stands for that number.
pub proof fn law_bits_are_read_back(x: Binary32)
    requires
        x.representable(),
        x.significand != 0,
    ensures
        0 <= x@.bits() <= u32::MAX,
        of_bits(x@.bits() as u32) == Some(x@),
{
    let m = magnitude(x.significand as int);
    let field = x.exponent + 150;
    let fraction = m - SIGNIFICAND_MIN;
    let sign: int = if x.significand < 0 {
        1
    } else {
        0
    };
    let bits = x@.bits();
    assert(bits == sign * 0x8000_0000 + field * 0x80_0000 + fraction);
    assert(bits % 0x80_0000 == fraction && bits / 0x80_0000 == sign * 256 + field);
    assert((sign * 256 + field) % 256 == field);
}

/// Whether the integer `v` is at least what a bit pattern stands for. Every
/// integer is above negative infinity, none reaches positive infinity, and
/// none compares with what is not a number.
pub open spec fn reaches(v: int, bits: u32) -> bool {
    match of_bits(bits) {
        Some(d) => d.at_most(Dyadic { significand: v, exponent: 0 }),
        None => bits == 0xff80_0000,
    }
}

/// Whether `v` is at least what a bit pattern stands for.
pub fn at_least(v: i32, bits: u32) -> (r: bool)
    requires
        0 <= v < 0x100_0000,
    ensures
        r == reaches(v as int, bits),
{
    let field: u32 = (bits / 0x80_0000) % 256;
    let fraction: u32 = bits % 0x80_0000;
    if field == 255 {
        return bits == 0xff80_0000;
    }
    let m: i32 = if field == 0 {
        fraction as i32
    } else {
        (fraction + SIGNIFICAND_MIN) as i32
    };
    let ghost d = of_bits(bits)->0;
    let ghost up = pow2(d.exponent as nat);
    let ghost down = pow2((-d.exponent) as nat);
    proof {
        lemma2_to64();
        lemma_pow2_pos(d.exponent as nat);
        lemma_pow2_pos((-d.exponent) as nat);
    }
    if bits >= 0x8000_0000 || m == 0 {
        proof {
            assert(d.significand * up <= 0) by (nonlinear_arith)
                requires
                    d.significand <= 0,
                    up > 0,
            ;
            assert(v * down >= 0) by (nonlinear_arith)
                requires
                    v >= 0,
                    down > 0,
            ;
        }
        true
    } else if field > 150 {
        proof {
            lemma_pow2_unfold(d.exponent as nat);
            lemma_pow2_pos((d.exponent - 1) as nat);
            assert(d.significand * up >= 0x100_0000) by (nonlinear_arith)
                requires
                    d.significand >= 0x80_0000,
                    up >= 2,
            ;
        }
        false
    } else if field < 127 {
        proof {
            let k = (-d.exponent) as nat;
            if k > 24 {
                lemma_pow2_strictly_increases(24, k);
            }
            assert(v > 0 ==> v * down >= 0x100_0000) by (nonlinear_arith)
                requires
                    down >= 0x100_0000,
            ;
            assert(v == 0 ==> v * down == 0) by (nonlinear_arith);
        }
        v > 0
    } else {
        m as i128 <= shifted(v, 150 - field)
    }
}

} // verus!
