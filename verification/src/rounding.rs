//! How rounding behaves: how far it goes, what it leaves alone and what order
//! it keeps.
//!
//! Numbers are compared here in units of `2^-k`, for a `k` that is large enough
//! for all of them to be whole.
use vstd::arithmetic::div_mod::*;
use vstd::arithmetic::power2::*;
use vstd::prelude::*;

use crate::binary32::{Dyadic, SIGNIFICAND_END, SIGNIFICAND_MIN};

verus! {

impl Dyadic {
    /// The number in units of `2^-k`.
    pub open spec fn units(self, k: nat) -> int
        recommends
            self.exponent + k >= 0,
    {
        self.significand * pow2((self.exponent + k) as nat)
    }
}

proof fn lemma_pow2_exceeds(k: nat)
    ensures
        pow2(k) > k,
    decreases k,
{
    if k == 0 {
        lemma2_to64();
    } else {
        lemma_pow2_exceeds((k - 1) as nat);
        lemma_pow2_unfold(k);
    }
}

/// How `n / d * 2^e` is brought to a quotient of 24 bits: as `a / b * 2^g`.
proof fn lemma_quotient(n: nat, d: nat, e: int) -> (parts: (nat, nat, int, int))
    requires
        0 < n,
        0 < d,
    ensures
        ({
            let (a, b, f, g) = parts;
            &&& crate::binary32::doubled(n, d, e) == (a, f)
            &&& crate::binary32::halved(a, d, f) == (b, g)
            &&& f <= e && f <= g && (f == e || f == g)
            &&& a == n * pow2((e - f) as nat)
            &&& b == d * pow2((g - f) as nat)
            &&& 0 < b && SIGNIFICAND_MIN * b <= a < SIGNIFICAND_END * b
        }),
{
    let up = SIGNIFICAND_MIN as nat * d;
    lemma_pow2_exceeds(up);
    assert(n * pow2(up) >= pow2(up)) by (nonlinear_arith)
        requires
            n >= 1,
    ;
    crate::binary32::lemma_doubled(n, d, e, up);
    let (a, f) = crate::binary32::doubled(n, d, e);
    let c = SIGNIFICAND_END as nat * d;
    if f < e {
        crate::binary32::lemma_scale_by_one(c);
        crate::binary32::lemma_halved(a, d, f, 0);
    } else {
        lemma_pow2_exceeds(a);
        assert(c * pow2(a) >= pow2(a)) by (nonlinear_arith)
            requires
                c >= 1,
        ;
        crate::binary32::lemma_halved(a, d, f, a);
    }
    let (b, g) = crate::binary32::halved(a, d, f);
    (a, b, f, g)
}

/// Rounding does not depend on how a quotient is written.
proof fn lemma_half_even_scales(n: nat, d: nat, c: nat)
    requires
        0 < d,
        0 < c,
    ensures
        crate::binary32::half_even(n * c, d * c) == crate::binary32::half_even(n, d),
{
    let q = n / d;
    let r = n % d;
    lemma_fundamental_div_mod(n as int, d as int);
    assert(n * c == q * (d * c) + r * c && 0 <= r * c < d * c && d * c > 0) by (nonlinear_arith)
        requires
            n == d * q + r,
            0 <= r < d,
            0 < c,
    ;
    lemma_fundamental_div_mod_converse((n * c) as int, (d * c) as int, q as int, (r * c) as int);
    assert(2 * (r * c) < d * c <==> 2 * r < d) by (nonlinear_arith)
        requires
            0 < c,
    ;
    assert(2 * (r * c) > d * c <==> 2 * r > d) by (nonlinear_arith)
        requires
            0 < c,
    ;
}

/// A rounded number in units of `2^-k`: a whole number of some unit `u`, a
/// power of two, which is the one that makes the quotient 24 bits long.
proof fn lemma_rounded_units(n: nat, d: nat, e: int, k: nat) -> (h: nat)
    requires
        0 < n,
        0 < d,
        e + k >= 0,
        crate::binary32::rounded(n as int, d, e).exponent + k >= 1,
    ensures
        ({
            let all = n * pow2((e + k) as nat);
            let u = pow2(h);
            &&& crate::binary32::rounded(n as int, d, e).units(k)
                == crate::binary32::half_even(all, d * u) * u
            &&& SIGNIFICAND_MIN * (d * u) <= all < SIGNIFICAND_END * (d * u)
            &&& 0 < d * u
        }),
{
    let (a, b, f, g) = lemma_quotient(n, d, e);
    let r = crate::binary32::rounded(n as int, d, e);
    let m = crate::binary32::half_even(a, b);
    let h = (g + k) as nat;
    let c = pow2((f + k) as nat);
    let u = pow2(h);
    let all = n * pow2((e + k) as nat);
    lemma_pow2_pos((f + k) as nat);
    lemma_pow2_adds((e - f) as nat, (f + k) as nat);
    lemma_pow2_adds((g - f) as nat, (f + k) as nat);
    let x = pow2((e - f) as nat);
    let y = pow2((g - f) as nat);
    assert(a * c == all) by (nonlinear_arith)
        requires
            a == n * x,
            all == n * (x * c),
    ;
    assert(b * c == d * u) by (nonlinear_arith)
        requires
            b == d * y,
            u == y * c,
    ;
    assert(SIGNIFICAND_MIN * (b * c) <= a * c < SIGNIFICAND_END * (b * c) && 0 < b * c)
        by (nonlinear_arith)
        requires
            SIGNIFICAND_MIN * b <= a < SIGNIFICAND_END * b,
            0 < b,
            0 < c,
    ;
    lemma_half_even_scales(a, b, c);
    if m == SIGNIFICAND_END {
        lemma_pow2_unfold((g + 1 + k) as nat);
    }
    h
}

/// Rounding is the same on both sides of zero.
pub proof fn law_rounding_is_symmetric(n: int, d: nat, e: int)
    ensures
        crate::binary32::rounded(-n, d, e) == crate::binary32::rounded(n, d, e).negated(),
{
}

/// Whether rounding moves `n / d * 2^e` by at most one part in `2^24` of it.
pub open spec fn is_close(n: int, d: nat, e: int, k: nat) -> bool {
    let exact = n * pow2((e + k) as nat);
    let off = crate::binary32::rounded(n, d, e).units(k) * d - exact;
    crate::binary32::magnitude(off) * 0x100_0000 <= crate::binary32::magnitude(exact)
}

proof fn lemma_close(n: nat, d: nat, e: int, k: nat)
    requires
        0 < n,
        0 < d,
        e + k >= 0,
        crate::binary32::rounded(n as int, d, e).exponent + k >= 1,
    ensures
        is_close(n as int, d, e, k),
{
    let h = lemma_rounded_units(n, d, e, k);
    let all = n * pow2((e + k) as nat);
    let u = pow2(h);
    let m = crate::binary32::half_even(all, d * u);
    crate::binary32::lemma_half_even(all, d * u);
    assert((m * u) * d == m * (d * u)) by (nonlinear_arith);
}

/// Rounding moves a number by at most one part in `2^24` of it.
pub proof fn law_rounding_is_close(n: int, d: nat, e: int, k: nat)
    requires
        0 < d,
        e + k >= 0,
        crate::binary32::rounded(n, d, e).exponent + k >= 1,
    ensures
        is_close(n, d, e, k),
{
    let r = crate::binary32::rounded(n, d, e);
    let p = pow2((e + k) as nat);
    if n > 0 {
        lemma_close(n as nat, d, e, k);
    } else if n < 0 {
        law_rounding_is_symmetric(n, d, e);
        lemma_close((-n) as nat, d, e, k);
        let q = pow2((r.exponent + k) as nat);
        assert((-n) * p == -(n * p)) by (nonlinear_arith);
        assert((-r.significand) * q == -(r.significand * q)) by (nonlinear_arith);
        let v = r.significand * q;
        assert((-v) * d == -(v * d)) by (nonlinear_arith);
    } else {
        assert(0 * p == 0 && 0 * pow2(k) == 0 && 0 * d == 0) by (nonlinear_arith);
    }
}

proof fn lemma_exact(n: nat, d: nat, e: int, m: nat, h: int, k: nat)
    requires
        0 < n,
        0 < d,
        e + k >= 0,
        h + k >= 0,
        crate::binary32::rounded(n as int, d, e).exponent + k >= 1,
        n * pow2((e + k) as nat) == d * (m * pow2((h + k) as nat)),
        m < SIGNIFICAND_END,
    ensures
        crate::binary32::rounded(n as int, d, e).units(k) == m * pow2((h + k) as nat),
{
    let j = lemma_rounded_units(n, d, e, k);
    let all = n * pow2((e + k) as nat);
    let u = pow2(j);
    let i = (h + k) as nat;
    let p = pow2(i);
    lemma_pow2_pos(i);
    lemma_pow2_pos(j);
    if j > i {
        lemma_pow2_unfold(j);
        let half = pow2((j - 1) as nat);
        if j - 1 > i {
            lemma_pow2_strictly_increases(i, (j - 1) as nat);
        }
        assert(d * (m * p) < SIGNIFICAND_MIN * (d * u)) by (nonlinear_arith)
            requires
                m < 0x100_0000,
                u == 2 * half,
                half >= p,
                p > 0,
                d > 0,
                SIGNIFICAND_MIN == 0x80_0000,
        ;
        assert(false);
    }
    lemma_pow2_adds(j, (i - j) as nat);
    let c = pow2((i - j) as nat);
    let w = m * c;
    assert(all == w * (d * u)) by (nonlinear_arith)
        requires
            all == d * (m * p),
            p == u * c,
            w == m * c,
    ;
    lemma_fundamental_div_mod_converse(all as int, (d * u) as int, w as int, 0);
    assert(w * u == m * p) by (nonlinear_arith)
        requires
            p == u * c,
            w == m * c,
    ;
}

/// Rounding leaves alone what fits: a number `m * 2^h` with an `m` of 24 bits.
pub proof fn law_what_fits_is_exact(n: int, d: nat, e: int, m: int, h: int, k: nat)
    requires
        0 < d,
        e + k >= 0,
        h + k >= 0,
        crate::binary32::rounded(n, d, e).exponent + k >= 1,
        n * pow2((e + k) as nat) == d * (m * pow2((h + k) as nat)),
        -SIGNIFICAND_END < m < SIGNIFICAND_END,
    ensures
        crate::binary32::rounded(n, d, e).units(k) == m * pow2((h + k) as nat),
{
    let r = crate::binary32::rounded(n, d, e);
    let x = pow2((e + k) as nat);
    let y = pow2((h + k) as nat);
    let z = pow2((r.exponent + k) as nat);
    lemma_pow2_pos((e + k) as nat);
    lemma_pow2_pos((h + k) as nat);
    let s = r.significand;
    assert((n > 0 ==> m > 0) && (n < 0 ==> m < 0) && (n == 0 ==> m == 0)) by (nonlinear_arith)
        requires
            n * x == d * (m * y),
            0 < d,
            0 < x,
            0 < y,
    ;
    if n > 0 {
        lemma_exact(n as nat, d, e, m as nat, h, k);
    } else if n < 0 {
        law_rounding_is_symmetric(n, d, e);
        assert((-n) * x == d * ((-m) * y)) by (nonlinear_arith)
            requires
                n * x == d * (m * y),
        ;
        lemma_exact((-n) as nat, d, e, (-m) as nat, h, k);
        assert((-s) * z == -(s * z) && (-m) * y == -(m * y)) by (nonlinear_arith);
    } else {
        assert(0 * z == 0 && 0 * y == 0) by (nonlinear_arith);
    }
}

/// Halfway cases aside, a larger quotient is nearer to a larger integer; and
/// equal quotients are rounded alike.
proof fn lemma_half_even_monotone(n1: nat, d1: nat, n2: nat, d2: nat)
    requires
        0 < d1,
        0 < d2,
        n1 * d2 <= n2 * d1,
    ensures
        crate::binary32::half_even(n1, d1) <= crate::binary32::half_even(n2, d2),
{
    let m1 = crate::binary32::half_even(n1, d1);
    let m2 = crate::binary32::half_even(n2, d2);
    if m1 > m2 {
        crate::binary32::lemma_half_even(n1, d1);
        crate::binary32::lemma_half_even(n2, d2);
        assert(n1 * d2 == n2 * d1) by (nonlinear_arith)
            requires
                n1 * d2 <= n2 * d1,
                2 * (n1 - m1 * d1) >= -d1,
                2 * (n2 - m2 * d2) <= d2,
                m1 >= m2 + 1,
                0 < d1,
                0 < d2,
        ;
        lemma_half_even_scales(n1, d1, d2);
        lemma_half_even_scales(n2, d2, d1);
        assert(d1 * d2 == d2 * d1) by (nonlinear_arith);
    }
}

proof fn lemma_monotone(n1: nat, d1: nat, e1: int, n2: nat, d2: nat, e2: int, k: nat)
    requires
        0 < n1,
        0 < n2,
        0 < d1,
        0 < d2,
        e1 + k >= 0,
        e2 + k >= 0,
        crate::binary32::rounded(n1 as int, d1, e1).exponent + k >= 1,
        crate::binary32::rounded(n2 as int, d2, e2).exponent + k >= 1,
        (n1 * pow2((e1 + k) as nat)) * d2 <= (n2 * pow2((e2 + k) as nat)) * d1,
    ensures
        crate::binary32::rounded(n1 as int, d1, e1).units(k) <= crate::binary32::rounded(
            n2 as int,
            d2,
            e2,
        ).units(k),
{
    let h1 = lemma_rounded_units(n1, d1, e1, k);
    let h2 = lemma_rounded_units(n2, d2, e2, k);
    let all1 = n1 * pow2((e1 + k) as nat);
    let all2 = n2 * pow2((e2 + k) as nat);
    let u1 = pow2(h1);
    let u2 = pow2(h2);
    let m1 = crate::binary32::half_even(all1, d1 * u1);
    let m2 = crate::binary32::half_even(all2, d2 * u2);
    lemma_pow2_pos(h1);
    lemma_pow2_pos(h2);
    if h1 == h2 {
        assert(all1 * (d2 * u2) <= all2 * (d1 * u1)) by (nonlinear_arith)
            requires
                all1 * d2 <= all2 * d1,
                u1 == u2,
                u1 > 0,
        ;
        lemma_half_even_monotone(all1, d1 * u1, all2, d2 * u2);
        assert(m1 * u1 <= m2 * u2) by (nonlinear_arith)
            requires
                m1 <= m2,
                u1 == u2,
                u1 > 0,
        ;
    } else {
        crate::binary32::lemma_half_even_range(
            all1,
            d1 * u1,
            SIGNIFICAND_MIN as nat,
            SIGNIFICAND_END as nat,
        );
        crate::binary32::lemma_half_even_range(
            all2,
            d2 * u2,
            SIGNIFICAND_MIN as nat,
            SIGNIFICAND_END as nat,
        );
        if h1 < h2 {
            lemma_pow2_unfold(h2);
            let half = pow2((h2 - 1) as nat);
            if h1 < h2 - 1 {
                lemma_pow2_strictly_increases(h1, (h2 - 1) as nat);
            }
            assert(m1 * u1 <= m2 * u2) by (nonlinear_arith)
                requires
                    m1 <= 0x100_0000,
                    m2 >= 0x80_0000,
                    u2 == 2 * half,
                    half >= u1,
                    u1 > 0,
            ;
        } else {
            lemma_pow2_unfold(h1);
            let half = pow2((h1 - 1) as nat);
            if h2 < h1 - 1 {
                lemma_pow2_strictly_increases(h2, (h1 - 1) as nat);
            }
            let big = d1 * u1;
            let small = d2 * u2;
            assert(all1 * d2 >= (0x80_0000 * big) * d2) by (nonlinear_arith)
                requires
                    all1 >= 0x80_0000 * big,
            ;
            assert(all2 * d1 < (0x100_0000 * small) * d1) by (nonlinear_arith)
                requires
                    all2 < 0x100_0000 * small,
                    d1 > 0,
            ;
            assert((0x80_0000 * big) * d2 >= (0x100_0000 * small) * d1) by (nonlinear_arith)
                requires
                    big == d1 * u1,
                    small == d2 * u2,
                    u1 == 2 * half,
                    half >= u2,
                    d1 > 0,
                    d2 > 0,
            ;
            assert(false);
        }
    }
}

/// Rounding keeps the order of numbers.
pub proof fn law_rounding_is_monotone(
    n1: int,
    d1: nat,
    e1: int,
    n2: int,
    d2: nat,
    e2: int,
    k: nat,
)
    requires
        0 < d1,
        0 < d2,
        e1 + k >= 0,
        e2 + k >= 0,
        crate::binary32::rounded(n1, d1, e1).exponent + k >= 1,
        crate::binary32::rounded(n2, d2, e2).exponent + k >= 1,
        (n1 * pow2((e1 + k) as nat)) * d2 <= (n2 * pow2((e2 + k) as nat)) * d1,
    ensures
        crate::binary32::rounded(n1, d1, e1).units(k) <= crate::binary32::rounded(
            n2,
            d2,
            e2,
        ).units(k),
{
    let r1 = crate::binary32::rounded(n1, d1, e1);
    let r2 = crate::binary32::rounded(n2, d2, e2);
    let x1 = pow2((e1 + k) as nat);
    let x2 = pow2((e2 + k) as nat);
    let y1 = pow2((r1.exponent + k) as nat);
    let y2 = pow2((r2.exponent + k) as nat);
    lemma_pow2_pos((e1 + k) as nat);
    lemma_pow2_pos((e2 + k) as nat);
    lemma_pow2_pos((r1.exponent + k) as nat);
    lemma_pow2_pos((r2.exponent + k) as nat);
    assert((n1 > 0 ==> n2 > 0) && (n2 < 0 ==> n1 < 0)) by (nonlinear_arith)
        requires
            (n1 * x1) * d2 <= (n2 * x2) * d1,
            0 < d1,
            0 < d2,
            0 < x1,
            0 < x2,
    ;
    let s1 = r1.significand;
    let s2 = r2.significand;
    if n1 > 0 {
        lemma_monotone(n1 as nat, d1, e1, n2 as nat, d2, e2, k);
    } else if n2 < 0 {
        law_rounding_is_symmetric(n1, d1, e1);
        law_rounding_is_symmetric(n2, d2, e2);
        assert(((-n2) * x2) * d1 <= ((-n1) * x1) * d2) by (nonlinear_arith)
            requires
                (n1 * x1) * d2 <= (n2 * x2) * d1,
        ;
        lemma_monotone((-n2) as nat, d2, e2, (-n1) as nat, d1, e1, k);
        assert((-s1) * y1 == -(s1 * y1) && (-s2) * y2 == -(s2 * y2)) by (nonlinear_arith);
    } else {
        assert(s1 <= 0 <= s2);
        assert(s1 * y1 <= 0 <= s2 * y2) by (nonlinear_arith)
            requires
                s1 <= 0 <= s2,
                y1 > 0,
                y2 > 0,
        ;
    }
}

/// The order of two numbers is that of their units.
pub proof fn lemma_at_most_units(a: Dyadic, b: Dyadic, k: nat)
    requires
        a.exponent + k >= 0,
        b.exponent + k >= 0,
    ensures
        a.at_most(b) <==> a.units(k) <= b.units(k),
{
    let (x, y, low, gap) = if a.exponent <= b.exponent {
        (a.significand, b.significand, (a.exponent + k) as nat, (b.exponent - a.exponent) as nat)
    } else {
        (b.significand, a.significand, (b.exponent + k) as nat, (a.exponent - b.exponent) as nat)
    };
    lemma_pow2_adds(gap, low);
    lemma_pow2_pos(low);
    let p = pow2(low);
    let g = pow2(gap);
    assert(y * (g * p) == (y * g) * p) by (nonlinear_arith);
    let w = y * g;
    assert((x * p <= w * p <==> x <= w) && (w * p <= x * p <==> w <= x)) by (nonlinear_arith)
        requires
            p > 0,
    ;
}

/// Small integers are kept exactly.
pub proof fn law_small_integers_are_exact(v: int, k: nat)
    requires
        -SIGNIFICAND_END < v < SIGNIFICAND_END,
        k >= 24,
    ensures
        Dyadic::of(v).units(k) == v * pow2(k),
{
    Dyadic::lemma_of(v);
    assert(1 * (v * pow2(k)) == v * pow2(k));
    law_what_fits_is_exact(v, 1, 0, v, 0, k);
}

/// What is at most a small integer is so when it is rounded.
proof fn lemma_at_most_integer(n: int, d: nat, e: int, c: int, k: nat)
    requires
        0 < d,
        e + k >= 0,
        k >= 24,
        crate::binary32::rounded(n, d, e).exponent + k >= 1,
        -SIGNIFICAND_END < c < SIGNIFICAND_END,
        n * pow2((e + k) as nat) <= (c * pow2(k)) * d,
    ensures
        crate::binary32::rounded(n, d, e).units(k) <= c * pow2(k),
{
    law_small_integers_are_exact(c, k);
    Dyadic::lemma_of(c);
    let x = n * pow2((e + k) as nat);
    assert(x * 1 == x);
    law_rounding_is_monotone(n, d, e, c, 1, 0, k);
}

/// The fraction is what [`Dyadic::truncated`] takes away, and no more.
pub proof fn lemma_truncated_units(d: Dyadic, k: nat)
    requires
        d.exponent + k >= 0,
    ensures
        d.units(k) >= 0 ==> d.truncated() * pow2(k) <= d.units(k) < (d.truncated() + 1) * pow2(k),
        d.units(k) <= 0 ==> (d.truncated() - 1) * pow2(k) < d.units(k) <= d.truncated() * pow2(k),
{
    let s = pow2(k);
    let t = d.truncated();
    lemma_pow2_pos(k);
    let i = (d.exponent + k) as nat;
    let c = pow2(i);
    lemma_pow2_pos(i);
    assert((t + 1) * s == t * s + s && (t - 1) * s == t * s - s) by (nonlinear_arith);
    if d.exponent >= 0 {
        let x = pow2(d.exponent as nat);
        lemma_pow2_adds(d.exponent as nat, k);
        assert(d.significand * (x * s) == (d.significand * x) * s) by (nonlinear_arith);
    } else {
        let j = (-d.exponent) as nat;
        let x = pow2(j);
        lemma_pow2_pos(j);
        lemma_pow2_adds(j, i);
        let m = crate::binary32::magnitude(d.significand);
        let q = m / x;
        let r = m % x;
        lemma_fundamental_div_mod(m as int, x as int);
        assert(m * c == q * s + r * c && 0 <= r * c < s) by (nonlinear_arith)
            requires
                m == x * q + r,
                0 <= r < x,
                s == x * c,
                c > 0,
        ;
        assert(d.significand < 0 ==> d.significand * c == -(m * c) && t * s == -(q * s))
            by (nonlinear_arith)
            requires
                d.significand < 0 ==> m == -d.significand && t == -q,
        ;
        assert(d.significand > 0 ==> d.significand * c > 0) by (nonlinear_arith)
            requires
                c > 0,
        ;
        assert(d.significand < 0 ==> d.significand * c < 0) by (nonlinear_arith)
            requires
                c > 0,
        ;
        if d.significand == 0 {
            assert(0 * c == 0) by (nonlinear_arith);
            assert(q == 0) by (nonlinear_arith)
                requires
                    m == 0,
                    x > 0,
                    m == x * q + r,
                    0 <= r < x,
            ;
            assert(0 * s == 0) by (nonlinear_arith);
        }
    }
}

impl Dyadic {
    /// What the quotient by a small integer has to do with the number divided.
    pub proof fn lemma_over_units(self, w: int, k: nat)
        requires
            self.normal(),
            -90 <= self.exponent <= 40,
            0 < w < SIGNIFICAND_END,
            k >= 160,
        ensures
            ({
                let q = self.over(Dyadic::of(w)).units(k);
                crate::binary32::magnitude(q * w - self.units(k)) * 0x100_0000
                    <= crate::binary32::magnitude(self.units(k))
            }),
            self.significand >= 0 ==> self.over(Dyadic::of(w)).significand >= 0,
            -138 <= self.over(Dyadic::of(w)).exponent <= 64,
            self.over(Dyadic::of(w)).normal(),
            self.units(k) <= w * pow2(k) ==> self.over(Dyadic::of(w)).units(k) <= pow2(k),
    {
        let b = Dyadic::of(w);
        Dyadic::lemma_of(w);
        self.lemma_over(b);
        law_small_integers_are_exact(w, k);
        let r = self.over(b);
        let n = self.significand;
        let d = b.significand as nat;
        let e = self.exponent - b.exponent;
        law_rounding_is_close(n, d, e, k);
        let q = r.units(k);
        let s = pow2(k);
        let x = pow2((e + k) as nat);
        let y = pow2((b.exponent + k) as nat);
        let z = pow2((self.exponent + k) as nat);
        lemma_pow2_pos(k);
        lemma_pow2_pos((b.exponent + k) as nat);
        lemma_pow2_adds((e + k) as nat, (b.exponent + k) as nat);
        lemma_pow2_adds((self.exponent + k) as nat, k);
        assert(x * y == z * s);
        let off = q * d - n * x;
        let whole = q * w - n * z;
        assert((q * d - n * x) * y == q * (d * y) - n * (x * y)) by (nonlinear_arith);
        assert((q * w - n * z) * s == q * (w * s) - n * (z * s)) by (nonlinear_arith);
        assert((n * x) * y == n * (x * y)) by (nonlinear_arith);
        assert((n * z) * s == n * (z * s)) by (nonlinear_arith);
        lemma_ratio(off, n * x, y as int, whole, n * z, s as int);
        assert(n >= 0 ==> r.significand >= 0) by {
            if n > 0 {
                lemma_sign(n, d, e);
            }
        }
        if self.units(k) <= w * s {
            let nx = n * x;
            let nz = n * z;
            assert(nx <= (1 * s) * d) by (nonlinear_arith)
                requires
                    nx * y == nz * s,
                    nz <= w * s,
                    d * y == w * s,
                    y > 0,
                    s > 0,
            ;
            lemma_at_most_integer(n, d, e, 1, k);
        }
    }

    /// What the product with a small integer has to do with the number
    /// multiplied.
    pub proof fn lemma_times_units(self, w: int, k: nat)
        requires
            self.normal(),
            -100 <= self.exponent <= 80,
            0 < w < SIGNIFICAND_END,
            k >= 160,
        ensures
            ({
                let p = self.times(Dyadic::of(w)).units(k);
                crate::binary32::magnitude(p - self.units(k) * w) * 0x100_0000
                    <= crate::binary32::magnitude(self.units(k) * w)
            }),
            self.significand >= 0 ==> self.times(Dyadic::of(w)).significand >= 0,
            self.significand <= 0 ==> self.times(Dyadic::of(w)).significand <= 0,
            -123 <= self.times(Dyadic::of(w)).exponent <= 115,
            self.times(Dyadic::of(w)).normal(),
            self.units(k) <= pow2(k) ==> self.times(Dyadic::of(w)).units(k) <= w * pow2(k),
    {
        let b = Dyadic::of(w);
        Dyadic::lemma_of(w);
        self.lemma_times(b);
        law_small_integers_are_exact(w, k);
        let r = self.times(b);
        let n = self.significand * b.significand;
        let e = self.exponent + b.exponent;
        law_rounding_is_close(n, 1, e, k);
        let s = pow2(k);
        let x = pow2((e + k) as nat);
        let y = pow2((b.exponent + k) as nat);
        let z = pow2((self.exponent + k) as nat);
        lemma_pow2_pos(k);
        lemma_pow2_adds((self.exponent + k) as nat, (b.exponent + k) as nat);
        lemma_pow2_adds((e + k) as nat, k);
        assert(z * y == x * s);
        let a = self.significand;
        let c = b.significand;
        lemma_cancel(a, c, w, x as int, y as int, z as int, s as int);
        assert(a >= 0 ==> n >= 0) by (nonlinear_arith)
            requires
                n == a * c,
                c > 0,
        ;
        assert(a <= 0 ==> n <= 0) by (nonlinear_arith)
            requires
                n == a * c,
                c > 0,
        ;
        if n != 0 {
            lemma_sign(n, 1, e);
        }
        if self.units(k) <= s {
            assert((a * z) * w <= (w * s) * 1) by (nonlinear_arith)
                requires
                    a * z <= s,
                    w > 0,
            ;
            lemma_at_most_integer(n, 1, e, w, k);
        }
    }

    /// What a sum has to do with the numbers added.
    pub proof fn lemma_plus_units(self, other: Dyadic, k: nat)
        requires
            self.normal(),
            other.normal(),
            -140 <= self.exponent <= 80,
            -140 <= other.exponent <= 80,
            k >= 200,
        ensures
            ({
                let sum = self.units(k) + other.units(k);
                crate::binary32::magnitude(self.plus(other).units(k) - sum) * 0x100_0000
                    <= crate::binary32::magnitude(sum)
            }),
            -163 <= self.plus(other).exponent <= 82,
            self.plus(other).normal(),
            self.units(k) + other.units(k) >= 0 ==> self.plus(other).significand >= 0,
            self.units(k) + other.units(k) <= 0 ==> self.plus(other).significand <= 0,
            self.units(k) + other.units(k) <= pow2(k) ==> self.plus(other).units(k) <= pow2(k),
    {
        self.lemma_plus(other);
        let e = if self.exponent <= other.exponent {
            self.exponent
        } else {
            other.exponent
        };
        let x = pow2((self.exponent - e) as nat);
        let y = pow2((other.exponent - e) as nat);
        let n = self.significand * x + other.significand * y;
        let z = pow2((e + k) as nat);
        lemma_pow2_pos((e + k) as nat);
        lemma_pow2_adds((self.exponent - e) as nat, (e + k) as nat);
        lemma_pow2_adds((other.exponent - e) as nat, (e + k) as nat);
        let a = self.significand;
        let b = other.significand;
        assert(n * z == a * (x * z) + b * (y * z)) by (nonlinear_arith)
            requires
                n == a * x + b * y,
        ;
        law_rounding_is_close(n, 1, e, k);
        assert((n * z >= 0 <==> n >= 0) && (n * z <= 0 <==> n <= 0)) by (nonlinear_arith)
            requires
                z > 0,
        ;
        if n != 0 {
            lemma_sign(n, 1, e);
        }
        if self.units(k) + other.units(k) <= pow2(k) {
            assert((1 * pow2(k)) * 1 == pow2(k));
            lemma_at_most_integer(n, 1, e, 1, k);
        }
    }
}

/// A sum that is a small integer is exact.
pub proof fn lemma_sum_fits(a: Dyadic, b: Dyadic, v: int, k: nat)
    requires
        a.normal(),
        b.normal(),
        -140 <= a.exponent <= 80,
        -140 <= b.exponent <= 80,
        k >= 200,
        a.units(k) + b.units(k) == v * pow2(k),
        -SIGNIFICAND_END < v < SIGNIFICAND_END,
    ensures
        a.plus(b).units(k) == v * pow2(k),
        a.plus(b).exponent + k >= 0,
{
    a.lemma_plus(b);
    let e = if a.exponent <= b.exponent {
        a.exponent
    } else {
        b.exponent
    };
    let x = pow2((a.exponent - e) as nat);
    let y = pow2((b.exponent - e) as nat);
    let z = pow2((e + k) as nat);
    lemma_pow2_adds((a.exponent - e) as nat, (e + k) as nat);
    lemma_pow2_adds((b.exponent - e) as nat, (e + k) as nat);
    let m = a.significand;
    let n = b.significand;
    let sum = m * x + n * y;
    assert(sum * z == m * (x * z) + n * (y * z)) by (nonlinear_arith)
        requires
            sum == m * x + n * y,
    ;
    assert(1 * (v * pow2(k)) == v * pow2(k));
    law_what_fits_is_exact(sum, 1, e, v, 0, k);
}

/// A product with one that is a small integer is exact.
pub proof fn lemma_product_fits(a: Dyadic, one: Dyadic, v: int, k: nat)
    requires
        a.normal(),
        one.normal(),
        -100 <= a.exponent <= 80,
        -60 <= one.exponent <= 60,
        k >= 200,
        a.units(k) == v * pow2(k),
        one.units(k) == pow2(k),
        -SIGNIFICAND_END < v < SIGNIFICAND_END,
    ensures
        a.times(one).units(k) == v * pow2(k),
{
    a.lemma_times(one);
    let e = a.exponent + one.exponent;
    let s = pow2(k);
    let x = pow2((e + k) as nat);
    let y = pow2((one.exponent + k) as nat);
    let z = pow2((a.exponent + k) as nat);
    lemma_pow2_pos(k);
    lemma_pow2_adds((a.exponent + k) as nat, (one.exponent + k) as nat);
    lemma_pow2_adds((e + k) as nat, k);
    let m = a.significand;
    let n = one.significand;
    lemma_cancel(m, n, 1, x as int, y as int, z as int, s as int);
    law_what_fits_is_exact(m * n, 1, e, v, 0, k);
}

/// A rounded number has the sign of the number.
proof fn lemma_sign(n: int, d: nat, e: int)
    requires
        n != 0,
        0 < d,
    ensures
        (crate::binary32::rounded(n, d, e).significand < 0) == (n < 0),
        (crate::binary32::rounded(n, d, e).significand > 0) == (n > 0),
{
    let (a, b, f, g) = lemma_quotient(crate::binary32::magnitude(n), d, e);
    crate::binary32::lemma_half_even_range(a, b, SIGNIFICAND_MIN as nat, SIGNIFICAND_END as nat);
}

/// A bound on a ratio holds in any units.
proof fn lemma_ratio(off: int, all: int, y: int, off2: int, all2: int, s: int)
    requires
        crate::binary32::magnitude(off) * 0x100_0000 <= crate::binary32::magnitude(all),
        off * y == off2 * s,
        all * y == all2 * s,
        y > 0,
        s > 0,
    ensures
        crate::binary32::magnitude(off2) * 0x100_0000 <= crate::binary32::magnitude(all2),
{
    let p = crate::binary32::magnitude(off);
    let q = crate::binary32::magnitude(all);
    let p2 = crate::binary32::magnitude(off2);
    let q2 = crate::binary32::magnitude(all2);
    lemma_magnitude_times(off, y);
    lemma_magnitude_times(all, y);
    lemma_magnitude_times(off2, s);
    lemma_magnitude_times(all2, s);
    assert(p2 * 0x100_0000 <= q2) by (nonlinear_arith)
        requires
            p * 0x100_0000 <= q,
            p * y == p2 * s,
            q * y == q2 * s,
            y > 0,
            s > 0,
    ;
}

/// The units of a product, from those of the numbers multiplied.
proof fn lemma_cancel(a: int, c: int, w: int, x: int, y: int, z: int, s: int)
    requires
        c * y == w * s,
        z * y == x * s,
        s > 0,
    ensures
        (a * c) * x == (a * z) * w,
{
    let l = (a * c) * x;
    let r = (a * z) * w;
    assert(l * s == (a * c) * (x * s)) by (nonlinear_arith)
        requires
            l == (a * c) * x,
    ;
    assert((a * c) * (z * y) == (a * z) * (c * y)) by (nonlinear_arith);
    assert((a * z) * (w * s) == r * s) by (nonlinear_arith)
        requires
            r == (a * z) * w,
    ;
    assert(l == r) by (nonlinear_arith)
        requires
            l * s == r * s,
            s > 0,
    ;
}

proof fn lemma_magnitude_times(a: int, y: int)
    requires
        y > 0,
    ensures
        crate::binary32::magnitude(a * y) == crate::binary32::magnitude(a) * y,
{
    assert((-a) * y == -(a * y)) by (nonlinear_arith);
    assert(a >= 0 ==> a * y >= 0) by (nonlinear_arith)
        requires
            y > 0,
    ;
    assert(a < 0 ==> a * y < 0) by (nonlinear_arith)
        requires
            y > 0,
    ;
}

/// The ceiling of a number is the integer just above it.
pub proof fn lemma_ceiling_units(d: Dyadic, k: nat)
    requires
        d.exponent + k >= 0,
    ensures
        (d.ceiling() - 1) * pow2(k) < d.units(k) <= d.ceiling() * pow2(k),
{
    let s = pow2(k);
    let t = d.ceiling();
    lemma_pow2_pos(k);
    let i = (d.exponent + k) as nat;
    let c = pow2(i);
    lemma_pow2_pos(i);
    assert((t - 1) * s == t * s - s) by (nonlinear_arith);
    if d.exponent >= 0 {
        let x = pow2(d.exponent as nat);
        lemma_pow2_adds(d.exponent as nat, k);
        assert(d.significand * (x * s) == (d.significand * x) * s) by (nonlinear_arith);
    } else {
        let j = (-d.exponent) as nat;
        let x = pow2(j) as int;
        lemma_pow2_pos(j);
        lemma_pow2_adds(j, i);
        let n = -d.significand;
        let q = n / x;
        let r = n % x;
        lemma_fundamental_div_mod(n, x);
        assert(t == -q);
        assert(d.significand * c == t * s - r * c && 0 <= r * c < s) by (nonlinear_arith)
            requires
                -d.significand == x * q + r,
                0 <= r < x,
                s == x * c,
                c > 0,
                t == -q,
        ;
    }
}

/// An integer reaches the bit pattern of another just if it is no smaller.
pub proof fn law_integers_reach_integers(v: int, n: int)
    requires
        0 <= v,
        0 <= n < SIGNIFICAND_END,
    ensures
        0 <= Dyadic::of(n).bits() <= u32::MAX,
        crate::binary32::reaches(v, Dyadic::of(n).bits() as u32) <==> v >= n,
{
    let k: nat = 256;
    let s = pow2(k) as int;
    lemma_pow2_pos(k);
    let d = Dyadic::of(n);
    Dyadic::lemma_of(n);
    law_small_integers_are_exact(n, k);
    let w = Dyadic { significand: v, exponent: 0 };
    if n != 0 {
        let x = d.kept();
        assert(x@ == d);
        crate::binary32::law_bits_are_read_back(x);
        lemma_at_most_units(d, w, k);
        assert(n * s <= v * s <==> n <= v) by (nonlinear_arith)
            requires
                s > 0,
        ;
    } else {
        let zero = Dyadic { significand: 0, exponent: -149 };
        lemma_at_most_units(zero, w, k);
        assert(0 * pow2(107) == 0) by (nonlinear_arith);
        assert(v * s >= 0) by (nonlinear_arith)
            requires
                v >= 0,
                s > 0,
        ;
    }
}

/// What an integer reaches, every greater one does.
pub proof fn law_more_reaches_more(v: int, w: int, bits: u32)
    requires
        0 <= v <= w,
        crate::binary32::reaches(v, bits),
    ensures
        crate::binary32::reaches(w, bits),
{
    if let Some(d) = crate::binary32::of_bits(bits) {
        let k: nat = 256;
        let s = pow2(k) as int;
        let a = Dyadic { significand: v, exponent: 0 };
        let b = Dyadic { significand: w, exponent: 0 };
        lemma_at_most_units(d, a, k);
        lemma_at_most_units(d, b, k);
        assert(v * s <= w * s) by (nonlinear_arith)
            requires
                v <= w,
                s >= 0,
        ;
    }
}

/// A number becomes the integer that is left without its fraction, or the
/// nearest one that there is: it goes toward zero by less than one, but never
/// out of the range of 32 bits.
pub proof fn law_numbers_lose_their_fraction(d: Dyadic, k: nat)
    requires
        d.exponent + k >= 0,
    ensures
        ({
            let (x, s, t) = (d.units(k), pow2(k) as int, d.to_i32());
            &&& 0 <= x < 0x8000_0000 * s ==> t * s <= x < (t + 1) * s
            &&& -0x8000_0000 * s <= x <= 0 ==> (t - 1) * s < x <= t * s
            &&& x >= 0x8000_0000 * s ==> t == 0x7fff_ffff
            &&& x <= -0x8000_0000 * s ==> t == -0x8000_0000
        }),
{
    lemma_truncated_units(d, k);
    lemma_pow2_pos(k);
    let s = pow2(k) as int;
    let x = d.units(k);
    let t = d.truncated();
    assert(0 <= x ==> 0 <= t) by (nonlinear_arith)
        requires
            x >= 0 ==> x < (t + 1) * s,
            s > 0,
    ;
    assert(0 <= x < 0x8000_0000 * s ==> t < 0x8000_0000) by (nonlinear_arith)
        requires
            x >= 0 ==> t * s <= x,
            s > 0,
    ;
    assert(x >= 0x8000_0000 * s ==> t >= 0x8000_0000) by (nonlinear_arith)
        requires
            x >= 0 ==> x < (t + 1) * s,
            s > 0,
    ;
    assert(x <= 0 ==> t <= 0) by (nonlinear_arith)
        requires
            x <= 0 ==> (t - 1) * s < x,
            s > 0,
    ;
    assert(-0x8000_0000 * s <= x <= 0 ==> t >= -0x8000_0000) by (nonlinear_arith)
        requires
            x <= 0 ==> x <= t * s,
            s > 0,
    ;
    assert(x <= -0x8000_0000 * s ==> t <= -0x8000_0000) by (nonlinear_arith)
        requires
            x <= 0 ==> (t - 1) * s < x,
            s > 0,
    ;
}

/// No integer is nearer to `n / d` than the one that it is rounded to, and of
/// two that are equally near it is the even one.
proof fn lemma_half_even_is_nearest(n: nat, d: nat, c: int)
    requires
        0 < d,
    ensures
        ({
            let off = n - crate::binary32::half_even(n, d) * d;
            let other = n - c * d;
            &&& crate::binary32::magnitude(off) <= crate::binary32::magnitude(other)
            &&& crate::binary32::magnitude(off) == crate::binary32::magnitude(other) ==> c
                == crate::binary32::half_even(n, d) || crate::binary32::half_even(n, d) % 2 == 0
        }),
{
    let q = n as int / d as int;
    let r = n as int % d as int;
    lemma_fundamental_div_mod(n as int, d as int);
    let m = crate::binary32::half_even(n, d) as int;
    let j = c - q;
    assert(n - c * d == r - j * d) by (nonlinear_arith)
        requires
            n == d * q + r,
            j == c - q,
    ;
    assert(n - (q + 1) * d == r - d && n - q * d == r) by (nonlinear_arith)
        requires
            n == d * q + r,
    ;
    assert(j <= -1 ==> r - j * d >= r + d) by (nonlinear_arith)
        requires
            d > 0,
    ;
    assert(j >= 2 ==> r - j * d <= r - 2 * d) by (nonlinear_arith)
        requires
            d > 0,
    ;
    assert(j == 0 ==> j * d == 0);
    assert(j == 1 ==> j * d == d);
}

/// Rounding goes to the nearest number with a significand of 24 bits: no
/// other, whatever its exponent, is nearer.
pub proof fn law_rounding_goes_to_the_nearest(n: nat, d: nat, e: int, c: int, h: int, k: nat)
    requires
        0 < n,
        0 < d,
        e + k >= 0,
        h + k >= 0,
        crate::binary32::rounded(n as int, d, e).exponent + k >= 1,
        -SIGNIFICAND_END < c < SIGNIFICAND_END,
    ensures
        ({
            let exact = n * pow2((e + k) as nat);
            let off = exact - crate::binary32::rounded(n as int, d, e).units(k) * d;
            let other = exact - (c * pow2((h + k) as nat)) * d;
            crate::binary32::magnitude(off) <= crate::binary32::magnitude(other)
        }),
{
    let j = lemma_rounded_units(n, d, e, k);
    let all = n * pow2((e + k) as nat);
    let u = pow2(j);
    let du = d * u;
    let m = crate::binary32::half_even(all, du);
    let i = (h + k) as nat;
    let p = pow2(i);
    lemma_pow2_pos(i);
    lemma_pow2_pos(j);
    assert((m * u) * d == m * du) by (nonlinear_arith)
        requires
            du == d * u,
    ;
    if i >= j {
        let g = pow2((i - j) as nat);
        lemma_pow2_adds((i - j) as nat, j);
        assert((c * p) * d == (c * g) * du) by (nonlinear_arith)
            requires
                p == g * u,
                du == d * u,
        ;
        lemma_half_even_is_nearest(all, du, c * g);
    } else {
        // It is too small to be near: the least number with the last place of
        // the exact one is nearer.
        let g = pow2((j - i - 1) as nat);
        lemma_pow2_adds((j - i - 1) as nat, i);
        lemma_pow2_pos((j - i - 1) as nat);
        lemma_pow2_unfold((j - i) as nat);
        lemma_pow2_adds((j - i) as nat, i);
        assert(u == 2 * (g * p)) by (nonlinear_arith)
            requires
                u == (2 * g) * p,
        ;
        assert((c * p) * d <= 0x80_0000 * du) by (nonlinear_arith)
            requires
                u == 2 * (g * p),
                g >= 1,
                p >= 1,
                c < 0x100_0000,
                du == d * u,
                d > 0,
        ;
        lemma_half_even_is_nearest(all, du, 0x80_0000);
    }
}

/// What lies halfway between two neighbours with a significand of 24 bits goes
/// to the even one of them.
pub proof fn law_ties_go_to_even(n: nat, d: nat, e: int, m: nat, h: int, k: nat)
    requires
        0 < n,
        0 < d,
        e + k >= 0,
        h + k >= 0,
        crate::binary32::rounded(n as int, d, e).exponent + k >= 1,
        SIGNIFICAND_MIN <= m < SIGNIFICAND_END,
        2 * (n * pow2((e + k) as nat)) == d * ((2 * m + 1) * pow2((h + k) as nat)),
    ensures
        m % 2 == 0 ==> crate::binary32::rounded(n as int, d, e).units(k) == m * pow2(
            (h + k) as nat,
        ),
        m % 2 == 1 ==> crate::binary32::rounded(n as int, d, e).units(k) == (m + 1) * pow2(
            (h + k) as nat,
        ),
{
    let j = lemma_rounded_units(n, d, e, k);
    let all = n * pow2((e + k) as nat);
    let u = pow2(j);
    let i = (h + k) as nat;
    let p = pow2(i);
    lemma_pow2_pos(i);
    lemma_pow2_pos(j);
    let dp = d * p;
    assert(2 * all == 2 * (m * dp) + dp && dp > 0) by (nonlinear_arith)
        requires
            2 * all == d * ((2 * m + 1) * p),
            dp == d * p,
            d > 0,
            p > 0,
    ;
    let du = d * u;
    assert(i == j) by {
        if i < j {
            let g = pow2((j - i - 1) as nat);
            lemma_pow2_pos((j - i - 1) as nat);
            lemma_pow2_unfold((j - i) as nat);
            lemma_pow2_adds((j - i) as nat, i);
            assert(du >= 2 * dp) by (nonlinear_arith)
                requires
                    u == (2 * g) * p,
                    g >= 1,
                    du == d * u,
                    dp == d * p,
                    dp > 0,
            ;
            assert(m * dp <= 0xff_ffff * dp) by (nonlinear_arith)
                requires
                    m <= 0xff_ffff,
                    dp > 0,
            ;
        } else if j < i {
            let g = pow2((i - j - 1) as nat);
            lemma_pow2_pos((i - j - 1) as nat);
            lemma_pow2_unfold((i - j) as nat);
            lemma_pow2_adds((i - j) as nat, j);
            assert(dp >= 2 * du) by (nonlinear_arith)
                requires
                    p == (2 * g) * u,
                    g >= 1,
                    du == d * u,
                    dp == d * p,
                    du > 0,
            ;
            assert(m * dp >= 0x80_0000 * dp) by (nonlinear_arith)
                requires
                    m >= 0x80_0000,
                    dp > 0,
            ;
        }
    }
    let r = all - m * dp;
    assert(all == m * dp + r);
    lemma_fundamental_div_mod_converse(all as int, dp as int, m as int, r as int);
}

/// A bit pattern is a sign, eight bits of exponent and 23 of fraction. In units
/// of `2^-149` it stands for its fraction if the exponent is 0, and else for the
/// fraction with a leading one, doubled for each exponent after the first; the
/// last exponent is for infinity and for what is not a number. An integer
/// reaches it just if it is no smaller.
pub proof fn law_bit_patterns_are_numbers(
    v: int,
    negative: bool,
    exponent: int,
    fraction: int,
    bits: u32,
)
    requires
        0 <= v,
        0 <= exponent < 256,
        0 <= fraction < 0x80_0000,
        bits == exponent * 0x80_0000 + fraction + if negative {
            0x8000_0000int
        } else {
            0
        },
    ensures
        crate::binary32::reaches(v, bits) <==> if exponent == 255 {
            negative && fraction == 0
        } else {
            let size = if exponent == 0 {
                fraction
            } else {
                (0x80_0000 + fraction) * pow2((exponent - 1) as nat)
            };
            negative || size <= v * pow2(149)
        },
{
    let sign = if negative {
        256int
    } else {
        0
    };
    assert(bits as int / 0x80_0000 == sign + exponent && bits as int % 0x80_0000 == fraction);
    assert((sign + exponent) % 256 == exponent);
    assert(negative <==> bits >= 0x8000_0000);
    if let Some(d) = crate::binary32::of_bits(bits) {
        let w = Dyadic { significand: v, exponent: 0 };
        lemma_at_most_units(d, w, 149);
        let i = (d.exponent + 149) as nat;
        let p = pow2(i) as int;
        lemma_pow2_pos(i);
        lemma_pow2_pos(149);
        lemma2_to64();
        let q = pow2(149) as int;
        assert(v * q >= 0) by (nonlinear_arith)
            requires
                v >= 0,
                q > 0,
        ;
        if negative {
            let m = d.significand;
            assert(m * p <= 0) by (nonlinear_arith)
                requires
                    m <= 0,
                    p > 0,
            ;
        }
        if exponent == 0 {
            assert(d.significand * 1 == d.significand);
        }
    }
}

} // verus!
