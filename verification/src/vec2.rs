//! Fixed-point 2D vectors.
//!
//! A component is an `i64` raw value denoting `raw / SCALE` plane units.
//! Every operation is specified exactly over the mathematical model [`V2i`]
//! (unbounded integer raw components): products are taken over the integers
//! and divisions round toward zero, so each contract pins the result down to
//! the bit.

use vstd::prelude::*;
use vstd::arithmetic::mul::*;
use vstd::arithmetic::div_mod::*;

verus! {

/// Number of raw steps per plane unit: a raw value `r` denotes `r / SCALE` units.
pub const SCALE: i64 = 65536;

/// Largest raw component magnitude the vector operations accept (2^60).
/// Squares of such components still fit comfortably in `i128`.
pub const RAW_LIMIT: i64 = 0x1000_0000_0000_0000;

pub open spec fn in_raw_range(a: int) -> bool {
    -RAW_LIMIT <= a <= RAW_LIMIT
}

pub open spec fn abs_i(a: int) -> int {
    if a >= 0 {
        a
    } else {
        -a
    }
}

/// Floor of the square root: the unique `r` with `r * r <= n < (r + 1) * (r + 1)`.
pub open spec fn isqrt_spec(n: nat) -> nat
    decreases n,
{
    if n == 0 {
        0
    } else {
        let p = isqrt_spec((n - 1) as nat);
        if (p + 1) * (p + 1) <= n {
            p + 1
        } else {
            p
        }
    }
}

pub proof fn lemma_isqrt_bounds(n: nat)
    ensures
        (isqrt_spec(n) as int) * (isqrt_spec(n) as int) <= n as int,
        (n as int) < (isqrt_spec(n) as int + 1) * (isqrt_spec(n) as int + 1),
    decreases n,
{
    if n == 0 {
        assert(isqrt_spec(n) == 0);
    } else {
        lemma_isqrt_bounds((n - 1) as nat);
        let p = isqrt_spec((n - 1) as nat) as int;
        assert(p * p >= 0 && (p + 1) * (p + 1) >= 0 && (p + 2) * (p + 2) > (p + 1) * (p + 1))
            by (nonlinear_arith)
            requires p >= 0;
        assert(p * p <= n as int - 1);
        assert((n as int) - 1 < (p + 1) * (p + 1));
        if (p + 1) * (p + 1) <= n as int {
            assert(isqrt_spec(n) as int == p + 1);
            assert(n as int == (p + 1) * (p + 1));
        } else {
            assert(isqrt_spec(n) as int == p);
        }
    }
}

pub proof fn lemma_isqrt_unique(n: nat, r: int)
    requires
        0 <= r,
        r * r <= n as int,
        (n as int) < (r + 1) * (r + 1),
    ensures
        r == isqrt_spec(n) as int,
{
    lemma_isqrt_bounds(n);
    let s = isqrt_spec(n) as int;
    if r < s {
        assert((r + 1) * (r + 1) <= s * s) by (nonlinear_arith)
            requires 0 <= r < s;
    }
    if s < r {
        assert((s + 1) * (s + 1) <= r * r) by (nonlinear_arith)
            requires 0 <= s < r;
    }
}

pub proof fn lemma_isqrt_monotone(a: nat, b: nat)
    requires
        a <= b,
    ensures
        isqrt_spec(a) <= isqrt_spec(b),
{
    lemma_isqrt_bounds(a);
    lemma_isqrt_bounds(b);
    let sa = isqrt_spec(a) as int;
    let sb = isqrt_spec(b) as int;
    if sb < sa {
        assert((sb + 1) * (sb + 1) <= sa * sa) by (nonlinear_arith)
            requires 0 <= sb < sa;
    }
}

/// `a * b / c` with the product over the integers and the division rounding
/// toward zero (the quotient of the magnitudes, re-signed), as the executable
/// operations compute it.
pub open spec fn mul_div_spec(a: int, b: int, c: int) -> int {
    if a >= 0 {
        (a * b) / c
    } else {
        -(((-a) * b) / c)
    }
}

/// The quotient's magnitude is at most `b` when `|a| <= c`.
pub proof fn lemma_mul_div_le_scalar(a: int, b: int, c: int)
    requires
        0 <= b,
        1 <= c,
        abs_i(a) <= c,
    ensures
        abs_i(mul_div_spec(a, b, c)) <= b,
{
    let m = abs_i(a);
    lemma_mul_nonnegative(m, b);
    lemma_div_pos_is_pos(m * b, c);
    lemma_mul_inequality(m, c, b);
    lemma_div_is_ordered(m * b, c * b, c);
    lemma_div_multiples_vanish(b, c);
}

/// The quotient's magnitude is at most `|a|` when `b <= c`.
pub proof fn lemma_mul_div_shrinks(a: int, b: int, c: int)
    requires
        0 <= b <= c,
        1 <= c,
    ensures
        abs_i(mul_div_spec(a, b, c)) <= abs_i(a),
{
    let m = abs_i(a);
    lemma_mul_nonnegative(m, b);
    lemma_div_pos_is_pos(m * b, c);
    lemma_mul_inequality(b, c, m);
    lemma_div_is_ordered(m * b, m * c, c);
    lemma_div_multiples_vanish(m, c);
    assert(m * b <= m * c) by {
        assert(b * m <= c * m);
    }
}

/// The quotient keeps the sign of `a` (or is zero).
pub proof fn lemma_mul_div_sign(a: int, b: int, c: int)
    requires
        0 <= b,
        1 <= c,
    ensures
        a >= 0 ==> mul_div_spec(a, b, c) >= 0,
        a <= 0 ==> mul_div_spec(a, b, c) <= 0,
{
    if a >= 0 {
        lemma_mul_nonnegative(a, b);
        lemma_div_pos_is_pos(a * b, c);
    } else {
        lemma_mul_nonnegative(-a, b);
        lemma_div_pos_is_pos((-a) * b, c);
    }
}

/// Mathematical model of a vector: unbounded integer raw components.
pub struct V2i {
    pub x: int,
    pub y: int,
}

pub open spec fn v_add(a: V2i, b: V2i) -> V2i {
    V2i { x: a.x + b.x, y: a.y + b.y }
}

pub open spec fn v_sub(a: V2i, b: V2i) -> V2i {
    V2i { x: a.x - b.x, y: a.y - b.y }
}

/// Squared magnitude in raw^2 units.
pub open spec fn v_msq(a: V2i) -> int {
    a.x * a.x + a.y * a.y
}

/// Magnitude in raw units, rounded down.
pub open spec fn v_mag(a: V2i) -> int {
    isqrt_spec(v_msq(a) as nat) as int
}

/// Scaling by `s / SCALE` (multiplication by the fixed-point scalar `s`).
pub open spec fn v_scale(a: V2i, s: int) -> V2i {
    V2i { x: mul_div_spec(a.x, s, SCALE as int), y: mul_div_spec(a.y, s, SCALE as int) }
}

/// Scaling by the rational `n / d`.
pub open spec fn v_frac(a: V2i, n: int, d: int) -> V2i {
    V2i { x: mul_div_spec(a.x, n, d), y: mul_div_spec(a.y, n, d) }
}

/// Rescaling to unit plane length: each component becomes `x * SCALE / |a|`.
pub open spec fn v_norm(a: V2i) -> V2i {
    let m = v_mag(a);
    V2i { x: mul_div_spec(a.x, SCALE as int, m), y: mul_div_spec(a.y, SCALE as int, m) }
}

/// The vector unchanged if its magnitude is at most `l`, else rescaled to
/// magnitude (nearly) `l`.
pub open spec fn v_limit(a: V2i, l: int) -> V2i {
    let m = v_mag(a);
    if m > l {
        V2i { x: mul_div_spec(a.x, l, m), y: mul_div_spec(a.y, l, m) }
    } else {
        a
    }
}

/// The near-zero seed for force accumulation: the smallest representable
/// positive vector, standing in for a true zero to keep later normalizations
/// away from a division by zero.
pub open spec fn v_seed() -> V2i {
    V2i { x: 1, y: 1 }
}

/// A squared magnitude is nonnegative and no component outgrows the magnitude.
pub proof fn lemma_comp_le_mag(a: V2i)
    ensures
        v_msq(a) >= 0,
        v_msq(a) >= a.x * a.x,
        v_msq(a) >= a.y * a.y,
        abs_i(a.x) <= v_mag(a),
        abs_i(a.y) <= v_mag(a),
        v_mag(a) * v_mag(a) <= v_msq(a),
        v_msq(a) < (v_mag(a) + 1) * (v_mag(a) + 1),
        v_mag(a) >= 0,
        v_msq(a) > 0 ==> v_mag(a) >= 1,
{
    let ax = abs_i(a.x);
    let ay = abs_i(a.y);
    assert(ax * ax == a.x * a.x && ax * ax >= 0) by (nonlinear_arith)
        requires ax == a.x || ax == -a.x;
    assert(ay * ay == a.y * a.y && ay * ay >= 0) by (nonlinear_arith)
        requires ay == a.y || ay == -a.y;
    lemma_isqrt_bounds(v_msq(a) as nat);
    assert(ax * ax < (ax + 1) * (ax + 1)) by (nonlinear_arith)
        requires ax >= 0;
    assert(ay * ay < (ay + 1) * (ay + 1)) by (nonlinear_arith)
        requires ay >= 0;
    lemma_isqrt_unique((ax * ax) as nat, ax);
    lemma_isqrt_unique((ay * ay) as nat, ay);
    lemma_isqrt_monotone((ax * ax) as nat, v_msq(a) as nat);
    lemma_isqrt_monotone((ay * ay) as nat, v_msq(a) as nat);
    if v_msq(a) > 0 && v_mag(a) == 0 {
        assert(v_msq(a) < 1) by (nonlinear_arith)
            requires
                v_msq(a) < (v_mag(a) + 1) * (v_mag(a) + 1),
                v_mag(a) == 0,
        ;
    }
}

/// Rescaling a vector of magnitude `m >= l >= 6` by the ratio `l / m` (the
/// shared core of `v_limit` and `v_norm`) yields a vector whose magnitude is
/// `l` within 3 raw steps below, and whose components keep their signs.
pub proof fn lemma_rescale_mag(a: V2i, l: int)
    requires
        6 <= l,
        l <= v_mag(a),
    ensures
        ({
            let m = v_mag(a);
            let c = V2i { x: mul_div_spec(a.x, l, m), y: mul_div_spec(a.y, l, m) };
            &&& l - 3 <= v_mag(c) <= l
            &&& (a.x >= 0 ==> c.x >= 0)
            &&& (a.x <= 0 ==> c.x <= 0)
            &&& (a.y >= 0 ==> c.y >= 0)
            &&& (a.y <= 0 ==> c.y <= 0)
        }),
{
    let m = v_mag(a);
    let msq = v_msq(a);
    let c = V2i { x: mul_div_spec(a.x, l, m), y: mul_div_spec(a.y, l, m) };
    lemma_comp_le_mag(a);
    lemma_mul_div_sign(a.x, l, m);
    lemma_mul_div_sign(a.y, l, m);
    lemma_mul_div_le_scalar(a.x, l, m);
    lemma_mul_div_le_scalar(a.y, l, m);
    let ax = abs_i(a.x);
    let ay = abs_i(a.y);
    let cx = abs_i(c.x);
    let cy = abs_i(c.y);
    assert(cx == (ax * l) / m && cy == (ay * l) / m);
    lemma_mul_nonnegative(ax, l);
    lemma_mul_nonnegative(ay, l);
    lemma_div_pos_is_pos(ax * l, m);
    lemma_div_pos_is_pos(ay * l, m);
    lemma_fundamental_div_mod(ax * l, m);
    lemma_fundamental_div_mod(ay * l, m);
    lemma_mod_bound(ax * l, m);
    lemma_mod_bound(ay * l, m);
    assert(cx * m <= ax * l < (cx + 1) * m) by (nonlinear_arith)
        requires
            ax * l == m * cx + (ax * l) % m,
            0 <= (ax * l) % m < m,
    ;
    assert(cy * m <= ay * l < (cy + 1) * m) by (nonlinear_arith)
        requires
            ay * l == m * cy + (ay * l) % m,
            0 <= (ay * l) % m < m,
    ;
    assert(v_msq(c) == cx * cx + cy * cy) by (nonlinear_arith)
        requires
            v_msq(c) == c.x * c.x + c.y * c.y,
            cx == c.x || cx == -c.x,
            cy == c.y || cy == -c.y,
    ;
    assert(msq == ax * ax + ay * ay) by (nonlinear_arith)
        requires
            msq == a.x * a.x + a.y * a.y,
            ax == a.x || ax == -a.x,
            ay == a.y || ay == -a.y,
    ;
    // upper bound: msq(c) * m^2 <= msq * l^2 <= (m^2 + 2m) l^2 <= (l^2 + 2l) m^2
    assert((cx * cx + cy * cy) * (m * m) <= (ax * ax + ay * ay) * (l * l)) by (nonlinear_arith)
        requires
            0 <= cx * m <= ax * l,
            0 <= cy * m <= ay * l,
            0 <= cx,
            0 <= cy,
            0 <= m,
            0 <= l,
            0 <= ax,
            0 <= ay,
    ;
    assert(msq <= m * m + 2 * m) by (nonlinear_arith)
        requires
            msq < (m + 1) * (m + 1),
    ;
    assert((ax * ax + ay * ay) * (l * l) <= (l * l + 2 * l) * (m * m)) by (nonlinear_arith)
        requires
            ax * ax + ay * ay <= m * m + 2 * m,
            0 <= l <= m,
    ;
    assert(cx * cx + cy * cy <= l * l + 2 * l) by (nonlinear_arith)
        requires
            (cx * cx + cy * cy) * (m * m) <= (l * l + 2 * l) * (m * m),
            1 <= m,
    ;
    assert(l * l <= l * l + 2 * l < (l + 1) * (l + 1)) by (nonlinear_arith)
        requires
            1 <= l,
    ;
    lemma_isqrt_unique((l * l + 2 * l) as nat, l);
    lemma_isqrt_monotone(v_msq(c) as nat, (l * l + 2 * l) as nat);
    // lower bound: m^2 l^2 <= msq l^2 < (msq(c) + 2 cx + 2 cy + 2) m^2
    assert((ax * l) * (ax * l) < ((cx + 1) * m) * ((cx + 1) * m)) by (nonlinear_arith)
        requires
            0 <= ax * l < (cx + 1) * m,
    ;
    assert((ay * l) * (ay * l) < ((cy + 1) * m) * ((cy + 1) * m)) by (nonlinear_arith)
        requires
            0 <= ay * l < (cy + 1) * m,
    ;
    assert((ax * ax + ay * ay) * (l * l) == (ax * l) * (ax * l) + (ay * l) * (ay * l))
        by (nonlinear_arith);
    assert((cx * cx + cy * cy + 2 * cx + 2 * cy + 2) * (m * m) == ((cx + 1) * m) * ((cx + 1) * m)
        + ((cy + 1) * m) * ((cy + 1) * m)) by (nonlinear_arith);
    assert((ax * ax + ay * ay) * (l * l) < (cx * cx + cy * cy + 2 * cx + 2 * cy + 2) * (m * m));
    assert((m * m) * (l * l) <= (ax * ax + ay * ay) * (l * l)) by (nonlinear_arith)
        requires
            m * m <= ax * ax + ay * ay,
            0 <= l,
    ;
    assert(l * l < cx * cx + cy * cy + 2 * cx + 2 * cy + 2) by (nonlinear_arith)
        requires
            (m * m) * (l * l) < (cx * cx + cy * cy + 2 * cx + 2 * cy + 2) * (m * m),
            1 <= m,
            0 <= l,
            0 <= cx,
            0 <= cy,
    ;
    assert((l - 3) * (l - 3) <= l * l - 4 * l - 1) by (nonlinear_arith)
        requires
            6 <= l,
    ;
    assert(cx * cx + cy * cy >= l * l - 4 * l - 1) by {
        assert(cx <= l && cy <= l);
    }
    assert(0 <= (l - 3) * (l - 3) && (l - 3) * (l - 3) < (l - 2) * (l - 2)) by (nonlinear_arith)
        requires
            6 <= l,
    ;
    lemma_isqrt_unique(((l - 3) * (l - 3)) as nat, l - 3);
    lemma_isqrt_monotone(((l - 3) * (l - 3)) as nat, v_msq(c) as nat);
}

/// `limit` leaves a vector whose magnitude is within the bound untouched.
pub proof fn lemma_limit_short(a: V2i, l: int)
    requires
        v_mag(a) <= l,
    ensures
        v_limit(a, l) == a,
{
}

/// `limit` brings an over-long vector to magnitude `l`, within 3 raw steps
/// below, and keeps its direction (the sign of each component).
pub proof fn lemma_limit_long(a: V2i, l: int)
    requires
        6 <= l,
        v_mag(a) > l,
    ensures
        l - 3 <= v_mag(v_limit(a, l)) <= l,
        a.x >= 0 ==> v_limit(a, l).x >= 0,
        a.x <= 0 ==> v_limit(a, l).x <= 0,
        a.y >= 0 ==> v_limit(a, l).y >= 0,
        a.y <= 0 ==> v_limit(a, l).y <= 0,
{
    lemma_rescale_mag(a, l);
}

/// `normalize` of a vector at least one plane unit long yields magnitude
/// `SCALE` (one plane unit) within 3 raw steps below — unit length to a
/// tolerance of 3/SCALE — and keeps its direction (the sign of each
/// component). Shorter vectors are too coarse to renormalize accurately.
pub proof fn lemma_normalize_unit(a: V2i)
    requires
        v_mag(a) >= SCALE,
    ensures
        SCALE - 3 <= v_mag(v_norm(a)) <= SCALE,
        a.x >= 0 ==> v_norm(a).x >= 0,
        a.x <= 0 ==> v_norm(a).x <= 0,
        a.y >= 0 ==> v_norm(a).y >= 0,
        a.y <= 0 ==> v_norm(a).y <= 0,
{
    lemma_rescale_mag(a, SCALE as int);
}

/// Fixed-point 2D vector; a component denotes `raw / SCALE` plane units.
#[derive(Clone, Copy, PartialEq, Eq, Structural, Debug)]
pub struct Vec2 {
    pub x: i64,
    pub y: i64,
}

impl View for Vec2 {
    type V = V2i;

    open spec fn view(&self) -> V2i {
        V2i { x: self.x as int, y: self.y as int }
    }
}

fn isqrt_u128(n: u128) -> (r: u128)
    ensures
        r * r <= n < (r + 1) * (r + 1),
        r == isqrt_spec(n as nat),
{
    let mut lo: u128 = 0;
    let mut hi: u128 = 0xFFFF_FFFF_FFFF_FFFF;
    while lo < hi
        invariant
            lo <= hi <= 0xFFFF_FFFF_FFFF_FFFF,
            lo * lo <= n,
            n < (hi + 1) * (hi + 1),
        decreases hi - lo,
    {
        let mid = lo + (hi - lo + 1) / 2;
        assert(lo < mid <= hi);
        assert(mid * mid < 0xFFFF_FFFF_FFFF_FFFF_FFFF_FFFF_FFFF_FFFF) by (nonlinear_arith)
            requires 0 <= mid <= 0xFFFF_FFFF_FFFF_FFFF;
        if mid * mid <= n {
            lo = mid;
        } else {
            hi = mid - 1;
        }
    }
    proof {
        lemma_isqrt_unique(n as nat, lo as int);
    }
    lo
}

/// `a * b / c` with an exact `u128` intermediate product of the magnitudes,
/// rounding toward zero.
fn mul_div(a: i64, b: i64, c: i64) -> (r: i64)
    requires
        0 <= b,
        1 <= c,
        in_raw_range(mul_div_spec(a as int, b as int, c as int)),
    ensures
        r as int == mul_div_spec(a as int, b as int, c as int),
{
    let am: u128 = if a >= 0 {
        a as u128
    } else {
        (-(a as i128)) as u128
    };
    assert(am == abs_i(a as int));
    assert(am as int * (b as int) <= 0x4000_0000_0000_0000_0000_0000_0000_0000) by (nonlinear_arith)
        requires
            0 <= am as int <= 0x8000_0000_0000_0000,
            0 <= b as int <= 0x8000_0000_0000_0000,
    ;
    let q: u128 = am * (b as u128) / (c as u128);
    proof {
        if a >= 0 {
            assert(q == (a as int * b as int) / (c as int));
        } else {
            assert(q == ((-(a as int)) * b as int) / (c as int));
        }
    }
    if a >= 0 {
        q as i64
    } else {
        -(q as i64)
    }
}

impl Vec2 {
    /// Both raw components are within the range every operation accepts.
    pub open spec fn wf(&self) -> bool {
        in_raw_range(self@.x) && in_raw_range(self@.y)
    }

    pub fn new(x: i64, y: i64) -> (r: Vec2)
        ensures
            r@ == (V2i { x: x as int, y: y as int }),
    {
        Vec2 { x, y }
    }

    /// The reserved near-zero vector used to seed force accumulation: not a
    /// true zero, so a later normalization never divides by zero.
    pub fn zero() -> (r: Vec2)
        ensures
            r@ == v_seed(),
            r.wf(),
    {
        Vec2 { x: 1, y: 1 }
    }

    /// Squared magnitude in raw^2 units, exact.
    pub fn mag_sq(&self) -> (r: i128)
        requires
            self.wf(),
        ensures
            r as int == v_msq(self@),
    {
        let xi = self.x as i128;
        let yi = self.y as i128;
        proof {
            assert(xi * xi <= 0x1000_0000_0000_0000i128 * 0x1000_0000_0000_0000i128
                && xi * xi >= 0) by (nonlinear_arith)
                requires -0x1000_0000_0000_0000i128 <= xi <= 0x1000_0000_0000_0000i128;
            assert(yi * yi <= 0x1000_0000_0000_0000i128 * 0x1000_0000_0000_0000i128
                && yi * yi >= 0) by (nonlinear_arith)
                requires -0x1000_0000_0000_0000i128 <= yi <= 0x1000_0000_0000_0000i128;
        }
        xi * xi + yi * yi
    }

    /// Magnitude in raw units, rounded down, exact per `v_mag`.
    pub fn mag(&self) -> (r: i64)
        requires
            self.wf(),
        ensures
            r as int == v_mag(self@),
            0 <= r <= 0x2000_0000_0000_0000,
    {
        let m2 = self.mag_sq();
        proof {
            lemma_comp_le_mag(self@);
            assert(self@.x * self@.x <= 0x1000_0000_0000_0000 * 0x1000_0000_0000_0000)
                by (nonlinear_arith)
                requires -0x1000_0000_0000_0000 <= self@.x <= 0x1000_0000_0000_0000;
            assert(self@.y * self@.y <= 0x1000_0000_0000_0000 * 0x1000_0000_0000_0000)
                by (nonlinear_arith)
                requires -0x1000_0000_0000_0000 <= self@.y <= 0x1000_0000_0000_0000;
        }
        let r = isqrt_u128(m2 as u128);
        proof {
            assert(r as int <= 0x2000_0000_0000_0000) by (nonlinear_arith)
                requires
                    r as int * (r as int) <= 0x200_0000_0000_0000_0000_0000_0000_0000,
                    r as int >= 0,
            ;
        }
        r as i64
    }

    pub fn add(self, rhs: Vec2) -> (r: Vec2)
        requires
            self.wf(),
            rhs.wf(),
        ensures
            r@ == v_add(self@, rhs@),
    {
        Vec2 { x: self.x + rhs.x, y: self.y + rhs.y }
    }

    pub fn sub(self, rhs: Vec2) -> (r: Vec2)
        requires
            self.wf(),
            rhs.wf(),
        ensures
            r@ == v_sub(self@, rhs@),
    {
        Vec2 { x: self.x - rhs.x, y: self.y - rhs.y }
    }

    pub fn add_assign(&mut self, rhs: Vec2)
        requires
            old(self).wf(),
            rhs.wf(),
        ensures
            final(self)@ == v_add(old(self)@, rhs@),
    {
        self.x = self.x + rhs.x;
        self.y = self.y + rhs.y;
    }

    /// Multiplication by the fixed-point scalar `rhs` (i.e. by `rhs / SCALE`
    /// plane units), exact per `v_scale`.
    pub fn mul(self, rhs: i64) -> (r: Vec2)
        requires
            self.wf(),
            0 <= rhs,
            in_raw_range(mul_div_spec(self@.x, rhs as int, SCALE as int)),
            in_raw_range(mul_div_spec(self@.y, rhs as int, SCALE as int)),
        ensures
            r@ == v_scale(self@, rhs as int),
    {
        Vec2 { x: mul_div(self.x, rhs, SCALE), y: mul_div(self.y, rhs, SCALE) }
    }

    /// Multiplication by the rational `num / den` with `num <= den`: a
    /// damping step; never grows a component.
    pub fn mul_frac(self, num: i64, den: i64) -> (r: Vec2)
        requires
            self.wf(),
            0 <= num <= den,
            1 <= den,
        ensures
            r@ == v_frac(self@, num as int, den as int),
            abs_i(r@.x) <= abs_i(self@.x),
            abs_i(r@.y) <= abs_i(self@.y),
    {
        proof {
            lemma_mul_div_shrinks(self@.x, num as int, den as int);
            lemma_mul_div_shrinks(self@.y, num as int, den as int);
        }
        Vec2 { x: mul_div(self.x, num, den), y: mul_div(self.y, num, den) }
    }

    /// Rescaling to unit plane length, exact per `v_norm`. The result's
    /// components are at most `SCALE` in magnitude.
    pub fn normalize(&self) -> (r: Vec2)
        requires
            self.wf(),
            v_msq(self@) > 0,
        ensures
            r@ == v_norm(self@),
            abs_i(r@.x) <= SCALE as int,
            abs_i(r@.y) <= SCALE as int,
    {
        proof {
            lemma_comp_le_mag(self@);
        }
        let m = self.mag();
        proof {
            assert(m >= 1);
            lemma_mul_div_le_scalar(self@.x, SCALE as int, m as int);
            lemma_mul_div_le_scalar(self@.y, SCALE as int, m as int);
        }
        Vec2 { x: mul_div(self.x, SCALE, m), y: mul_div(self.y, SCALE, m) }
    }

    /// The vector unchanged if its magnitude is at most `limit`, else
    /// rescaled down to magnitude (nearly) `limit`; either way no component
    /// ends above `limit` in magnitude.
    pub fn limit(&self, limit: i64) -> (r: Vec2)
        requires
            self.wf(),
            0 <= limit <= RAW_LIMIT,
        ensures
            r@ == v_limit(self@, limit as int),
            abs_i(r@.x) <= limit as int,
            abs_i(r@.y) <= limit as int,
            v_mag(self@) <= limit ==> r == *self,
    {
        proof {
            lemma_comp_le_mag(self@);
        }
        let m = self.mag();
        if m > limit {
            proof {
                lemma_mul_div_le_scalar(self@.x, limit as int, m as int);
                lemma_mul_div_le_scalar(self@.y, limit as int, m as int);
            }
            Vec2 { x: mul_div(self.x, limit, m), y: mul_div(self.y, limit, m) }
        } else {
            *self
        }
    }
}

} // verus!
