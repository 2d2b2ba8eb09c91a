use crate::geometry::floor_div;
use vstd::arithmetic::div_mod::lemma_div_multiples_vanish;
use vstd::prelude::*;

verus! {

/// A value that stands for nothing: the zero of a quantity.
pub trait Zero {
    const ZERO: Self;
}

impl Zero for i32 {
    const ZERO: Self = 0;
}

impl Zero for i64 {
    const ZERO: Self = 0;
}

impl Zero for i128 {
    const ZERO: Self = 0;
}

/// The shortest blend, in milliseconds.
pub const MIN_INTERPOLATION_TIME: i64 = 50;

/// The longest blend, in milliseconds, that the coefficients are sized for.
pub const MAX_INTERPOLATION_TIME: i64 = 0x10_0000;

/// The largest magnitude of a position or velocity handed in or blended
/// from.
pub const VALUE_LIMIT: i64 = 0x100_0000_0000;

/// The largest time, in milliseconds, that a blend is evaluated after.
pub const ELAPSED_LIMIT: i64 = 0x100_0000_0000;

/// The largest magnitude of a coefficient.
pub const COEF_LIMIT: i128 = 0x1_0000_0000_0000_0000;

/// One coordinate of a remote participant, smoothed between sparse
/// authoritative reports by a cubic blend.
///
/// With `u` the time since the last report over the blend duration `T`
/// (milliseconds), capped at one, the position is
/// `(a u^3 + b u^2 + c u + d) / 1000`. The coefficients are kept a thousand
/// times larger so that they stay whole: a position in thousandths of a world
/// unit and a velocity in thousandths of a world unit per second blend
/// without rounding at either end.
pub struct Interpolated {
    a: i128,
    b: i128,
    c: i128,
    d: i128,
    t: i64,
    interpolation_time: i64,
}

pub open spec fn abs(x: int) -> int {
    if x < 0 {
        -x
    } else {
        x
    }
}

/// The coefficients of the blend from position `p1` at velocity `v1` to
/// `p2` at velocity `v2` over `dur` milliseconds: `(a, b, c, d)`.
pub open spec fn hermite(p1: int, v1: int, p2: int, v2: int, dur: int) -> (int, int, int, int) {
    let d = 1000 * p1;
    let c = v1 * dur;
    let b = 3000 * p2 - 2 * c - 3 * d - v2 * dur;
    let a = 1000 * p2 - b - c - d;
    (a, b, c, d)
}

/// The blend duration after a report that came `t` milliseconds after the
/// previous one: one and a half times `t`, at least the minimum.
pub open spec fn widened(t: int) -> int {
    if t * 3 / 2 > MIN_INTERPOLATION_TIME {
        t * 3 / 2
    } else {
        MIN_INTERPOLATION_TIME as int
    }
}

impl Interpolated {
    pub closed spec fn coef_a(&self) -> int {
        self.a as int
    }

    pub closed spec fn coef_b(&self) -> int {
        self.b as int
    }

    pub closed spec fn coef_c(&self) -> int {
        self.c as int
    }

    pub closed spec fn coef_d(&self) -> int {
        self.d as int
    }

    /// Milliseconds since the last report.
    pub closed spec fn elapsed(&self) -> int {
        self.t as int
    }

    /// The blend duration, in milliseconds.
    pub closed spec fn duration(&self) -> int {
        self.interpolation_time as int
    }

    pub open spec fn wf(&self) -> bool {
        &&& abs(self.coef_a()) <= COEF_LIMIT
        &&& abs(self.coef_b()) <= COEF_LIMIT
        &&& abs(self.coef_c()) <= COEF_LIMIT
        &&& abs(self.coef_d()) <= COEF_LIMIT
        &&& MIN_INTERPOLATION_TIME <= self.duration() <= MAX_INTERPOLATION_TIME
        &&& 0 <= self.elapsed() <= ELAPSED_LIMIT
    }

    /// The time into the blend, capped at its duration.
    pub open spec fn clamped(&self) -> int {
        if self.elapsed() < self.duration() {
            self.elapsed()
        } else {
            self.duration()
        }
    }

    /// The blended position, rounded down.
    pub open spec fn value(&self) -> int {
        let e = self.clamped();
        let t = self.duration();
        (self.coef_a() * e * e * e + self.coef_b() * e * e * t + self.coef_c() * e * t * t + self.coef_d() * t
            * t * t) / (1000 * t * t * t)
    }

    /// The blended velocity, per second, rounded down.
    pub open spec fn slope(&self) -> int {
        let e = self.clamped();
        let t = self.duration();
        (3 * self.coef_a() * e * e + 2 * self.coef_b() * e * t + self.coef_c() * t * t) / (t * t * t)
    }

    /// A report may be blended towards: the present blend and the report
    /// stay within `VALUE_LIMIT` and the new blend within the longest
    /// duration.
    pub open spec fn update_fits(&self, p2: int, v2: int) -> bool {
        &&& abs(self.value()) <= VALUE_LIMIT
        &&& abs(self.slope()) <= VALUE_LIMIT
        &&& abs(p2) <= VALUE_LIMIT
        &&& abs(v2) <= VALUE_LIMIT
        &&& widened(self.elapsed()) <= MAX_INTERPOLATION_TIME
    }

    /// A blend that starts at `p` and moves at `v`.
    pub fn new(p: i64, v: i64) -> (r: Self)
        requires
            abs(p as int) <= VALUE_LIMIT,
            abs(v as int) <= VALUE_LIMIT,
        ensures
            r.wf(),
            r.duration() == MIN_INTERPOLATION_TIME,
            r.elapsed() == 0,
            (r.coef_a(), r.coef_b(), r.coef_c(), r.coef_d()) == (0int, 0int, v * MIN_INTERPOLATION_TIME, 1000 * p),
    {
        proof {
            assert(abs(v * MIN_INTERPOLATION_TIME) <= COEF_LIMIT) by (nonlinear_arith)
                requires abs(v as int) <= VALUE_LIMIT;
        }
        Interpolated {
            a: i128::ZERO,
            b: i128::ZERO,
            c: v as i128 * MIN_INTERPOLATION_TIME as i128,
            d: 1000 * p as i128,
            t: 0,
            interpolation_time: MIN_INTERPOLATION_TIME,
        }
    }

    /// Jumps to `p`, moving at `v`, keeping the blend duration.
    pub fn teleport(&mut self, p: i64, v: i64)
        requires
            old(self).wf(),
            abs(p as int) <= VALUE_LIMIT,
            abs(v as int) <= VALUE_LIMIT,
        ensures
            final(self).wf(),
            final(self).duration() == old(self).duration(),
            final(self).elapsed() == 0,
            (final(self).coef_a(), final(self).coef_b(), final(self).coef_c(), final(self).coef_d()) == (
                0int,
                0int,
                v * old(self).duration(),
                1000 * p,
            ),
    {
        proof {
            assert(abs(v * self.interpolation_time) <= COEF_LIMIT) by (nonlinear_arith)
                requires
                    abs(v as int) <= VALUE_LIMIT,
                    0 < self.interpolation_time <= MAX_INTERPOLATION_TIME,
            ;
        }
        self.a = i128::ZERO;
        self.b = i128::ZERO;
        self.c = v as i128 * self.interpolation_time as i128;
        self.d = 1000 * p as i128;
        self.t = 0;
    }

    /// Lets `delta_time` milliseconds pass.
    pub fn update(&mut self, delta_time: i64)
        requires
            old(self).wf(),
            0 <= old(self).elapsed() + delta_time <= ELAPSED_LIMIT,
        ensures
            final(self).wf(),
            final(self).elapsed() == old(self).elapsed() + delta_time,
            final(self).duration() == old(self).duration(),
            (final(self).coef_a(), final(self).coef_b(), final(self).coef_c(), final(self).coef_d()) == (
                old(self).coef_a(),
                old(self).coef_b(),
                old(self).coef_c(),
                old(self).coef_d(),
            ),
    {
        self.t = self.t + delta_time;
    }

    /// The blended position (see `value`).
    pub fn get(&self) -> (r: i128)
        requires
            self.wf(),
        ensures
            r == self.value(),
    {
        let t = self.interpolation_time as i128;
        let e = if (self.t as i128) < t {
            self.t as i128
        } else {
            t
        };
        proof {
            lemma_cubic_bounds(self.a as int, self.b as int, self.c as int, self.d as int, e as int, t as int);
        }
        let num = self.a * e * e * e + self.b * e * e * t + self.c * e * t * t + self.d * t * t * t;
        floor_div(num, 1000 * t * t * t)
    }

    /// The blended velocity (see `slope`).
    pub fn get_derivative(&self) -> (r: i128)
        requires
            self.wf(),
        ensures
            r == self.slope(),
    {
        let t = self.interpolation_time as i128;
        let e = if (self.t as i128) < t {
            self.t as i128
        } else {
            t
        };
        proof {
            lemma_cubic_bounds(self.a as int, self.b as int, self.c as int, self.d as int, e as int, t as int);
        }
        let num = 3 * self.a * e * e + 2 * self.b * e * t + self.c * t * t;
        floor_div(num, t * t * t)
    }

    /// Blends from where the participant now appears, at the velocity it now
    /// appears to have, to the report: position `p2` at velocity `v2`, over
    /// one and a half times the time since the previous report (at least the
    /// minimum).
    pub fn server_update(&mut self, p2: i64, v2: i64)
        requires
            old(self).wf(),
            old(self).update_fits(p2 as int, v2 as int),
        ensures
            final(self).wf(),
            final(self).elapsed() == 0,
            final(self).duration() == widened(old(self).elapsed()),
            (final(self).coef_a(), final(self).coef_b(), final(self).coef_c(), final(self).coef_d()) == hermite(
                old(self).value(),
                old(self).slope(),
                p2 as int,
                v2 as int,
                widened(old(self).elapsed()),
            ),
            final(self).value() == old(self).value(),
            final(self).slope() == old(self).slope(),
    {
        let ghost before = *self;
        let p1 = self.get();
        let v1 = self.get_derivative();
        let widened_time = self.t * 3 / 2;
        let interpolation_time = if widened_time > MIN_INTERPOLATION_TIME {
            widened_time
        } else {
            MIN_INTERPOLATION_TIME
        };
        let it = interpolation_time as i128;
        proof {
            assert(abs(v1 * it) <= 0x1000_0000_0000_0000) by (nonlinear_arith)
                requires abs(v1 as int) <= 0x100_0000_0000, 0 < it <= 0x10_0000;
            assert(abs(v2 * it) <= 0x1000_0000_0000_0000) by (nonlinear_arith)
                requires abs(v2 as int) <= 0x100_0000_0000, 0 < it <= 0x10_0000;
        }
        let d = 1000 * p1;
        let c = v1 * it;
        let b = 3000 * (p2 as i128) - 2 * c - 3 * d - (v2 as i128) * it;
        let a = 1000 * (p2 as i128) - b - c - d;
        self.a = a;
        self.b = b;
        self.c = c;
        self.d = d;
        self.t = 0;
        self.interpolation_time = interpolation_time;
        proof {
            let later = Interpolated { a, b, c, d, t: interpolation_time, interpolation_time };
            lemma_blend_continuity(before, *self, later, p2 as int, v2 as int);
        }
    }

    /// Whether `server_update(p2, v2)` may be called (see `update_fits`).
    pub fn can_server_update(&self, p2: i64, v2: i64) -> (r: bool)
        requires
            self.wf(),
        ensures
            r == self.update_fits(p2 as int, v2 as int),
    {
        let p1 = self.get();
        let v1 = self.get_derivative();
        let limit = VALUE_LIMIT as i128;
        -limit <= p1 && p1 <= limit && -limit <= v1 && v1 <= limit && -VALUE_LIMIT <= p2 && p2 <= VALUE_LIMIT
            && -VALUE_LIMIT <= v2 && v2 <= VALUE_LIMIT && (self.t * 3 / 2 <= MAX_INTERPOLATION_TIME
            && MIN_INTERPOLATION_TIME <= MAX_INTERPOLATION_TIME)
    }
}

/// `x * y` is bounded by the product of the bounds.
proof fn lemma_mul_bounded(x: int, y: int, bx: int, bnd: int)
    requires
        -bx <= x <= bx,
        0 <= y <= bnd,
    ensures
        -(bx * bnd) <= x * y <= bx * bnd,
{
    assert(-(bx * bnd) <= x * y <= bx * bnd) by (nonlinear_arith)
        requires -bx <= x <= bx, 0 <= y <= bnd;
}

/// The products that evaluating a blend forms fit in an `i128`.
proof fn lemma_cubic_bounds(a: int, b: int, c: int, d: int, e: int, t: int)
    requires
        abs(a) <= COEF_LIMIT,
        abs(b) <= COEF_LIMIT,
        abs(c) <= COEF_LIMIT,
        abs(d) <= COEF_LIMIT,
        0 <= e <= t,
        MIN_INTERPOLATION_TIME <= t <= MAX_INTERPOLATION_TIME,
    ensures
        0 < t * t <= 0x100_0000_0000,
        0 < 1000 * t * t <= 0x4_0000_0000_0000,
        0 < t * t * t <= 0x1000_0000_0000_0000,
        0 < 1000 * t * t * t <= 0x4000_0000_0000_0000_00,
        -0x1000_0000_0000_0000_0000_0000_0000_0000 <= a * e * e * e <= 0x1000_0000_0000_0000_0000_0000_0000_0000,
        -0x1000_0000_0000_0000_0000_0000_0000_0000 <= b * e * e * t <= 0x1000_0000_0000_0000_0000_0000_0000_0000,
        -0x1000_0000_0000_0000_0000_0000_0000_0000 <= c * e * t * t <= 0x1000_0000_0000_0000_0000_0000_0000_0000,
        -0x1000_0000_0000_0000_0000_0000_0000_0000 <= d * t * t * t <= 0x1000_0000_0000_0000_0000_0000_0000_0000,
        -0x1000_0000_0000_0000_0000_0000_0000_0000 <= 3 * a * e * e <= 0x1000_0000_0000_0000_0000_0000_0000_0000,
        -0x1000_0000_0000_0000_0000_0000_0000_0000 <= 2 * b * e * t <= 0x1000_0000_0000_0000_0000_0000_0000_0000,
        -0x1000_0000_0000_0000_0000_0000_0000_0000 <= c * t * t <= 0x1000_0000_0000_0000_0000_0000_0000_0000,
        -0x1000_0000_0000_0000_0000_0000_0000 <= a * e <= 0x1000_0000_0000_0000_0000_0000_0000,
        -0x1000_0000_0000_0000_0000_0000_0000 <= a * e * e <= 0x1000_0000_0000_0000_0000_0000_0000_0000,
        -0x1000_0000_0000_0000_0000_0000_0000 <= b * e <= 0x1000_0000_0000_0000_0000_0000_0000,
        -0x1000_0000_0000_0000_0000_0000_0000 <= b * e * e <= 0x1000_0000_0000_0000_0000_0000_0000_0000,
        -0x1000_0000_0000_0000_0000_0000_0000 <= c * e <= 0x1000_0000_0000_0000_0000_0000_0000,
        -0x1000_0000_0000_0000_0000_0000_0000 <= c * e * t <= 0x1000_0000_0000_0000_0000_0000_0000_0000,
        -0x1000_0000_0000_0000_0000_0000_0000 <= d * t <= 0x1000_0000_0000_0000_0000_0000_0000,
        -0x1000_0000_0000_0000_0000_0000_0000 <= d * t * t <= 0x1000_0000_0000_0000_0000_0000_0000_0000,
        -0x1000_0000_0000_0000_0000_0000_0000 <= 3 * a * e <= 0x1000_0000_0000_0000_0000_0000_0000,
        -0x1000_0000_0000_0000_0000_0000_0000 <= 2 * b * e <= 0x1000_0000_0000_0000_0000_0000_0000,
        -0x1000_0000_0000_0000_0000_0000_0000 <= c * t <= 0x1000_0000_0000_0000_0000_0000_0000,
{
    let k: int = 0x1_0000_0000_0000_0000;
    let m: int = 0x10_0000;
    assert(0 < t * t <= 0x100_0000_0000) by (nonlinear_arith)
        requires 50 <= t <= 0x10_0000;
    assert(0 < 1000 * t * t <= 0x4_0000_0000_0000) by (nonlinear_arith)
        requires 50 <= t <= 0x10_0000;
    assert(0 < t * t * t <= 0x1000_0000_0000_0000) by (nonlinear_arith)
        requires 50 <= t <= 0x10_0000;
    assert(0 < 1000 * t * t * t <= 0x4000_0000_0000_0000_00) by (nonlinear_arith)
        requires 50 <= t <= 0x10_0000;
    lemma_mul_bounded(a, e, k, m);
    lemma_mul_bounded(a * e, e, k * m, m);
    lemma_mul_bounded(a * e * e, e, k * m * m, m);
    lemma_mul_bounded(b, e, k, m);
    lemma_mul_bounded(b * e, e, k * m, m);
    lemma_mul_bounded(b * e * e, t, k * m * m, m);
    lemma_mul_bounded(c, e, k, m);
    lemma_mul_bounded(c * e, t, k * m, m);
    lemma_mul_bounded(c * e * t, t, k * m * m, m);
    lemma_mul_bounded(d, t, k, m);
    lemma_mul_bounded(d * t, t, k * m, m);
    lemma_mul_bounded(d * t * t, t, k * m * m, m);
    lemma_mul_bounded(3 * a, e, 3 * k, m);
    lemma_mul_bounded(3 * a * e, e, 3 * k * m, m);
    lemma_mul_bounded(2 * b, e, 2 * k, m);
    lemma_mul_bounded(2 * b * e, t, 2 * k * m, m);
    lemma_mul_bounded(c, t, k, m);
    lemma_mul_bounded(c * t, t, k * m, m);
}

/// A blend is continuous where a report starts it: at once after
/// `server_update` the position and velocity are those shown just before it,
/// and once its duration has passed they are exactly the reported ones.
pub proof fn lemma_blend_continuity(before: Interpolated, after: Interpolated, later: Interpolated, p2: int, v2: int)
    requires
        before.wf(),
        after.wf(),
        later.wf(),
        after.elapsed() == 0,
        after.duration() == widened(before.elapsed()),
        (after.coef_a(), after.coef_b(), after.coef_c(), after.coef_d()) == hermite(
            before.value(),
            before.slope(),
            p2,
            v2,
            after.duration(),
        ),
        (later.coef_a(), later.coef_b(), later.coef_c(), later.coef_d()) == (
            after.coef_a(),
            after.coef_b(),
            after.coef_c(),
            after.coef_d(),
        ),
        later.duration() == after.duration(),
        later.elapsed() >= later.duration(),
    ensures
        after.value() == before.value(),
        after.slope() == before.slope(),
        later.value() == p2,
        later.slope() == v2,
{
    let t = after.duration();
    let p1 = before.value();
    let v1 = before.slope();
    let (a, b, c, d) = (after.coef_a(), after.coef_b(), after.coef_c(), after.coef_d());
    let t3 = t * t * t;
    assert(t3 > 0 && 1000 * t * t * t == 1000 * t3) by (nonlinear_arith)
        requires t >= 50, t3 == t * t * t;
    assert(a * 0 * 0 * 0 + b * 0 * 0 * t + c * 0 * t * t + d * t * t * t == (1000 * t3) * p1) by (nonlinear_arith)
        requires d == 1000 * p1, t3 == t * t * t;
    lemma_div_multiples_vanish(p1, 1000 * t3);
    assert(3 * a * 0 * 0 + 2 * b * 0 * t + c * t * t == t3 * v1) by (nonlinear_arith)
        requires c == v1 * t, t3 == t * t * t;
    lemma_div_multiples_vanish(v1, t3);
    assert(a * t * t * t + b * t * t * t + c * t * t * t + d * t * t * t == (1000 * t3) * p2) by (nonlinear_arith)
        requires a == 1000 * p2 - b - c - d, t3 == t * t * t;
    lemma_div_multiples_vanish(p2, 1000 * t3);
    assert(3 * a * t * t + 2 * b * t * t + c * t * t == t3 * v2) by (nonlinear_arith)
        requires
            a == 1000 * p2 - b - c - d,
            b == 3000 * p2 - 2 * c - 3 * d - v2 * t,
            t3 == t * t * t,
    ;
    lemma_div_multiples_vanish(v2, t3);
}

} // verus!
