use vstd::arithmetic::div_mod::{
    lemma_div_is_ordered,
    lemma_div_multiples_vanish,
    lemma_fundamental_div_mod,
    lemma_fundamental_div_mod_converse,
};
use vstd::prelude::*;

verus! {

/// A point or a vector of the plane in fixed point: each coordinate counts
/// thousandths of a world unit (for a velocity, thousandths of a world unit
/// per second).
#[derive(Clone, Copy, Debug, PartialEq, Eq, Structural)]
pub struct Vec2 {
    pub x: i32,
    pub y: i32,
}

/// The squared Euclidean length of `v`.
pub open spec fn len_sq(v: Vec2) -> int {
    v.x * v.x + v.y * v.y
}

/// The squared Euclidean distance between `a` and `b`.
pub open spec fn dist_sq(a: Vec2, b: Vec2) -> int {
    (a.x - b.x) * (a.x - b.x) + (a.y - b.y) * (a.y - b.y)
}

/// `a` weighted by `den - k` and `b` by `k`, over `den`, rounded down: the point
/// at fraction `k / den` of the way from `a` to `b`.
pub open spec fn mix(a: int, b: int, k: int, den: int) -> int {
    (a * (den - k) + b * k) / den
}

pub fn length_squared(v: Vec2) -> (r: i128)
    ensures
        r == len_sq(v),
{
    let x = v.x as i128;
    let y = v.y as i128;
    proof {
        assert(0 <= x * x <= 0x4000_0000_0000_0000) by (nonlinear_arith)
            requires -0x8000_0000 <= x <= 0x7fff_ffff;
        assert(0 <= y * y <= 0x4000_0000_0000_0000) by (nonlinear_arith)
            requires -0x8000_0000 <= y <= 0x7fff_ffff;
    }
    x * x + y * y
}

pub fn distance_squared(a: Vec2, b: Vec2) -> (r: i128)
    ensures
        r == dist_sq(a, b),
{
    let dx = a.x as i128 - b.x as i128;
    let dy = a.y as i128 - b.y as i128;
    proof {
        assert(0 <= dx * dx <= 0x1_0000_0000_0000_0000) by (nonlinear_arith)
            requires -0x1_0000_0000 <= dx <= 0x1_0000_0000;
        assert(0 <= dy * dy <= 0x1_0000_0000_0000_0000) by (nonlinear_arith)
            requires -0x1_0000_0000 <= dy <= 0x1_0000_0000;
    }
    dx * dx + dy * dy
}

/// `n / d` rounded down, for a positive `d`.
pub fn floor_div(n: i128, d: i128) -> (r: i128)
    requires
        d > 0,
        n > i128::MIN,
    ensures
        r == n / d,
{
    if n >= 0 {
        n / d
    } else {
        let m = -n;
        let q = (m - 1) / d;
        proof {
            let mi = m as int - 1;
            let di = d as int;
            lemma_fundamental_div_mod(mi, di);
            let rem = mi % di;
            assert(n as int == (-(q as int) - 1) * di + (di - rem - 1)) by (nonlinear_arith)
                requires
                    mi == di * (q as int) + rem,
                    n as int == -mi - 1,
            ;
            lemma_fundamental_div_mod_converse(n as int, di, -(q as int) - 1, di - rem - 1);
        }
        -q - 1
    }
}

/// The mix of two values lies between them.
pub proof fn lemma_mix_between(a: int, b: int, k: int, den: int)
    requires
        0 < den,
        0 <= k <= den,
    ensures
        a <= b ==> a <= mix(a, b, k, den) <= b,
        b <= a ==> b <= mix(a, b, k, den) <= a,
        k == 0 ==> mix(a, b, k, den) == a,
        k == den ==> mix(a, b, k, den) == b,
{
    let s = a * (den - k) + b * k;
    assert(s == den * a + k * (b - a)) by (nonlinear_arith)
        requires s == a * (den - k) + b * k;
    if a <= b {
        assert(den * a <= s <= den * b) by (nonlinear_arith)
            requires s == den * a + k * (b - a), a <= b, 0 <= k <= den;
    } else {
        assert(den * b <= s <= den * a) by (nonlinear_arith)
            requires s == den * a + k * (b - a), b < a, 0 <= k <= den;
    }
    lemma_div_multiples_vanish(a, den);
    lemma_div_multiples_vanish(b, den);
    if a <= b {
        lemma_div_is_ordered(den * a, s, den);
        lemma_div_is_ordered(s, den * b, den);
    } else {
        lemma_div_is_ordered(den * b, s, den);
        lemma_div_is_ordered(s, den * a, den);
    }
    if k == 0 {
        assert(s == den * a) by (nonlinear_arith)
            requires s == a * (den - k) + b * k, k == 0;
    }
    if k == den {
        assert(s == den * b) by (nonlinear_arith)
            requires s == a * (den - k) + b * k, k == den;
    }
}

/// The value at fraction `k / den` of the way from `a` to `b`, rounded down.
pub fn mix_i32(a: i32, b: i32, k: u64, den: u64) -> (r: i32)
    requires
        0 < den,
        k <= den,
    ensures
        r == mix(a as int, b as int, k as int, den as int),
{
    proof {
        lemma_mix_between(a as int, b as int, k as int, den as int);
    }
    let ai = a as i128;
    let bi = b as i128;
    let ki = k as i128;
    let di = den as i128;
    proof {
        assert(-0x8000_0000_0000_0000_0000_0000 <= ai * (di - ki) <= 0x8000_0000_0000_0000_0000_0000)
            by (nonlinear_arith)
            requires
                -0x8000_0000 <= ai <= 0x8000_0000,
                0 <= di - ki <= 0x1_0000_0000_0000_0000,
        ;
        assert(-0x8000_0000_0000_0000_0000_0000 <= bi * ki <= 0x8000_0000_0000_0000_0000_0000)
            by (nonlinear_arith)
            requires
                -0x8000_0000 <= bi <= 0x8000_0000,
                0 <= ki <= 0x1_0000_0000_0000_0000,
        ;
    }
    let r = floor_div(ai * (di - ki) + bi * ki, di);
    r as i32
}

/// The point at fraction `k / den` of the way from `a` to `b`, each coordinate
/// rounded down.
pub fn mix_vec2(a: Vec2, b: Vec2, k: u64, den: u64) -> (r: Vec2)
    requires
        0 < den,
        k <= den,
    ensures
        r.x == mix(a.x as int, b.x as int, k as int, den as int),
        r.y == mix(a.y as int, b.y as int, k as int, den as int),
{
    Vec2 { x: mix_i32(a.x, b.x, k, den), y: mix_i32(a.y, b.y, k, den) }
}

} // verus!
