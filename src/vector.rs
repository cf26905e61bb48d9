//! Lengths of integer vectors: the rounded-down square root, and bringing a vector to
//! a given length or under a maximum, rounding toward zero.
use vstd::prelude::*;
use vstd::arithmetic::div_mod::{lemma_div_is_ordered, lemma_div_multiples_vanish, lemma_div_pos_is_pos};
use crate::geometry::Vec2;

verus! {

/// Largest magnitude of a vector component that the length operations accept.
pub const VEC_LIMIT: i64 = 1_099_511_627_776;

pub open spec fn in_vec_limit(v: int) -> bool {
    -VEC_LIMIT <= v <= VEC_LIMIT
}

/// `r` is the square root of `n`, rounded down.
pub open spec fn is_floor_sqrt(n: int, r: int) -> bool {
    0 <= r && r * r <= n && n < (r + 1) * (r + 1)
}

/// The square root of a non-negative `n`, rounded down.
pub open spec fn floor_sqrt(n: int) -> int {
    choose|r: int| is_floor_sqrt(n, r)
}

/// Integer division that rounds toward zero, for a positive divisor.
pub open spec fn trunc_div(a: int, b: int) -> int {
    if a >= 0 {
        a / b
    } else {
        -((-a) / b)
    }
}

pub open spec fn length_sq(x: int, y: int) -> int {
    x * x + y * y
}

/// The length of the vector `(x, y)`, rounded down.
pub open spec fn length_of(x: int, y: int) -> int {
    floor_sqrt(length_sq(x, y))
}

/// The vector `(x, y)` brought to length `len`, each component rounded toward zero;
/// the zero vector stays zero.
pub open spec fn with_length(x: int, y: int, len: int) -> (int, int) {
    let l = length_of(x, y);
    if l == 0 {
        (0, 0)
    } else {
        (trunc_div(x * len, l), trunc_div(y * len, l))
    }
}

/// The vector `(x, y)`, brought down to length `max` when it is longer.
pub open spec fn limited(x: int, y: int, max: int) -> (int, int) {
    if length_sq(x, y) > max * max {
        with_length(x, y, max)
    } else {
        (x, y)
    }
}

proof fn lemma_floor_sqrt_unique(n: int, r1: int, r2: int)
    requires
        is_floor_sqrt(n, r1),
        is_floor_sqrt(n, r2),
    ensures
        r1 == r2,
{
    if r1 < r2 {
        assert((r1 + 1) * (r1 + 1) <= r2 * r2) by (nonlinear_arith)
            requires
                0 <= r1,
                r1 + 1 <= r2,
        ;
    } else if r2 < r1 {
        assert((r2 + 1) * (r2 + 1) <= r1 * r1) by (nonlinear_arith)
            requires
                0 <= r2,
                r2 + 1 <= r1,
        ;
    }
}

/// A witness of the rounded-down square root is the one `floor_sqrt` names.
pub proof fn lemma_floor_sqrt_is(n: int, r: int)
    requires
        is_floor_sqrt(n, r),
    ensures
        floor_sqrt(n) == r,
{
    let c = floor_sqrt(n);
    assert(is_floor_sqrt(n, c));
    lemma_floor_sqrt_unique(n, r, c);
}

/// Each component of a vector is at most its rounded-down length in magnitude, and the
/// length is zero only for the zero vector.
pub proof fn lemma_component_le_length(x: int, y: int, l: int)
    requires
        is_floor_sqrt(length_sq(x, y), l),
    ensures
        -l <= x <= l,
        -l <= y <= l,
        l == 0 <==> (x == 0 && y == 0),
{
    assert(x * x >= 0 && y * y >= 0) by (nonlinear_arith);
    assert(-l <= x <= l) by (nonlinear_arith)
        requires
            0 <= l,
            x * x <= length_sq(x, y),
            length_sq(x, y) < (l + 1) * (l + 1),
    ;
    assert(-l <= y <= l) by (nonlinear_arith)
        requires
            0 <= l,
            y * y <= length_sq(x, y),
            length_sq(x, y) < (l + 1) * (l + 1),
    ;
    if x != 0 {
        assert(x * x >= 1) by (nonlinear_arith)
            requires
                x != 0,
        ;
    }
    if y != 0 {
        assert(y * y >= 1) by (nonlinear_arith)
            requires
                y != 0,
        ;
    }
    if x == 0 && y == 0 {
        assert(l * l <= 0);
        assert(l == 0) by (nonlinear_arith)
            requires
                0 <= l,
                l * l <= 0,
        ;
    }
}

/// Dividing something no larger than `l * len` in magnitude by `l` gives at most `len`.
pub proof fn lemma_trunc_div_bound(a: int, l: int, len: int)
    requires
        0 < l,
        0 <= len,
        -(l * len) <= a <= l * len,
    ensures
        -len <= trunc_div(a, l) <= len,
{
    lemma_div_multiples_vanish(len, l);
    if a >= 0 {
        lemma_div_is_ordered(a, l * len, l);
        lemma_div_pos_is_pos(a, l);
    } else {
        lemma_div_is_ordered(-a, l * len, l);
        lemma_div_pos_is_pos(-a, l);
    }
}

/// The square root of `n`, rounded down.
pub fn isqrt(n: u128) -> (r: u128)
    requires
        n < 0x1000_0000_0000_0000_0000_0000,
    ensures
        r == floor_sqrt(n as int),
        is_floor_sqrt(n as int, r as int),
        r < 0x10_0000_0000_0000,
{
    let mut lo: u128 = 0;
    let mut hi: u128 = 0x10_0000_0000_0000;
    assert(0x10_0000_0000_0000 * 0x10_0000_0000_0000 == 0x100_0000_0000_0000_0000_0000_0000);
    while hi - lo > 1
        invariant
            lo < hi <= 0x10_0000_0000_0000,
            lo * lo <= n,
            n < hi * hi,
        decreases hi - lo,
    {
        let mid = lo + (hi - lo) / 2;
        assert(mid * mid <= hi * hi) by (nonlinear_arith)
            requires
                mid <= hi,
        ;
        assert(hi * hi <= 0x100_0000_0000_0000_0000_0000_0000) by (nonlinear_arith)
            requires
                hi <= 0x10_0000_0000_0000,
        ;
        if mid * mid <= n {
            lo = mid;
        } else {
            hi = mid;
        }
    }
    proof {
        lemma_floor_sqrt_is(n as int, lo as int);
    }
    lo
}

/// `a / b` rounded toward zero.
pub fn div_toward_zero(a: i128, b: i128) -> (r: i128)
    requires
        b > 0,
        -0x1000_0000_0000_0000_0000_0000_0000_0000 < a < 0x1000_0000_0000_0000_0000_0000_0000_0000,
    ensures
        r == trunc_div(a as int, b as int),
{
    if a >= 0 {
        ((a as u128) / (b as u128)) as i128
    } else {
        let q = ((-a) as u128) / (b as u128);
        proof {
            lemma_div_is_ordered((-a) as int, 0x1000_0000_0000_0000_0000_0000_0000_0000, b as int);
            lemma_div_pos_is_pos((-a) as int, b as int);
            assert(0x1000_0000_0000_0000_0000_0000_0000_0000int / (b as int) <= 0x1000_0000_0000_0000_0000_0000_0000_0000int) by {
                lemma_div_is_ordered_by_one(b as int);
            }
        }
        -(q as i128)
    }
}

proof fn lemma_div_is_ordered_by_one(b: int)
    requires
        b >= 1,
    ensures
        0x1000_0000_0000_0000_0000_0000_0000_0000int / b <= 0x1000_0000_0000_0000_0000_0000_0000_0000int,
{
    vstd::arithmetic::div_mod::lemma_div_is_ordered_by_denominator(
        0x1000_0000_0000_0000_0000_0000_0000_0000int,
        1,
        b,
    );
}

/// The rounded-down length of `v`.
pub fn length(v: Vec2) -> (r: i64)
    requires
        in_vec_limit(v.x as int),
        in_vec_limit(v.y as int),
    ensures
        r == length_of(v.x as int, v.y as int),
        is_floor_sqrt(length_sq(v.x as int, v.y as int), r as int),
        0 <= r,
{
    let x = v.x as i128;
    let y = v.y as i128;
    assert(x * x <= 0x100_0000_0000_0000_0000_0000) by (nonlinear_arith)
        requires
            -0x100_0000_0000 <= x <= 0x100_0000_0000,
    ;
    assert(y * y <= 0x100_0000_0000_0000_0000_0000) by (nonlinear_arith)
        requires
            -0x100_0000_0000 <= y <= 0x100_0000_0000,
    ;
    assert(x * x >= 0 && y * y >= 0) by (nonlinear_arith);
    let n = (x * x + y * y) as u128;
    let r = isqrt(n);
    r as i64
}

/// `v` brought to length `len`, as `with_length` says.
pub fn set_length(v: Vec2, len: i64) -> (r: Vec2)
    requires
        in_vec_limit(v.x as int),
        in_vec_limit(v.y as int),
        0 <= len <= VEC_LIMIT,
    ensures
        (r.x as int, r.y as int) == with_length(v.x as int, v.y as int, len as int),
        -len <= r.x <= len,
        -len <= r.y <= len,
{
    let l = length(v);
    proof {
        lemma_component_le_length(v.x as int, v.y as int, l as int);
    }
    if l == 0 {
        return Vec2 { x: 0, y: 0 };
    }
    assert(-0x1_0000_0000_0000_0000_0000 <= (v.x as int) * (len as int) <= 0x1_0000_0000_0000_0000_0000)
        by (nonlinear_arith)
        requires
            -0x100_0000_0000 <= v.x <= 0x100_0000_0000,
            0 <= len <= 0x100_0000_0000,
    ;
    assert(-0x1_0000_0000_0000_0000_0000 <= (v.y as int) * (len as int) <= 0x1_0000_0000_0000_0000_0000)
        by (nonlinear_arith)
        requires
            -0x100_0000_0000 <= v.y <= 0x100_0000_0000,
            0 <= len <= 0x100_0000_0000,
    ;
    let xl = (v.x as i128) * (len as i128);
    let yl = (v.y as i128) * (len as i128);
    proof {
        assert(-(l * len) <= xl <= l * len) by (nonlinear_arith)
            requires
                -l <= v.x <= l,
                0 <= len,
                xl == v.x * len,
        ;
        assert(-(l * len) <= yl <= l * len) by (nonlinear_arith)
            requires
                -l <= v.y <= l,
                0 <= len,
                yl == v.y * len,
        ;
        lemma_trunc_div_bound(xl as int, l as int, len as int);
        lemma_trunc_div_bound(yl as int, l as int, len as int);
    }
    let rx = div_toward_zero(xl, l as i128);
    let ry = div_toward_zero(yl, l as i128);
    Vec2 { x: rx as i64, y: ry as i64 }
}

/// `v`, brought down to length `max` when it is longer, as `limited` says.
pub fn limit_length(v: Vec2, max: i64) -> (r: Vec2)
    requires
        in_vec_limit(v.x as int),
        in_vec_limit(v.y as int),
        0 <= max <= VEC_LIMIT,
    ensures
        (r.x as int, r.y as int) == limited(v.x as int, v.y as int, max as int),
        -max <= r.x <= max,
        -max <= r.y <= max,
        length_sq(v.x as int, v.y as int) <= max * max ==> r == v,
{
    let x = v.x as i128;
    let y = v.y as i128;
    let m = max as i128;
    assert(x * x <= 0x100_0000_0000_0000_0000_0000) by (nonlinear_arith)
        requires
            -0x100_0000_0000 <= x <= 0x100_0000_0000,
    ;
    assert(y * y <= 0x100_0000_0000_0000_0000_0000) by (nonlinear_arith)
        requires
            -0x100_0000_0000 <= y <= 0x100_0000_0000,
    ;
    assert(m * m <= 0x100_0000_0000_0000_0000_0000) by (nonlinear_arith)
        requires
            0 <= m <= 0x100_0000_0000,
    ;
    assert(x * x >= 0 && y * y >= 0) by (nonlinear_arith);
    if x * x + y * y > m * m {
        set_length(v, max)
    } else {
        proof {
            lemma_short_components(x as int, y as int, m as int);
        }
        v
    }
}

/// The components of a vector no longer than `m` are at most `m` in magnitude.
pub proof fn lemma_short_components(x: int, y: int, m: int)
    requires
        0 <= m,
        length_sq(x, y) <= m * m,
    ensures
        -m <= x <= m,
        -m <= y <= m,
{
    assert(x * x >= 0 && y * y >= 0) by (nonlinear_arith);
    assert(-m <= x <= m) by (nonlinear_arith)
        requires
            0 <= m,
            x * x <= m * m,
    ;
    assert(-m <= y <= m) by (nonlinear_arith)
        requires
            0 <= m,
            y * y <= m * m,
    ;
}

} // verus!
