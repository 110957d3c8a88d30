use vstd::prelude::*;

verus! {

/// Largest magnitude of a stored coordinate, velocity or acceleration
/// component. Products of such values stay well inside `i128`.
pub const COORD_LIMIT: i64 = 524288;

pub open spec fn in_limit(v: int) -> bool {
    -COORD_LIMIT <= v <= COORD_LIMIT
}

/// A 2D vector of integer world units.
#[derive(Clone, Copy, Debug, PartialEq, Eq, Structural)]
pub struct Vec2 {
    pub x: i64,
    pub y: i64,
}

impl Vec2 {
    pub open spec fn in_range(self) -> bool {
        in_limit(self.x as int) && in_limit(self.y as int)
    }

    /// A vector whose components are each at most twice the limit,
    /// such as the difference of two points in range.
    pub open spec fn in_double_range(self) -> bool {
        -2 * COORD_LIMIT <= self.x <= 2 * COORD_LIMIT && -2 * COORD_LIMIT <= self.y <= 2
            * COORD_LIMIT
    }

    pub open spec fn is_zero(self) -> bool {
        self.x == 0 && self.y == 0
    }

    pub fn new(x: i64, y: i64) -> (r: Vec2)
        ensures
            r.x == x,
            r.y == y,
    {
        Vec2 { x, y }
    }
}

pub open spec fn dot(a: Vec2, b: Vec2) -> int {
    a.x * b.x + a.y * b.y
}

pub open spec fn norm_sq(a: Vec2) -> int {
    dot(a, a)
}

/// `a` turned a quarter turn: `(-a.y, a.x)`.
pub open spec fn perp(a: Vec2) -> Vec2 {
    Vec2 { x: -a.y as i64, y: a.x }
}

pub open spec fn vadd(a: Vec2, b: Vec2) -> Vec2 {
    Vec2 { x: (a.x + b.x) as i64, y: (a.y + b.y) as i64 }
}

pub open spec fn vsub(a: Vec2, b: Vec2) -> Vec2 {
    Vec2 { x: (a.x - b.x) as i64, y: (a.y - b.y) as i64 }
}

pub open spec fn vneg(a: Vec2) -> Vec2 {
    Vec2 { x: -a.x as i64, y: -a.y as i64 }
}

pub open spec fn sum_in_range(a: Vec2, b: Vec2) -> bool {
    in_limit(a.x + b.x) && in_limit(a.y + b.y)
}

/// Integer division rounded toward zero, for a positive divisor.
pub open spec fn div_toward_zero(a: int, d: int) -> int
    recommends
        d > 0,
{
    if a >= 0 {
        a / d
    } else {
        -((-a) / d)
    }
}

pub proof fn lemma_mul_bound(a: int, b: int, la: int, lb: int)
    requires
        -la <= a <= la,
        -lb <= b <= lb,
    ensures
        -(la * lb) <= a * b <= la * lb,
{
    assert(-(la * lb) <= a * b <= la * lb) by (nonlinear_arith)
        requires
            -la <= a <= la,
            -lb <= b <= lb,
    ;
}

pub proof fn lemma_dot_bound(a: Vec2, b: Vec2)
    requires
        a.in_double_range(),
        b.in_range(),
    ensures
        -1099511627776 <= a.x * b.x <= 1099511627776,
        -1099511627776 <= a.y * b.y <= 1099511627776,
        -2199023255552 <= dot(a, b) <= 2199023255552,
{
    lemma_mul_bound(a.x as int, b.x as int, 1048576, 524288);
    lemma_mul_bound(a.y as int, b.y as int, 1048576, 524288);
}

/// Dot product of an edge-sized vector with a point in range.
pub fn dot_exec(a: Vec2, b: Vec2) -> (r: i64)
    requires
        a.in_double_range(),
        b.in_range(),
    ensures
        r == dot(a, b),
        -2199023255552 <= r <= 2199023255552,
{
    proof {
        lemma_dot_bound(a, b);
    }
    a.x * b.x + a.y * b.y
}

pub proof fn lemma_dot_double_bound(a: Vec2, b: Vec2)
    requires
        a.in_double_range(),
        b.in_double_range(),
    ensures
        -2199023255552 <= a.x * b.x <= 2199023255552,
        -2199023255552 <= a.y * b.y <= 2199023255552,
        -4398046511104 <= dot(a, b) <= 4398046511104,
{
    lemma_mul_bound(a.x as int, b.x as int, 1048576, 1048576);
    lemma_mul_bound(a.y as int, b.y as int, 1048576, 1048576);
}

/// Dot product of two edge-sized vectors.
pub fn dot_double(a: Vec2, b: Vec2) -> (r: i64)
    requires
        a.in_double_range(),
        b.in_double_range(),
    ensures
        r == dot(a, b),
{
    proof {
        lemma_dot_double_bound(a, b);
    }
    a.x * b.x + a.y * b.y
}

/// `v` limited to `[-COORD_LIMIT, COORD_LIMIT]`.
pub open spec fn saturate(v: int) -> int {
    if v < -COORD_LIMIT {
        -COORD_LIMIT as int
    } else if v > COORD_LIMIT {
        COORD_LIMIT as int
    } else {
        v
    }
}

pub fn saturate_exec(v: i128) -> (r: i64)
    ensures
        r == saturate(v as int),
        in_limit(r as int),
{
    if v < -(COORD_LIMIT as i128) {
        -COORD_LIMIT
    } else if v > COORD_LIMIT as i128 {
        COORD_LIMIT
    } else {
        v as i64
    }
}

/// Integer division rounded toward zero.
pub fn div_toward_zero_exec(a: i128, d: i128) -> (r: i128)
    requires
        d > 0,
        a > i128::MIN,
    ensures
        r == div_toward_zero(a as int, d as int),
{
    if a >= 0 {
        a / d
    } else {
        -((-a) / d)
    }
}

/// `b - a` for two points in range.
pub fn sub_exec(a: Vec2, b: Vec2) -> (r: Vec2)
    requires
        a.in_range(),
        b.in_range(),
    ensures
        r == vsub(a, b),
        r.in_double_range(),
{
    Vec2 { x: a.x - b.x, y: a.y - b.y }
}

} // verus!
