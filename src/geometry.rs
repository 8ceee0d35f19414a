use vstd::prelude::*;

verus! {

/// Largest magnitude of a coordinate or velocity component that the
/// simulation step accepts.
pub const COORD_LIMIT: i64 = 16_777_216;

/// A planar vector of world units.
#[derive(Clone, Copy, Debug, PartialEq, Eq, Structural)]
pub struct Vec2 {
    pub x: i64,
    pub y: i64,
}

/// A half-open range `[start, end)` of world coordinates.
#[derive(Clone, Copy, Debug, PartialEq, Eq, Structural)]
pub struct Span {
    pub start: i64,
    pub end: i64,
}

/// Division of `a` by a positive `d`, rounded toward zero.
pub open spec fn quot(a: int, d: int) -> int {
    if a >= 0 {
        a / d
    } else {
        -((-a) / d)
    }
}

/// Whether `v` lies in `s`.
pub open spec fn span_has(s: Span, v: int) -> bool {
    s.start <= v < s.end
}

/// Whether `p` lies in the rectangle `x` by `y`.
pub open spec fn rect_has(x: Span, y: Span, p: Vec2) -> bool {
    span_has(x, p.x as int) && span_has(y, p.y as int)
}

/// The number of integer points of `s`.
pub open spec fn span_width(s: Span) -> nat {
    if s.end > s.start {
        (s.end - s.start) as nat
    } else {
        0
    }
}

/// The point where a span is split in two: the lower half is
/// `[start, mid)`, the upper half `[mid, end)`.
pub open spec fn midpoint(s: Span) -> int {
    if s.end > s.start {
        s.start + (s.end - s.start) / 2
    } else {
        s.start as int
    }
}

/// Whether `v` lies within the coordinate limit.
pub open spec fn within_limit(v: int) -> bool {
    -COORD_LIMIT <= v <= COORD_LIMIT
}

/// Whether both components of `p` lie within the coordinate limit.
pub open spec fn vec_within_limit(p: Vec2) -> bool {
    within_limit(p.x as int) && within_limit(p.y as int)
}

/// Squared length of `v`.
pub open spec fn norm_sq(v: Vec2) -> int {
    v.x * v.x + v.y * v.y
}

impl Vec2 {
    pub fn new(x: i64, y: i64) -> (r: Vec2)
        ensures
            r == (Vec2 { x, y }),
    {
        Vec2 { x, y }
    }

    pub fn zeros() -> (r: Vec2)
        ensures
            r == (Vec2 { x: 0, y: 0 }),
    {
        Vec2 { x: 0, y: 0 }
    }
}

impl Span {
    pub fn new(start: i64, end: i64) -> (r: Span)
        ensures
            r == (Span { start, end }),
    {
        Span { start, end }
    }

    /// Whether `v` lies in the span.
    pub fn contains(&self, v: i64) -> (r: bool)
        ensures
            r == span_has(*self, v as int),
    {
        self.start <= v && v < self.end
    }

    /// The point where the span is split in two.
    pub fn midpoint(&self) -> (r: i64)
        ensures
            r == midpoint(*self),
            self.end > self.start ==> self.start <= r < self.end,
    {
        if self.end > self.start {
            let half: i128 = ((self.end as i128) - (self.start as i128)) / 2;
            ((self.start as i128) + half) as i64
        } else {
            self.start
        }
    }
}

/// Divides `a` by a positive `d`, rounding toward zero.
pub fn div_toward_zero(a: i64, d: i64) -> (r: i64)
    requires
        d > 0,
        a > i64::MIN,
    ensures
        r == quot(a as int, d as int),
{
    if a >= 0 {
        a / d
    } else {
        let m: i64 = -a;
        -(m / d)
    }
}

} // verus!
