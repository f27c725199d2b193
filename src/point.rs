use vstd::prelude::*;

verus! {

/// Largest magnitude of a vertex coordinate in a polygon's own frame.
pub const VERTEX_LIMIT: i64 = 1099511627776;

/// Largest number of vertices of a polygon.
pub const MAX_VERTICES: usize = 32768;

/// Largest magnitude of a polygon offset coordinate.
pub const OFFSET_LIMIT: i64 = 17592186044416;

/// A point (or displacement vector) on the integer grid.
#[derive(Clone, Copy, Debug, PartialEq, Eq, Structural)]
pub struct Point2D {
    pub x: i64,
    pub y: i64,
}

/// Both coordinates lie in `[-bound, bound]`.
pub open spec fn within(p: Point2D, bound: int) -> bool {
    -bound <= p.x <= bound && -bound <= p.y <= bound
}

pub open spec fn dot_spec(p: Point2D, q: Point2D) -> int {
    p.x * q.x + p.y * q.y
}

/// The z component of the cross product `p x q`.
pub open spec fn cross_spec(p: Point2D, q: Point2D) -> int {
    p.x * q.y - p.y * q.x
}

pub open spec fn add_spec(p: Point2D, q: Point2D) -> Point2D {
    Point2D { x: (p.x + q.x) as i64, y: (p.y + q.y) as i64 }
}

pub open spec fn sub_spec(p: Point2D, q: Point2D) -> Point2D {
    Point2D { x: (p.x - q.x) as i64, y: (p.y - q.y) as i64 }
}

/// The sum of `p` and `q` is representable.
pub open spec fn add_fits(p: Point2D, q: Point2D) -> bool {
    i64::MIN <= p.x + q.x <= i64::MAX && i64::MIN <= p.y + q.y <= i64::MAX
}

/// The difference `p - q` is representable.
pub open spec fn sub_fits(p: Point2D, q: Point2D) -> bool {
    i64::MIN <= p.x - q.x <= i64::MAX && i64::MIN <= p.y - q.y <= i64::MAX
}

/// `p` lies on the closed segment from `s` to `e`.
pub open spec fn on_segment_spec(p: Point2D, s: Point2D, e: Point2D) -> bool {
    cross_spec(sub_spec(e, s), sub_spec(p, s)) == 0
        && (if s.x <= e.x { s.x <= p.x <= e.x } else { e.x <= p.x <= s.x })
        && (if s.y <= e.y { s.y <= p.y <= e.y } else { e.y <= p.y <= s.y })
}

/// The largest integer whose square does not exceed `n`.
pub open spec fn is_isqrt(n: int, r: int) -> bool {
    0 <= r && r * r <= n < (r + 1) * (r + 1)
}

/// A directed edge of a polygon.
#[derive(Clone, Copy, Debug, PartialEq, Eq, Structural)]
pub struct Segment {
    pub start: Point2D,
    pub end: Point2D,
}

impl Segment {
    pub fn new(start: Point2D, end: Point2D) -> (r: Segment)
        ensures
            r.start == start,
            r.end == end,
    {
        Segment { start, end }
    }

    pub fn start(&self) -> (r: Point2D)
        ensures
            r == self.start,
    {
        self.start
    }

    pub fn end(&self) -> (r: Point2D)
        ensures
            r == self.end,
    {
        self.end
    }
}

impl Point2D {
    pub fn x(&self) -> (r: i64)
        ensures
            r == self.x,
    {
        self.x
    }

    pub fn y(&self) -> (r: i64)
        ensures
            r == self.y,
    {
        self.y
    }

    pub fn from_xy(x: i64, y: i64) -> (r: Point2D)
        ensures
            r.x == x,
            r.y == y,
    {
        Point2D { x, y }
    }

    pub fn set_x(&mut self, x: i64)
        ensures
            final(self).x == x,
            final(self).y == old(self).y,
    {
        self.x = x;
    }

    pub fn set_y(&mut self, y: i64)
        ensures
            final(self).x == old(self).x,
            final(self).y == y,
    {
        self.y = y;
    }

    pub fn add(self, other: Point2D) -> (r: Point2D)
        requires
            add_fits(self, other),
        ensures
            r.x == self.x + other.x,
            r.y == self.y + other.y,
    {
        Point2D { x: self.x + other.x, y: self.y + other.y }
    }

    pub fn sub(self, other: Point2D) -> (r: Point2D)
        requires
            sub_fits(self, other),
        ensures
            r.x == self.x - other.x,
            r.y == self.y - other.y,
    {
        Point2D { x: self.x - other.x, y: self.y - other.y }
    }

    pub fn neg(self) -> (r: Point2D)
        requires
            self.x != i64::MIN,
            self.y != i64::MIN,
        ensures
            r.x == -self.x,
            r.y == -self.y,
    {
        Point2D { x: -self.x, y: -self.y }
    }

    pub fn zero() -> (r: Point2D)
        ensures
            r.x == 0,
            r.y == 0,
    {
        Point2D { x: 0, y: 0 }
    }

    pub fn is_zero(&self) -> (r: bool)
        ensures
            r == (self.x == 0 && self.y == 0),
    {
        self.x == 0 && self.y == 0
    }

    /// Dot product, exact for coordinates below `2^62` in magnitude.
    pub fn dot(&self, other: &Point2D) -> (r: i128)
        requires
            within(*self, 0x4000_0000_0000_0000),
            within(*other, 0x4000_0000_0000_0000),
        ensures
            r == dot_spec(*self, *other),
    {
        proof {
            lemma_product_bound(self.x as int, other.x as int);
            lemma_product_bound(self.y as int, other.y as int);
        }
        let a = self.x as i128 * other.x as i128;
        let b = self.y as i128 * other.y as i128;
        a + b
    }

    /// The z component of `self x other`, exact for coordinates below `2^62` in magnitude.
    pub fn cross(&self, other: &Point2D) -> (r: i128)
        requires
            within(*self, 0x4000_0000_0000_0000),
            within(*other, 0x4000_0000_0000_0000),
        ensures
            r == cross_spec(*self, *other),
    {
        proof {
            lemma_product_bound(self.x as int, other.y as int);
            lemma_product_bound(self.y as int, other.x as int);
        }
        let a = self.x as i128 * other.y as i128;
        let b = self.y as i128 * other.x as i128;
        a - b
    }

    /// Whether the point lies on the closed segment `s`.
    pub fn on_segment(&self, s: &Segment) -> (r: bool)
        requires
            within(*self, VERTEX_LIMIT + OFFSET_LIMIT),
            within(s.start, VERTEX_LIMIT + OFFSET_LIMIT),
            within(s.end, VERTEX_LIMIT + OFFSET_LIMIT),
        ensures
            r == on_segment_spec(*self, s.start, s.end),
    {
        let e = s.end.sub(s.start);
        let p = self.sub(s.start);
        if e.cross(&p) != 0 {
            return false;
        }
        let in_x = if s.start.x <= s.end.x {
            s.start.x <= self.x && self.x <= s.end.x
        } else {
            s.end.x <= self.x && self.x <= s.start.x
        };
        let in_y = if s.start.y <= s.end.y {
            s.start.y <= self.y && self.y <= s.end.y
        } else {
            s.end.y <= self.y && self.y <= s.start.y
        };
        in_x && in_y
    }
}

proof fn lemma_product_bound(a: int, b: int)
    requires
        -0x4000_0000_0000_0000 <= a <= 0x4000_0000_0000_0000,
        -0x4000_0000_0000_0000 <= b <= 0x4000_0000_0000_0000,
    ensures
        -0x1000_0000_0000_0000_0000_0000_0000_0000 <= a * b <= 0x1000_0000_0000_0000_0000_0000_0000_0000,
{
    assert(-0x1000_0000_0000_0000_0000_0000_0000_0000 <= a * b <= 0x1000_0000_0000_0000_0000_0000_0000_0000) by (nonlinear_arith)
        requires
            -0x4000_0000_0000_0000 <= a <= 0x4000_0000_0000_0000,
            -0x4000_0000_0000_0000 <= b <= 0x4000_0000_0000_0000,
    ;
}

/// Floor of the square root of `n`, by bisection.
pub fn isqrt(n: u128) -> (r: u64)
    ensures
        is_isqrt(n as int, r as int),
{
    let mut lo: u128 = 0;
    let mut hi: u128 = 0x1_0000_0000_0000_0000;
    assert(0x1_0000_0000_0000_0000 * 0x1_0000_0000_0000_0000 > u128::MAX);
    while hi - lo > 1
        invariant
            lo < hi <= 0x1_0000_0000_0000_0000,
            lo * lo <= n,
            n < hi * hi,
        decreases hi - lo,
    {
        let mid = lo + (hi - lo) / 2;
        assert(lo < mid < hi);
        assert(mid * mid <= 0x1_0000_0000_0000_0000 * 0x1_0000_0000_0000_0000 - 1) by (nonlinear_arith)
            requires
                mid < 0x1_0000_0000_0000_0000,
        ;
        if mid * mid <= n {
            lo = mid;
        } else {
            hi = mid;
        }
    }
    assert(hi == lo + 1);
    lo as u64
}

} // verus!
