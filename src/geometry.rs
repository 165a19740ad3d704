//! Points and axis-aligned boxes in fixed-point coordinates.
use vstd::prelude::*;
use crate::fixed::{COORD_MAX, SCALE, div_floor};

verus! {

/// A position, in thousandths of a pixel; `y` grows downwards.
#[derive(Debug, Clone, Copy, PartialEq, Eq, Structural)]
pub struct Point {
    pub x: i64,
    pub y: i64,
}

/// A closed axis-aligned rectangle: `x <= px <= x + width`, `y <= py <= y + height`.
#[derive(Debug, Clone, Copy, PartialEq, Eq, Structural)]
pub struct BoundingBox {
    pub x: i64,
    pub y: i64,
    pub width: i64,
    pub height: i64,
}

impl BoundingBox {
    /// A non-negative size, and the whole box inside the coordinate range.
    pub open spec fn wf(self) -> bool {
        &&& 0 <= self.width
        &&& 0 <= self.height
        &&& -COORD_MAX <= self.x
        &&& self.x + self.width <= COORD_MAX
        &&& -COORD_MAX <= self.y
        &&& self.y + self.height <= COORD_MAX
    }

    pub open spec fn spec_contains(self, p: Point) -> bool {
        &&& self.x <= p.x <= self.x + self.width
        &&& self.y <= p.y <= self.y + self.height
    }

    pub open spec fn spec_strictly_contains(self, p: Point) -> bool {
        &&& self.x < p.x < self.x + self.width
        &&& self.y < p.y < self.y + self.height
    }

    pub open spec fn spec_intersects(self, o: BoundingBox) -> bool {
        &&& self.x <= o.x + o.width
        &&& o.x <= self.x + self.width
        &&& self.y <= o.y + o.height
        &&& o.y <= self.y + self.height
    }

    pub open spec fn mid_x(self) -> int {
        self.x + self.width / 2
    }

    pub open spec fn mid_y(self) -> int {
        self.y + self.height / 2
    }

    /// Quadrant `i` of the box, split at its midpoint: 0 is the upper left,
    /// 1 the lower left, 2 the upper right and 3 the lower right.
    pub open spec fn spec_quadrant(self, i: int) -> BoundingBox {
        let hw = self.width / 2;
        let hh = self.height / 2;
        if i == 0 {
            BoundingBox { x: self.x, y: self.y, width: hw as i64, height: hh as i64 }
        } else if i == 1 {
            BoundingBox {
                x: self.x,
                y: (self.y + hh) as i64,
                width: hw as i64,
                height: (self.height - hh) as i64,
            }
        } else if i == 2 {
            BoundingBox {
                x: (self.x + hw) as i64,
                y: self.y,
                width: (self.width - hw) as i64,
                height: hh as i64,
            }
        } else {
            BoundingBox {
                x: (self.x + hw) as i64,
                y: (self.y + hh) as i64,
                width: (self.width - hw) as i64,
                height: (self.height - hh) as i64,
            }
        }
    }

    /// Index of the quadrant a point is routed to: left when `x <= mid_x`,
    /// upper when `y <= mid_y`.
    pub open spec fn spec_quadrant_index(self, p: Point) -> int {
        if p.x <= self.mid_x() {
            if p.y <= self.mid_y() {
                0
            } else {
                1
            }
        } else {
            if p.y <= self.mid_y() {
                2
            } else {
                3
            }
        }
    }

    pub fn new(x: i64, y: i64, width: i64, height: i64) -> (r: BoundingBox)
        ensures
            r == (BoundingBox { x, y, width, height }),
    {
        BoundingBox { x, y, width, height }
    }

    /// Whether `p` lies in the box, edges included.
    pub fn contains(&self, p: Point) -> (r: bool)
        requires
            self.wf(),
        ensures
            r == self.spec_contains(p),
    {
        self.x <= p.x && p.x <= self.x + self.width && self.y <= p.y && p.y <= self.y
            + self.height
    }

    /// Whether `p` lies in the interior of the box.
    pub fn strictly_contains(&self, p: Point) -> (r: bool)
        requires
            self.wf(),
        ensures
            r == self.spec_strictly_contains(p),
    {
        self.x < p.x && p.x < self.x + self.width && self.y < p.y && p.y < self.y + self.height
    }

    /// Whether the two closed boxes share at least one point.
    pub fn intersects(&self, o: &BoundingBox) -> (r: bool)
        requires
            self.wf(),
            o.wf(),
        ensures
            r == self.spec_intersects(*o),
    {
        self.x <= o.x + o.width && o.x <= self.x + self.width && self.y <= o.y + o.height && o.y
            <= self.y + self.height
    }

    pub fn quadrant(&self, i: usize) -> (r: BoundingBox)
        requires
            self.wf(),
            i < 4,
        ensures
            r == self.spec_quadrant(i as int),
            r.wf(),
    {
        let hw = self.width / 2;
        let hh = self.height / 2;
        if i == 0 {
            BoundingBox { x: self.x, y: self.y, width: hw, height: hh }
        } else if i == 1 {
            BoundingBox { x: self.x, y: self.y + hh, width: hw, height: self.height - hh }
        } else if i == 2 {
            BoundingBox { x: self.x + hw, y: self.y, width: self.width - hw, height: hh }
        } else {
            BoundingBox {
                x: self.x + hw,
                y: self.y + hh,
                width: self.width - hw,
                height: self.height - hh,
            }
        }
    }

    pub fn get_quadrant(&self, p: Point) -> (r: usize)
        requires
            self.wf(),
        ensures
            r == self.spec_quadrant_index(p),
            r < 4,
    {
        let mid_x = self.x + self.width / 2;
        let mid_y = self.y + self.height / 2;
        if p.x <= mid_x {
            if p.y <= mid_y {
                0
            } else {
                1
            }
        } else {
            if p.y <= mid_y {
                2
            } else {
                3
            }
        }
    }
}

/// Each quadrant lies inside its box, and a point of the box lies in the
/// quadrant it is routed to; so the four quadrants cover the box.
pub proof fn lemma_quadrant_routing(b: BoundingBox, p: Point)
    requires
        b.wf(),
    ensures
        forall|i: int| 0 <= i < 4 ==> (#[trigger] b.spec_quadrant(i)).wf(),
        forall|i: int, q: Point|
            0 <= i < 4 && #[trigger] b.spec_quadrant(i).spec_contains(q) ==> b.spec_contains(q),
        b.spec_contains(p) ==> b.spec_quadrant(b.spec_quadrant_index(p)).spec_contains(p),
        b.spec_contains(p) <==> exists|i: int|
            0 <= i < 4 && (#[trigger] b.spec_quadrant(i)).spec_contains(p),
{
    if b.spec_contains(p) {
        assert(b.spec_quadrant(b.spec_quadrant_index(p)).spec_contains(p));
    }
}

/// `r` is the square root of `v` rounded down.
pub open spec fn is_floor_sqrt(r: int, v: int) -> bool {
    &&& 0 <= r
    &&& r * r <= v
    &&& v < (r + 1) * (r + 1)
}

/// The square root of `v` rounded down.
pub open spec fn floor_sqrt(v: int) -> int {
    choose|r: int| is_floor_sqrt(r, v)
}

/// A rounded-down square root is unique.
proof fn lemma_floor_sqrt_unique(a: int, b: int, v: int)
    requires
        is_floor_sqrt(a, v),
        is_floor_sqrt(b, v),
    ensures
        a == b,
{
    if a < b {
        assert((a + 1) * (a + 1) <= b * b) by (nonlinear_arith)
            requires
                0 <= a < b,
        ;
    } else if b < a {
        assert((b + 1) * (b + 1) <= a * a) by (nonlinear_arith)
            requires
                0 <= b < a,
        ;
    }
}

/// The square root of `v`, rounded down.
pub fn isqrt(v: u128) -> (r: u64)
    ensures
        is_floor_sqrt(r as int, v as int),
        r == floor_sqrt(v as int),
{
    let mut lo: u128 = 0;
    let mut hi: u128 = 0x1_0000_0000_0000_0000;
    assert(hi * hi > v) by (nonlinear_arith)
        requires
            hi == 0x1_0000_0000_0000_0000u128,
            v <= 0xffff_ffff_ffff_ffff_ffff_ffff_ffff_ffffu128,
    ;
    while hi - lo > 1
        invariant
            lo < hi <= 0x1_0000_0000_0000_0000,
            lo * lo <= v,
            v < hi * hi,
        decreases hi - lo,
    {
        let mid = lo + (hi - lo) / 2;
        assert(mid * mid <= 0xffff_ffff_ffff_fffe_0000_0000_0000_0001) by (nonlinear_arith)
            requires
                mid < 0x1_0000_0000_0000_0000,
        ;
        if mid * mid <= v {
            lo = mid;
        } else {
            hi = mid;
        }
    }
    assert(hi == lo + 1);
    proof {
        assert(is_floor_sqrt(lo as int, v as int));
        lemma_floor_sqrt_unique(lo as int, floor_sqrt(v as int), v as int);
    }
    lo as u64
}

/// The squared length of `(dx, dy)`.
pub open spec fn norm2(dx: int, dy: int) -> int {
    dx * dx + dy * dy
}

impl Point {
    /// Both coordinates lie within the coordinate range.
    pub open spec fn in_range(self) -> bool {
        &&& -COORD_MAX <= self.x <= COORD_MAX
        &&& -COORD_MAX <= self.y <= COORD_MAX
    }

    pub fn new(x: i64, y: i64) -> (r: Point)
        ensures
            r == (Point { x, y }),
    {
        Point { x, y }
    }

    /// Distance to `other`, rounded down.
    pub fn distance(&self, other: Point) -> (r: u64)
        requires
            self.in_range(),
            other.in_range(),
        ensures
            r == floor_sqrt(norm2(self.x - other.x, self.y - other.y)),
    {
        let dx = (self.x - other.x) as i128;
        let dy = (self.y - other.y) as i128;
        isqrt(square_sum(dx, dy))
    }

    /// Distance from the origin, rounded down.
    pub fn magnitude(&self) -> (r: u64)
        requires
            self.in_range(),
        ensures
            r == floor_sqrt(norm2(self.x as int, self.y as int)),
            is_floor_sqrt(r as int, norm2(self.x as int, self.y as int)),
    {
        isqrt(square_sum(self.x as i128, self.y as i128))
    }

    /// The vector scaled to length one (in thousandths, rounded down); the
    /// zero vector stays as it is.
    pub fn normalize(&self) -> (r: Point)
        requires
            self.in_range(),
        ensures
            ({
                let m = floor_sqrt(norm2(self.x as int, self.y as int));
                if m == 0 {
                    r == *self
                } else {
                    r == (Point { x: ((self.x * SCALE) / m) as i64, y: ((self.y * SCALE) / m) as i64 })
                }
            }),
    {
        let m = self.magnitude();
        if m == 0 {
            return *self;
        }
        proof {
            assert(m as int * m as int <= 2 * COORD_MAX * COORD_MAX) by (nonlinear_arith)
                requires
                    m as int * m as int <= self.x * self.x + self.y * self.y,
                    -COORD_MAX <= self.x <= COORD_MAX,
                    -COORD_MAX <= self.y <= COORD_MAX,
            ;
            assert(m <= 2 * COORD_MAX) by (nonlinear_arith)
                requires
                    m as int * m as int <= 2 * COORD_MAX * COORD_MAX,
                    m >= 0,
            ;
        }
        let mi = m as i64;
        Point { x: div_floor(self.x * SCALE, mi), y: div_floor(self.y * SCALE, mi) }
    }

    /// Distance from the point to the segment from `line.0` to `line.1`
    /// (to its nearest point: the foot of the perpendicular when that falls
    /// within the segment, else the nearer end), rounded down.
    pub fn point_line_distance(&self, line: (Point, Point)) -> (r: u64)
        requires
            self.in_segment_range(),
            line.0.in_segment_range(),
            line.1.in_segment_range(),
        ensures
            r == segment_distance(*self, line.0, line.1),
    {
        let (a, b) = line;
        let ex = (self.x - a.x) as i128;
        let ey = (self.y - a.y) as i128;
        let dx = (b.x - a.x) as i128;
        let dy = (b.y - a.y) as i128;
        proof {
            lemma_product_bound(ex as int, dx as int);
            lemma_product_bound(ey as int, dy as int);
            lemma_product_bound(dx as int, dx as int);
            lemma_product_bound(dy as int, dy as int);
            lemma_product_bound(ex as int, ex as int);
            lemma_product_bound(ey as int, ey as int);
            lemma_product_bound(dx as int, ey as int);
            lemma_product_bound(dy as int, ex as int);
            assert(dx * dx >= 0 && dy * dy >= 0 && ex * ex >= 0 && ey * ey >= 0) by (nonlinear_arith);
        }
        let l = dx * dx + dy * dy;
        let t = ex * dx + ey * dy;
        if l == 0 || t <= 0 {
            isqrt((ex * ex + ey * ey) as u128)
        } else if t >= l {
            let fx = (self.x - b.x) as i128;
            let fy = (self.y - b.y) as i128;
            proof {
                lemma_product_bound(fx as int, fx as int);
                lemma_product_bound(fy as int, fy as int);
                assert(fx * fx >= 0 && fy * fy >= 0) by (nonlinear_arith);
            }
            isqrt((fx * fx + fy * fy) as u128)
        } else {
            let c = dx * ey - dy * ex;
            let m: i128 = 0x8000_0000_0000_0000;
            assert(-m <= c <= m);
            let ac: u128 = (if c < 0 { -c } else { c }) as u128;
            assert(ac * ac <= 0x4000_0000_0000_0000_0000_0000_0000_0000u128) by (nonlinear_arith)
                requires
                    ac <= 0x8000_0000_0000_0000u128,
            ;
            assert((ac * ac) as int == c * c) by (nonlinear_arith)
                requires
                    ac as int == c || ac as int == -c,
            ;
            isqrt(ac * ac / (l as u128))
        }
    }
}

/// Largest coordinate magnitude for segment distances, which square
/// products of coordinate differences in 128 bits.
pub const SEGMENT_COORD_MAX: i64 = 0x4000_0000;

impl Point {
    pub open spec fn in_segment_range(self) -> bool {
        &&& -SEGMENT_COORD_MAX <= self.x <= SEGMENT_COORD_MAX
        &&& -SEGMENT_COORD_MAX <= self.y <= SEGMENT_COORD_MAX
    }
}

proof fn lemma_product_bound(a: int, b: int)
    requires
        -2 * SEGMENT_COORD_MAX <= a <= 2 * SEGMENT_COORD_MAX,
        -2 * SEGMENT_COORD_MAX <= b <= 2 * SEGMENT_COORD_MAX,
    ensures
        -0x4000_0000_0000_0000 <= a * b <= 0x4000_0000_0000_0000,
{
    assert(-0x4000_0000_0000_0000 <= a * b <= 0x4000_0000_0000_0000) by (nonlinear_arith)
        requires
            -0x8000_0000 <= a <= 0x8000_0000,
            -0x8000_0000 <= b <= 0x8000_0000,
    ;
}

/// Distance from `p` to the segment from `a` to `b`, rounded down: with
/// `t` the projection of `p - a` on `b - a` (scaled by its squared length
/// `l`), the distance to `a` when `t <= 0`, to `b` when `t >= l`, and
/// otherwise the perpendicular distance `|cross| / sqrt(l)`.
pub open spec fn segment_distance(p: Point, a: Point, b: Point) -> int {
    let ex = p.x - a.x;
    let ey = p.y - a.y;
    let dx = b.x - a.x;
    let dy = b.y - a.y;
    let l = norm2(dx, dy);
    let t = ex * dx + ey * dy;
    if l == 0 || t <= 0 {
        floor_sqrt(norm2(ex, ey))
    } else if t >= l {
        floor_sqrt(norm2(p.x - b.x, p.y - b.y))
    } else {
        let c = dx * ey - dy * ex;
        floor_sqrt((c * c) / l)
    }
}

proof fn bounded_products(a: int, b: int)
    requires
        -2 * COORD_MAX <= a <= 2 * COORD_MAX,
        -2 * COORD_MAX <= b <= 2 * COORD_MAX,
    ensures
        -4 * COORD_MAX * COORD_MAX <= a * b <= 4 * COORD_MAX * COORD_MAX,
{
    assert(-4 * COORD_MAX * COORD_MAX <= a * b <= 4 * COORD_MAX * COORD_MAX) by (nonlinear_arith)
        requires
            -2 * COORD_MAX <= a <= 2 * COORD_MAX,
            -2 * COORD_MAX <= b <= 2 * COORD_MAX,
    ;
}

fn square_sum(dx: i128, dy: i128) -> (r: u128)
    requires
        -2 * COORD_MAX <= dx <= 2 * COORD_MAX,
        -2 * COORD_MAX <= dy <= 2 * COORD_MAX,
    ensures
        r == norm2(dx as int, dy as int),
{
    proof {
        bounded_products(dx as int, dx as int);
        bounded_products(dy as int, dy as int);
        assert(dx * dx >= 0 && dy * dy >= 0) by (nonlinear_arith);
    }
    ((dx * dx) + (dy * dy)) as u128
}

} // verus!
