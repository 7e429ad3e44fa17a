use vstd::prelude::*;

verus! {

/// Coordinates lie strictly between `-COORD_LIMIT` and `COORD_LIMIT`.
pub const COORD_LIMIT: i64 = 16777216;

/// A point on the integer grid.
#[derive(Clone, Copy, PartialEq, Eq, Debug, Structural)]
pub struct Point {
    pub x: i64,
    pub y: i64,
}

/// A displacement between two grid points.
#[derive(Clone, Copy, PartialEq, Eq, Debug, Structural)]
pub struct Vector {
    pub x: i64,
    pub y: i64,
}

/// The rational number `num / den`; `den` is positive.
#[derive(Clone, Copy, PartialEq, Eq, Debug, Structural)]
pub struct Fraction {
    pub num: i128,
    pub den: i128,
}

/// An infinite line through `o` with direction `d`. The direction is not
/// normalised, which keeps the arithmetic exact.
#[derive(Clone, Copy, PartialEq, Eq, Debug, Structural)]
pub struct Line {
    o: Point,
    d: Vector,
}

/// An axis-aligned rectangle from corner `min_p` to corner `max_p`.
#[derive(Clone, Copy, PartialEq, Eq, Debug, Structural)]
pub struct Rectangle {
    min_p: Point,
    max_p: Point,
}

pub open spec fn in_range(v: int) -> bool {
    -COORD_LIMIT < v < COORD_LIMIT
}

/// A directed segment from `from` to `to`.
#[derive(Clone, Copy, PartialEq, Eq, Debug, Structural)]
pub struct LineSegment {
    pub from: Point,
    pub to: Point,
}

impl Point {
    pub open spec fn valid(self) -> bool {
        in_range(self.x as int) && in_range(self.y as int)
    }

    pub fn new(x: i64, y: i64) -> (r: Point)
        ensures
            r.x == x,
            r.y == y,
    {
        Point { x, y }
    }
}


/// Squared euclidean distance.
pub open spec fn dist2(p: Point, q: Point) -> int {
    (p.x - q.x) * (p.x - q.x) + (p.y - q.y) * (p.y - q.y)
}

/// `(p - a) . (b - a)`.
pub open spec fn dot_along(a: Point, b: Point, p: Point) -> int {
    (p.x - a.x) * (b.x - a.x) + (p.y - a.y) * (b.y - a.y)
}

/// `(p - a) x (b - a)`: twice the signed area of the triangle `a, b, p`.
pub open spec fn cross_along(a: Point, b: Point, p: Point) -> int {
    (p.x - a.x) * (b.y - a.y) - (p.y - a.y) * (b.x - a.x)
}

/// The projection of `p` on the segment from `a` to `b`, clamped to `0..=1`, as
/// a numerator over the denominator `dist2(a, b)`.
pub open spec fn clamped_dot(a: Point, b: Point, p: Point) -> int {
    let t = dot_along(a, b, p);
    let l = dist2(a, b);
    if t <= 0 { 0 } else if t >= l { l } else { t }
}

/// The squared distance from `p` to the segment from `a` to `b`, scaled by
/// `dist2(a, b)` when the segment is not a single point.
pub open spec fn seg_dist2_scaled(a: Point, b: Point, p: Point) -> int {
    let l = dist2(a, b);
    let t = clamped_dot(a, b, p);
    if l == 0 {
        dist2(p, a)
    } else {
        dist2(p, a) * l - 2 * t * dot_along(a, b, p) + t * t
    }
}

/// `p` lies within distance `sqrt(r2)` of the segment from `a` to `b`.
pub open spec fn near_segment(a: Point, b: Point, p: Point, r2: int) -> bool {
    let l = dist2(a, b);
    if l == 0 {
        dist2(p, a) <= r2
    } else {
        seg_dist2_scaled(a, b, p) <= r2 * l
    }
}

pub proof fn lemma_dist2_symmetric(p: Point, q: Point)
    ensures
        dist2(p, q) == dist2(q, p),
        dist2(p, q) >= 0,
        dist2(p, p) == 0,
{
    assert(dist2(p, q) == dist2(q, p)) by (nonlinear_arith);
    assert(dist2(p, q) >= 0) by (nonlinear_arith);
}

pub proof fn lemma_mul_bound(a: int, b: int, ba: int, bb: int)
    requires
        -ba <= a <= ba,
        -bb <= b <= bb,
    ensures
        -(ba * bb) <= a * b <= ba * bb,
{
    assert(-(ba * bb) <= a * b <= ba * bb) by (nonlinear_arith)
        requires
            -ba <= a <= ba,
            -bb <= b <= bb,
    ;
}

/// Bounds on the quantities that the exact distance test computes.
pub proof fn lemma_pair_bounds(a: Point, b: Point)
    requires
        a.valid(),
        b.valid(),
    ensures
        0 <= dist2(a, b) < 0x8_0000_0000_0000,
{
    let k: int = 0x200_0000;
    lemma_mul_bound(a.x - b.x, a.x - b.x, k - 2, k - 2);
    lemma_mul_bound(a.y - b.y, a.y - b.y, k - 2, k - 2);
    assert((a.x - b.x) * (a.x - b.x) >= 0) by (nonlinear_arith);
    assert((a.y - b.y) * (a.y - b.y) >= 0) by (nonlinear_arith);
}

pub proof fn lemma_dot_bound(a: Point, b: Point, p: Point)
    requires
        a.valid(),
        b.valid(),
        p.valid(),
    ensures
        -0x8_0000_0000_0000 < dot_along(a, b, p) < 0x8_0000_0000_0000,
        -0x8_0000_0000_0000 < cross_along(a, b, p) < 0x8_0000_0000_0000,
{
    let k: int = 0x200_0000;
    lemma_mul_bound(p.x - a.x, b.x - a.x, k - 2, k - 2);
    lemma_mul_bound(p.y - a.y, b.y - a.y, k - 2, k - 2);
    lemma_mul_bound(p.x - a.x, b.y - a.y, k - 2, k - 2);
    lemma_mul_bound(p.y - a.y, b.x - a.x, k - 2, k - 2);
}

fn sq_dist(p: Point, q: Point) -> (r: i64)
    requires
        p.valid(),
        q.valid(),
    ensures
        r == dist2(p, q),
{
    proof {
        lemma_pair_bounds(p, q);
        let k: int = 0x200_0000;
        lemma_mul_bound(p.x - q.x, p.x - q.x, k, k);
        lemma_mul_bound(p.y - q.y, p.y - q.y, k, k);
    }
    let dx = p.x - q.x;
    let dy = p.y - q.y;
    dx * dx + dy * dy
}

fn dot_of(a: Point, b: Point, p: Point) -> (r: i64)
    requires
        a.valid(),
        b.valid(),
        p.valid(),
    ensures
        r == dot_along(a, b, p),
{
    proof {
        lemma_dot_bound(a, b, p);
        let k: int = 0x200_0000;
        lemma_mul_bound(p.x - a.x, b.x - a.x, k - 2, k - 2);
        lemma_mul_bound(p.y - a.y, b.y - a.y, k - 2, k - 2);
    }
    (p.x - a.x) * (b.x - a.x) + (p.y - a.y) * (b.y - a.y)
}

/// `(p - a) x (b - a)`.
pub fn cross_of(a: Point, b: Point, p: Point) -> (r: i64)
    requires
        a.valid(),
        b.valid(),
        p.valid(),
    ensures
        r == cross_along(a, b, p),
{
    proof {
        lemma_dot_bound(a, b, p);
        let k: int = 0x200_0000;
        lemma_mul_bound(p.x - a.x, b.y - a.y, k - 2, k - 2);
        lemma_mul_bound(p.y - a.y, b.x - a.x, k - 2, k - 2);
    }
    (p.x - a.x) * (b.y - a.y) - (p.y - a.y) * (b.x - a.x)
}

/// `u` and `v` have strictly opposite signs.
pub open spec fn opposite_signs(u: int, v: int) -> bool {
    (u > 0 && v < 0) || (u < 0 && v > 0)
}

/// The segments cross at a single point inside both of them: each one has
/// the endpoints of the other strictly on opposite sides of its line.
pub open spec fn properly_cross(e1: LineSegment, e2: LineSegment) -> bool {
    &&& opposite_signs(cross_along(e1.from, e1.to, e2.from), cross_along(e1.from, e1.to, e2.to))
    &&& opposite_signs(cross_along(e2.from, e2.to, e1.from), cross_along(e2.from, e2.to, e1.to))
}

/// Exact test of `properly_cross(e1, e2)`.
pub fn segments_cross(e1: LineSegment, e2: LineSegment) -> (r: bool)
    requires
        e1.from.valid(),
        e1.to.valid(),
        e2.from.valid(),
        e2.to.valid(),
    ensures
        r == properly_cross(e1, e2),
{
    let a = cross_of(e1.from, e1.to, e2.from);
    let b = cross_of(e1.from, e1.to, e2.to);
    let c = cross_of(e2.from, e2.to, e1.from);
    let d = cross_of(e2.from, e2.to, e1.to);
    ((a > 0 && b < 0) || (a < 0 && b > 0)) && ((c > 0 && d < 0) || (c < 0 && d > 0))
}

/// The numerator of the clamped projection of `p` on the segment from `a` to `b`.
pub fn clamped_dot_of(a: Point, b: Point, p: Point) -> (r: i64)
    requires
        a.valid(),
        b.valid(),
        p.valid(),
    ensures
        r == clamped_dot(a, b, p),
{
    let l = sq_dist(a, b);
    let t = dot_of(a, b, p);
    if t <= 0 {
        0
    } else if t >= l {
        l
    } else {
        t
    }
}

/// Exact test of `near_segment(a, b, p, r2)`.
pub fn is_near_segment(a: Point, b: Point, p: Point, r2: i64) -> (r: bool)
    requires
        a.valid(),
        b.valid(),
        p.valid(),
        0 <= r2 < 0x4_0000_0000_0000,
    ensures
        r == near_segment(a, b, p, r2 as int),
{
    let l = sq_dist(a, b);
    let d = sq_dist(p, a);
    if l == 0 {
        return d <= r2;
    }
    let t = dot_of(a, b, p);
    let c: i64 = if t <= 0 { 0 } else if t >= l { l } else { t };
    proof {
        lemma_pair_bounds(a, b);
        lemma_pair_bounds(p, a);
        lemma_dot_bound(a, b, p);
        let m: int = 0x8_0000_0000_0000;
        lemma_mul_bound(d as int, l as int, m, m);
        lemma_mul_bound(c as int, t as int, m, m);
        lemma_mul_bound(c as int, c as int, m, m);
        lemma_mul_bound(r2 as int, l as int, m, m);
    }
    let ct: i128 = (c as i128) * (t as i128);
    let lhs: i128 = (d as i128) * (l as i128) - ct - ct + (c as i128) * (c as i128);
    proof {
        assert(2 * (c as int) * (t as int) == ct + ct) by (nonlinear_arith)
            requires
                ct == (c as int) * (t as int),
        ;
        assert(clamped_dot(a, b, p) == c);
    }
    lhs <= (r2 as i128) * (l as i128)
}


fn sq_dist_wide(p: Point, q: Point) -> (r: i128)
    requires
        p.valid(),
        q.valid(),
    ensures
        r == dist2(p, q),
{
    sq_dist(p, q) as i128
}

impl Line {
    pub closed spec fn origin_spec(self) -> Point {
        self.o
    }

    pub closed spec fn dir_spec(self) -> Vector {
        self.d
    }

    /// The point `origin + direction`.
    pub open spec fn tip(self) -> Point {
        Point {
            x: (self.origin_spec().x + self.dir_spec().x) as i64,
            y: (self.origin_spec().y + self.dir_spec().y) as i64,
        }
    }

    /// The origin and `origin + direction` are valid points, distinct.
    pub open spec fn valid(self) -> bool {
        &&& self.origin_spec().valid()
        &&& in_range(self.origin_spec().x + self.dir_spec().x)
        &&& in_range(self.origin_spec().y + self.dir_spec().y)
        &&& (self.dir_spec().x != 0 || self.dir_spec().y != 0)
    }

    /// The line through `origin` with direction `direction`.
    pub fn new(origin: Point, direction: Vector) -> (r: Line)
        ensures
            r.origin_spec() == origin,
            r.dir_spec() == direction,
    {
        Line { o: origin, d: direction }
    }

    /// The line through `p1` and then `p2`.
    pub fn from_two_points(p1: Point, p2: Point) -> (r: Line)
        requires
            p1 != p2,
            p1.valid(),
            p2.valid(),
        ensures
            r.valid(),
            r.origin_spec() == p1,
            r.dir_spec() == (Vector { x: (p2.x - p1.x) as i64, y: (p2.y - p1.y) as i64 }),
            r.tip() == p2,
    {
        Line { o: p1, d: Vector { x: p2.x - p1.x, y: p2.y - p1.y } }
    }

    pub fn origin(&self) -> (r: Point)
        ensures
            r == self.origin_spec(),
    {
        self.o
    }

    pub fn dir(&self) -> (r: Vector)
        ensures
            r == self.dir_spec(),
    {
        self.d
    }

    /// The point `origin + t * direction`.
    pub fn point_at(&self, t: i64) -> (r: Point)
        requires
            i64::MIN <= self.origin_spec().x + self.dir_spec().x * t <= i64::MAX,
            i64::MIN <= self.origin_spec().y + self.dir_spec().y * t <= i64::MAX,
            i64::MIN <= self.dir_spec().x * t <= i64::MAX,
            i64::MIN <= self.dir_spec().y * t <= i64::MAX,
        ensures
            r.x == self.origin_spec().x + self.dir_spec().x * t,
            r.y == self.origin_spec().y + self.dir_spec().y * t,
    {
        Point { x: self.o.x + self.d.x * t, y: self.o.y + self.d.y * t }
    }

    /// The parameter `t` of the point `origin + t * direction` closest to
    /// `point`, not clamped.
    pub fn project(&self, point: &Point) -> (r: Fraction)
        requires
            self.valid(),
            point.valid(),
        ensures
            r.num == dot_along(self.origin_spec(), self.tip(), *point),
            r.den == dist2(self.origin_spec(), self.tip()),
            r.den > 0,
    {
        let tip = Point { x: self.o.x + self.d.x, y: self.o.y + self.d.y };
        proof {
            lemma_dist2_positive(self.o, tip);
        }
        Fraction { num: dot_of(self.o, tip, *point) as i128, den: sq_dist_wide(self.o, tip) }
    }

    /// The squared distance from `point` to the line.
    pub fn point_distance_squared(&self, point: &Point) -> (r: Fraction)
        requires
            self.valid(),
            point.valid(),
        ensures
            r.num == cross_along(self.origin_spec(), self.tip(), *point) * cross_along(
                self.origin_spec(),
                self.tip(),
                *point,
            ),
            r.den == dist2(self.origin_spec(), self.tip()),
            r.den > 0,
    {
        let tip = Point { x: self.o.x + self.d.x, y: self.o.y + self.d.y };
        proof {
            lemma_dist2_positive(self.o, tip);
            lemma_dot_bound(self.o, tip, *point);
            let m: int = 0x8_0000_0000_0000;
            let c = cross_along(self.o, tip, *point);
            lemma_mul_bound(c, c, m, m);
        }
        let c = cross_of(self.o, tip, *point) as i128;
        Fraction { num: c * c, den: sq_dist_wide(self.o, tip) }
    }
}

pub proof fn lemma_dist2_positive(p: Point, q: Point)
    requires
        p != q,
    ensures
        dist2(p, q) > 0,
{
    assert(dist2(p, q) > 0) by (nonlinear_arith)
        requires
            p.x != q.x || p.y != q.y,
    ;
}

impl LineSegment {
    /// The segment from `from` to `to`.
    pub fn new(from: Point, to: Point) -> (r: LineSegment)
        ensures
            r.from == from,
            r.to == to,
    {
        LineSegment { from, to }
    }

    /// The endpoints, `from` first.
    pub fn points(&self) -> (r: [Point; 2])
        ensures
            r@ == seq![self.from, self.to],
    {
        let r = [self.from, self.to];
        assert(r@ =~= seq![self.from, self.to]);
        r
    }

    /// The line that the segment lies on, with its origin at `from`.
    pub fn line(&self) -> (r: Line)
        requires
            self.from != self.to,
            self.from.valid(),
            self.to.valid(),
        ensures
            r.valid(),
            r.origin_spec() == self.from,
            r.tip() == self.to,
    {
        Line::from_two_points(self.from, self.to)
    }

    /// The parameter of the point of the segment closest to `point`: the
    /// projection on its line, clamped to `0..=1`.
    pub fn project(&self, point: &Point) -> (r: Fraction)
        requires
            self.from != self.to,
            self.from.valid(),
            self.to.valid(),
            point.valid(),
        ensures
            r.num == clamped_dot(self.from, self.to, *point),
            r.den == dist2(self.from, self.to),
            r.den > 0,
    {
        proof {
            lemma_dist2_positive(self.from, self.to);
        }
        Fraction {
            num: clamped_dot_of(self.from, self.to, *point) as i128,
            den: sq_dist_wide(self.from, self.to),
        }
    }

    /// The point of the segment closest to `point`, as exact rational
    /// coordinates `(x, y)`.
    pub fn closest_point(&self, point: &Point) -> (r: (Fraction, Fraction))
        requires
            self.from != self.to,
            self.from.valid(),
            self.to.valid(),
            point.valid(),
        ensures
            r.0.den == dist2(self.from, self.to),
            r.1.den == dist2(self.from, self.to),
            r.0.num == self.from.x * dist2(self.from, self.to) + (self.to.x - self.from.x)
                * clamped_dot(self.from, self.to, *point),
            r.1.num == self.from.y * dist2(self.from, self.to) + (self.to.y - self.from.y)
                * clamped_dot(self.from, self.to, *point),
            r.0.den > 0,
    {
        let l = sq_dist(self.from, self.to);
        let c = clamped_dot_of(self.from, self.to, *point);
        proof {
            lemma_dist2_positive(self.from, self.to);
            lemma_pair_bounds(self.from, self.to);
            lemma_dot_bound(self.from, self.to, *point);
            let m: int = 0x8_0000_0000_0000;
            let k: int = 0x200_0000;
            lemma_mul_bound(self.from.x as int, l as int, k, m);
            lemma_mul_bound(self.from.y as int, l as int, k, m);
            lemma_mul_bound(self.to.x - self.from.x, c as int, k, m);
            lemma_mul_bound(self.to.y - self.from.y, c as int, k, m);
        }
        let x = (self.from.x as i128) * (l as i128) + ((self.to.x - self.from.x) as i128) * (
        c as i128);
        let y = (self.from.y as i128) * (l as i128) + ((self.to.y - self.from.y) as i128) * (
        c as i128);
        (Fraction { num: x, den: l as i128 }, Fraction { num: y, den: l as i128 })
    }

    /// The squared distance from `point` to the segment.
    pub fn point_distance_squared(&self, point: &Point) -> (r: Fraction)
        requires
            self.from.valid(),
            self.to.valid(),
            point.valid(),
        ensures
            r.num == seg_dist2_scaled(self.from, self.to, *point),
            r.den == if dist2(self.from, self.to) == 0 {
                1
            } else {
                dist2(self.from, self.to)
            },
            r.den > 0,
    {
        let a = self.from;
        let b = self.to;
        let p = *point;
        let l = sq_dist(a, b);
        let d = sq_dist(p, a);
        proof {
            lemma_dist2_symmetric(a, b);
        }
        if l == 0 {
            return Fraction { num: d as i128, den: 1 };
        }
        let t = dot_of(a, b, p);
        let c = clamped_dot_of(a, b, p);
        proof {
            lemma_pair_bounds(a, b);
            lemma_pair_bounds(p, a);
            lemma_dot_bound(a, b, p);
            let m: int = 0x8_0000_0000_0000;
            lemma_mul_bound(d as int, l as int, m, m);
            lemma_mul_bound(c as int, t as int, m, m);
            lemma_mul_bound(c as int, c as int, m, m);
        }
        let ct: i128 = (c as i128) * (t as i128);
        let num: i128 = (d as i128) * (l as i128) - ct - ct + (c as i128) * (c as i128);
        proof {
            assert(2 * (c as int) * (t as int) == ct + ct) by (nonlinear_arith)
                requires
                    ct == (c as int) * (t as int),
            ;
        }
        Fraction { num, den: l as i128 }
    }

    /// Whether `point` lies within distance `sqrt(r2)` of the segment.
    pub fn is_within(&self, point: &Point, r2: i64) -> (r: bool)
        requires
            self.from.valid(),
            self.to.valid(),
            point.valid(),
            0 <= r2 < 0x4_0000_0000_0000,
        ensures
            r == near_segment(self.from, self.to, *point, r2 as int),
    {
        is_near_segment(self.from, self.to, *point, r2)
    }
}

pub open spec fn min_i(a: i64, b: i64) -> i64 {
    if a <= b { a } else { b }
}

pub open spec fn max_i(a: i64, b: i64) -> i64 {
    if a <= b { b } else { a }
}

/// `v` clamped to `lo..=hi`.
pub open spec fn clamp_i(v: i64, lo: i64, hi: i64) -> i64 {
    if v < lo { lo } else if v > hi { hi } else { v }
}

impl Rectangle {
    pub closed spec fn min_spec(self) -> Point {
        self.min_p
    }

    pub closed spec fn max_spec(self) -> Point {
        self.max_p
    }

    /// The corners are valid and in order.
    pub open spec fn valid(self) -> bool {
        &&& self.min_spec().valid()
        &&& self.max_spec().valid()
        &&& self.min_spec().x <= self.max_spec().x
        &&& self.min_spec().y <= self.max_spec().y
    }

    /// The smallest rectangle that holds `p1` and `p2`.
    pub fn from_points(p1: Point, p2: Point) -> (r: Rectangle)
        ensures
            r.min_spec() == (Point { x: min_i(p1.x, p2.x), y: min_i(p1.y, p2.y) }),
            r.max_spec() == (Point { x: max_i(p1.x, p2.x), y: max_i(p1.y, p2.y) }),
            p1.valid() && p2.valid() ==> r.valid(),
    {
        let min_x = if p1.x <= p2.x { p1.x } else { p2.x };
        let max_x = if p1.x <= p2.x { p2.x } else { p1.x };
        let min_y = if p1.y <= p2.y { p1.y } else { p2.y };
        let max_y = if p1.y <= p2.y { p2.y } else { p1.y };
        Rectangle { min_p: Point { x: min_x, y: min_y }, max_p: Point { x: max_x, y: max_y } }
    }

    pub fn min_x(&self) -> (r: i64)
        ensures
            r == self.min_spec().x,
    {
        self.min_p.x
    }

    pub fn max_x(&self) -> (r: i64)
        ensures
            r == self.max_spec().x,
    {
        self.max_p.x
    }

    pub fn min_y(&self) -> (r: i64)
        ensures
            r == self.min_spec().y,
    {
        self.min_p.y
    }

    pub fn max_y(&self) -> (r: i64)
        ensures
            r == self.max_spec().y,
    {
        self.max_p.y
    }

    /// The four corners: lower left, upper left, lower right, upper right.
    pub fn corners(&self) -> (r: [Point; 4])
        ensures
            r@ == seq![
                self.min_spec(),
                Point { x: self.min_spec().x, y: self.max_spec().y },
                Point { x: self.max_spec().x, y: self.min_spec().y },
                self.max_spec(),
            ],
    {
        let r = [
            self.min_p,
            Point::new(self.min_x(), self.max_y()),
            Point::new(self.max_x(), self.min_y()),
            self.max_p,
        ];
        assert(r@ =~= seq![
            self.min_spec(),
            Point { x: self.min_spec().x, y: self.max_spec().y },
            Point { x: self.max_spec().x, y: self.min_spec().y },
            self.max_spec(),
        ]);
        r
    }

    /// Whether `point` lies in the rectangle, its border included.
    pub fn contains_point(&self, point: &Point) -> (r: bool)
        ensures
            r == (self.min_spec().x <= point.x <= self.max_spec().x && self.min_spec().y <= point.y
                <= self.max_spec().y),
    {
        self.min_p.x <= point.x && point.x <= self.max_p.x && self.min_p.y <= point.y && point.y
            <= self.max_p.y
    }

    /// The point of the rectangle closest to `point`.
    pub fn closest_point(&self, point: &Point) -> (r: Point)
        requires
            self.valid(),
        ensures
            r.x == clamp_i(point.x, self.min_spec().x, self.max_spec().x),
            r.y == clamp_i(point.y, self.min_spec().y, self.max_spec().y),
    {
        let x = if point.x < self.min_p.x {
            self.min_p.x
        } else if point.x > self.max_p.x {
            self.max_p.x
        } else {
            point.x
        };
        let y = if point.y < self.min_p.y {
            self.min_p.y
        } else if point.y > self.max_p.y {
            self.max_p.y
        } else {
            point.y
        };
        Point { x, y }
    }

    /// The squared distance from `point` to the rectangle: zero inside it.
    pub fn point_distance_squared(&self, point: &Point) -> (r: i64)
        requires
            self.valid(),
            point.valid(),
        ensures
            r == dist2(
                *point,
                Point {
                    x: clamp_i(point.x, self.min_spec().x, self.max_spec().x),
                    y: clamp_i(point.y, self.min_spec().y, self.max_spec().y),
                },
            ),
            r == 0 <==> (self.min_spec().x <= point.x <= self.max_spec().x && self.min_spec().y
                <= point.y <= self.max_spec().y),
    {
        let c = self.closest_point(point);
        proof {
            lemma_dist2_symmetric(*point, c);
            assert(dist2(*point, c) == 0 ==> point.x == c.x && point.y == c.y) by (nonlinear_arith);
        }
        if self.contains_point(point) {
            0
        } else {
            sq_dist(*point, c)
        }
    }
}


proof fn lemma_lagrange(wx: int, wy: int, dx: int, dy: int)
    ensures
        (wx * wx + wy * wy) * (dx * dx + dy * dy) - (wx * dx + wy * dy) * (wx * dx + wy * dy) == (wx
            * dy - wy * dx) * (wx * dy - wy * dx),
{
    let a = wx * dx;
    let b = wy * dy;
    let c = wx * dy;
    let d = wy * dx;
    let p = wx * wx;
    let q = wy * wy;
    let u = dx * dx;
    let v = dy * dy;
    assert((p + q) * (u + v) == p * u + p * v + q * u + q * v) by (nonlinear_arith);
    assert(p * u == a * a) by (nonlinear_arith)
        requires
            p == wx * wx,
            u == dx * dx,
            a == wx * dx,
    ;
    assert(p * v == c * c) by (nonlinear_arith)
        requires
            p == wx * wx,
            v == dy * dy,
            c == wx * dy,
    ;
    assert(q * u == d * d) by (nonlinear_arith)
        requires
            q == wy * wy,
            u == dx * dx,
            d == wy * dx,
    ;
    assert(q * v == b * b) by (nonlinear_arith)
        requires
            q == wy * wy,
            v == dy * dy,
            b == wy * dy,
    ;
    assert(a * b == c * d) by (nonlinear_arith)
        requires
            a == wx * dx,
            b == wy * dy,
            c == wx * dy,
            d == wy * dx,
    ;
    assert((a + b) * (a + b) == a * a + 2 * (a * b) + b * b) by (nonlinear_arith);
    assert((c - d) * (c - d) == c * c - 2 * (c * d) + d * d) by (nonlinear_arith);
}

proof fn lemma_square_le(x: int, r: int)
    requires
        r >= 0,
        x * x <= r * r,
    ensures
        -r <= x <= r,
{
    if x > r {
        assert(x * x > r * r) by (nonlinear_arith)
            requires
                x > r,
                r >= 0,
        ;
    }
    if x < -r {
        assert(x * x > r * r) by (nonlinear_arith)
            requires
                x < -r,
                r >= 0,
        ;
    }
}

/// The `x` half of `lemma_near_segment_in_box`.
proof fn lemma_near_segment_in_x_range(a: Point, b: Point, q: Point, r: int)
    requires
        r >= 0,
        near_segment(a, b, q, r * r),
    ensures
        min_i(a.x, b.x) - r <= q.x <= max_i(a.x, b.x) + r,
{
    let dx: int = b.x - a.x;
    let dy: int = b.y - a.y;
    let wx: int = q.x - a.x;
    let wy: int = q.y - a.y;
    let l = dist2(a, b);
    let t = dot_along(a, b, q);
    let d = dist2(q, a);
    assert(l == dx * dx + dy * dy) by (nonlinear_arith)
        requires
            l == (a.x - b.x) * (a.x - b.x) + (a.y - b.y) * (a.y - b.y),
            dx == b.x - a.x,
            dy == b.y - a.y,
    ;
    assert(t == wx * dx + wy * dy);
    assert(d == wx * wx + wy * wy);
    assert(dx * dx >= 0 && dy * dy >= 0 && wx * wx >= 0 && wy * wy >= 0) by (nonlinear_arith);
    let r2 = r * r;
    assert(r2 >= 0) by (nonlinear_arith)
        requires
            r2 == r * r,
    ;
    if l == 0 {
        assert(dx == 0) by (nonlinear_arith)
            requires
                dx * dx + dy * dy == 0,
                dy * dy >= 0,
        ;
        assert(wx * wx <= r * r);
        lemma_square_le(wx, r);
    } else if t <= 0 {
        assert(2 * 0 * t + 0 * 0 == 0) by (nonlinear_arith);
        assert(d * l <= r2 * l);
        assert(d <= r2) by (nonlinear_arith)
            requires
                d * l <= r2 * l,
                l > 0,
        ;
        lemma_square_le(wx, r);
    } else if t >= l {
        let e: int = q.x - b.x;
        let f: int = q.y - b.y;
        assert(d * l - 2 * l * t + l * l <= r2 * l);
        assert(d * l - 2 * l * t + l * l == l * (d - 2 * t + l)) by (nonlinear_arith);
        assert(d - 2 * t + l <= r2) by (nonlinear_arith)
            requires
                l * (d - 2 * t + l) <= r2 * l,
                l > 0,
        ;
        assert(d - 2 * t + l == e * e + f * f) by (nonlinear_arith)
            requires
                e == wx - dx,
                f == wy - dy,
                d == wx * wx + wy * wy,
                t == wx * dx + wy * dy,
                l == dx * dx + dy * dy,
        ;
        assert(f * f >= 0) by (nonlinear_arith);
        lemma_square_le(e, r);
    } else {
        let cr: int = wx * dy - wy * dx;
        assert(d * l - 2 * t * t + t * t <= r2 * l);
        assert(2 * t * t == t * t + t * t) by (nonlinear_arith);
        lemma_lagrange(wx, wy, dx, dy);
        assert(d * l - t * t == cr * cr);
        let g: int = l * wx - dx * t;
        assert(g == dy * cr) by (nonlinear_arith)
            requires
                g == l * wx - dx * t,
                cr == wx * dy - wy * dx,
                t == wx * dx + wy * dy,
                l == dx * dx + dy * dy,
        ;
        assert(g * g <= (r * l) * (r * l)) by (nonlinear_arith)
            requires
                g == dy * cr,
                cr * cr <= r2 * l,
                r2 == r * r,
                dy * dy <= l,
                l > 0,
                r2 >= 0,
        ;
        assert(r * l >= 0) by (nonlinear_arith)
            requires
                r >= 0,
                l > 0,
        ;
        lemma_square_le(g, r * l);
        let hi: int = if dx >= 0 { dx } else { 0 };
        let lo: int = if dx >= 0 { 0 } else { dx };
        assert(dx * t <= hi * l && dx * t >= lo * l) by (nonlinear_arith)
            requires
                0 < t < l,
                hi == (if dx >= 0 { dx } else { 0 }),
                lo == (if dx >= 0 { 0 } else { dx }),
        ;
        assert(wx <= hi + r) by (nonlinear_arith)
            requires
                l * wx - dx * t <= r * l,
                dx * t <= hi * l,
                l > 0,
        ;
        assert(wx >= lo - r) by (nonlinear_arith)
            requires
                -(r * l) <= l * wx - dx * t,
                dx * t >= lo * l,
                l > 0,
        ;
    }
}

/// A point within distance `r` of a segment lies in the segment's bounding
/// box grown by `r` on every side.
pub proof fn lemma_near_segment_in_box(a: Point, b: Point, q: Point, r: int)
    requires
        r >= 0,
        near_segment(a, b, q, r * r),
    ensures
        min_i(a.x, b.x) - r <= q.x <= max_i(a.x, b.x) + r,
        min_i(a.y, b.y) - r <= q.y <= max_i(a.y, b.y) + r,
{
    lemma_near_segment_in_x_range(a, b, q, r);
    let sa = Point { x: a.y, y: a.x };
    let sb = Point { x: b.y, y: b.x };
    let sq = Point { x: q.y, y: q.x };
    assert(near_segment(sa, sb, sq, r * r));
    lemma_near_segment_in_x_range(sa, sb, sq, r);
}

} // verus!
