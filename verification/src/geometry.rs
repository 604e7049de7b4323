//! Geometry primitives: integer points, line segments, colors and the
//! major/minor axis pairing that the rasterizers are built on.

use vstd::prelude::*;

verus! {

/// Largest coordinate magnitude the rasterizers accept.
///
/// All drawing entry points require their endpoints to lie within this range
/// so that every intermediate product (squared lengths, thickness thresholds)
/// provably fits in an `i64`.
pub const COORD_LIMIT: i64 = 8192;

/// Largest coordinate magnitude the point operations that multiply
/// coordinates (dot product, determinant, squared length) accept without
/// risking `i64` overflow.
pub const PRODUCT_LIMIT: i64 = 0x4000_0000;

/// An integer point or vector in the plane.
#[derive(Clone, Copy, Debug, PartialEq, Eq, Structural)]
pub struct Point {
    pub x: i64,
    pub y: i64,
}

/// True when both coordinates of `p` lie within [`COORD_LIMIT`].
pub open spec fn point_in_range(p: Point) -> bool {
    &&& -COORD_LIMIT <= p.x <= COORD_LIMIT
    &&& -COORD_LIMIT <= p.y <= COORD_LIMIT
}

/// True when both coordinates of `p` lie within [`PRODUCT_LIMIT`].
pub open spec fn point_in_product_range(p: Point) -> bool {
    &&& -PRODUCT_LIMIT <= p.x <= PRODUCT_LIMIT
    &&& -PRODUCT_LIMIT <= p.y <= PRODUCT_LIMIT
}

impl Point {
    pub fn new(x: i64, y: i64) -> (r: Point)
        ensures
            r == (Point { x, y }),
    {
        Point { x, y }
    }

    /// Component-wise sum.
    pub fn add(self, other: Point) -> (r: Point)
        requires
            i64::MIN <= self.x + other.x <= i64::MAX,
            i64::MIN <= self.y + other.y <= i64::MAX,
        ensures
            r.x == self.x + other.x,
            r.y == self.y + other.y,
    {
        Point { x: self.x + other.x, y: self.y + other.y }
    }

    /// Component-wise difference.
    pub fn sub(self, other: Point) -> (r: Point)
        requires
            i64::MIN <= self.x - other.x <= i64::MAX,
            i64::MIN <= self.y - other.y <= i64::MAX,
        ensures
            r.x == self.x - other.x,
            r.y == self.y - other.y,
    {
        Point { x: self.x - other.x, y: self.y - other.y }
    }

    /// Component-wise scaling by an integer factor.
    pub fn scale(self, factor: i64) -> (r: Point)
        requires
            point_in_product_range(self),
            -PRODUCT_LIMIT <= factor <= PRODUCT_LIMIT,
        ensures
            r.x == self.x * factor,
            r.y == self.y * factor,
    {
        proof {
            lemma_product_bound(self.x as int, factor as int, PRODUCT_LIMIT as int);
            lemma_product_bound(self.y as int, factor as int, PRODUCT_LIMIT as int);
        }
        Point { x: self.x * factor, y: self.y * factor }
    }

    /// Dot product of two vectors.
    pub fn dot_product(self, other: Point) -> (r: i64)
        requires
            point_in_product_range(self),
            point_in_product_range(other),
        ensures
            r == self.x * other.x + self.y * other.y,
    {
        proof {
            lemma_product_bound(self.x as int, other.x as int, PRODUCT_LIMIT as int);
            lemma_product_bound(self.y as int, other.y as int, PRODUCT_LIMIT as int);
        }
        self.x * other.x + self.y * other.y
    }

    /// Determinant of the 2x2 matrix whose rows are `self` and `other`
    /// (the 2D cross product).
    pub fn determinant(self, other: Point) -> (r: i64)
        requires
            point_in_product_range(self),
            point_in_product_range(other),
        ensures
            r == self.x * other.y - self.y * other.x,
    {
        proof {
            lemma_product_bound(self.x as int, other.y as int, PRODUCT_LIMIT as int);
            lemma_product_bound(self.y as int, other.x as int, PRODUCT_LIMIT as int);
        }
        self.x * other.y - self.y * other.x
    }

    /// Squared length of the vector from the origin to `self`.
    pub fn length_squared(self) -> (r: i64)
        requires
            point_in_product_range(self),
        ensures
            r == self.x * self.x + self.y * self.y,
            r >= 0,
    {
        proof {
            lemma_product_bound(self.x as int, self.x as int, PRODUCT_LIMIT as int);
            lemma_product_bound(self.y as int, self.y as int, PRODUCT_LIMIT as int);
            lemma_square_nonneg(self.x as int);
            lemma_square_nonneg(self.y as int);
        }
        self.x * self.x + self.y * self.y
    }

    /// The vector with both components negated.
    pub fn neg(self) -> (r: Point)
        requires
            i64::MIN < self.x,
            i64::MIN < self.y,
        ensures
            r.x == -self.x,
            r.y == -self.y,
    {
        Point { x: -self.x, y: -self.y }
    }

    /// The vector rotated by 90 degrees about the origin.
    pub fn rotate_90(self) -> (r: Point)
        requires
            i64::MIN < self.x,
        ensures
            r.x == self.y,
            r.y == -self.x,
    {
        Point { x: self.y, y: -self.x }
    }
}

/// `|a * b| <= limit * limit` whenever both factors are bounded by `limit`.
proof fn lemma_product_bound(a: int, b: int, limit: int)
    requires
        0 <= limit,
        -limit <= a <= limit,
        -limit <= b <= limit,
    ensures
        -limit * limit <= a * b <= limit * limit,
{
    assert(-limit * limit <= a * b <= limit * limit) by (nonlinear_arith)
        requires
            0 <= limit,
            -limit <= a <= limit,
            -limit <= b <= limit,
    ;
}

/// A square is never negative.
proof fn lemma_square_nonneg(a: int)
    ensures
        a * a >= 0,
{
    assert(a * a >= 0) by (nonlinear_arith);
}

/// A line segment: the ordered pair of its endpoints.
#[derive(Clone, Copy, Debug, PartialEq, Eq, Structural)]
pub struct Line {
    pub start: Point,
    pub end: Point,
}

impl Line {
    pub fn new(start: Point, end: Point) -> (r: Line)
        ensures
            r == (Line { start, end }),
    {
        Line { start, end }
    }

    /// The vector from start to end.
    pub fn delta(self) -> (r: Point)
        requires
            i64::MIN <= self.end.x - self.start.x <= i64::MAX,
            i64::MIN <= self.end.y - self.start.y <= i64::MAX,
        ensures
            r.x == self.end.x - self.start.x,
            r.y == self.end.y - self.start.y,
    {
        self.end.sub(self.start)
    }

    /// A segment of the same length rotated 90 degrees about `start`,
    /// used to derive the normal direction of the stroke.
    pub fn perpendicular(self) -> (r: Line)
        requires
            point_in_range(self.start),
            point_in_range(self.end),
        ensures
            r.start == self.start,
            r.end.x == self.start.x + (self.end.y - self.start.y),
            r.end.y == self.start.y - (self.end.x - self.start.x),
    {
        let d = self.delta();
        Line { start: self.start, end: self.start.add(d.rotate_90()) }
    }
}

/// Which side of a directed line a point falls on: stand on `start` looking
/// towards `end`; `Left` is to your left, `Right` to your right.
#[derive(Clone, Copy, Debug, PartialEq, Eq, Structural)]
pub enum LineSide {
    Left,
    Right,
}

/// A pairing of a value for the major axis (the one with the larger
/// absolute delta) with a value for the minor axis.
///
/// Constructed once per line; `|major delta| >= |minor delta|` holds by
/// construction, which is what guarantees one major step per iteration of
/// the steppers and therefore a gap-free line.
#[derive(Clone, Copy, Debug)]
pub struct MajorMinor<T> {
    pub major: T,
    pub minor: T,
}

impl<T> MajorMinor<T> {
    pub fn new(major: T, minor: T) -> (r: MajorMinor<T>)
        ensures
            r.major == major,
            r.minor == minor,
    {
        MajorMinor { major, minor }
    }
}

/// An RGB color with 8 bits per channel.
#[derive(Clone, Copy, Debug, PartialEq, Eq, Structural)]
pub struct Color {
    pub r: u8,
    pub g: u8,
    pub b: u8,
}

/// A color at a brightness out of 255, channel by channel with
/// truncating division; the specification of [`Color::scaled`].
pub open spec fn scaled_color(c: Color, brightness: int) -> Color {
    Color {
        r: (c.r * brightness / 255) as u8,
        g: (c.g * brightness / 255) as u8,
        b: (c.b * brightness / 255) as u8,
    }
}

impl Color {
    pub fn new(r: u8, g: u8, b: u8) -> (c: Color)
        ensures
            c == (Color { r, g, b }),
    {
        Color { r, g, b }
    }

    /// The color scaled to a brightness out of 255, channel by channel with
    /// truncating division; brightness 255 returns the color unchanged.
    pub fn scaled(self, brightness: i64) -> (c: Color)
        requires
            0 <= brightness <= 255,
        ensures
            c.r == self.r * brightness / 255,
            c.g == self.g * brightness / 255,
            c.b == self.b * brightness / 255,
            c == scaled_color(self, brightness as int),
    {
        proof {
            lemma_scaled_channel(self.r as int, brightness as int);
            lemma_scaled_channel(self.g as int, brightness as int);
            lemma_scaled_channel(self.b as int, brightness as int);
        }
        let r = self.r as i64 * brightness / 255;
        let g = self.g as i64 * brightness / 255;
        let b = self.b as i64 * brightness / 255;
        Color { r: r as u8, g: g as u8, b: b as u8 }
    }
}

/// A scaled channel value stays in the 8-bit range.
proof fn lemma_scaled_channel(channel: int, brightness: int)
    requires
        0 <= channel <= 255,
        0 <= brightness <= 255,
    ensures
        0 <= channel * brightness <= 255 * 255,
        0 <= channel * brightness / 255 <= 255,
{
    assert(channel * brightness <= 255 * 255) by (nonlinear_arith)
        requires
            0 <= channel <= 255,
            0 <= brightness <= 255,
    ;
    assert(channel * brightness >= 0) by (nonlinear_arith)
        requires
            0 <= channel,
            0 <= brightness,
    ;
}

/// One pixel write: set the pixel at `point` to `color`.
#[derive(Clone, Copy, Debug, PartialEq, Eq, Structural)]
pub struct PixelWrite {
    pub point: Point,
    pub color: Color,
}

/// The points of `pts` turned into writes of the single color `c`.
pub open spec fn pixel_seq(pts: Seq<Point>, c: Color) -> Seq<PixelWrite> {
    pts.map(|i: int, p: Point| (PixelWrite { point: p, color: c }))
}

/// Whether the write sequence `s` sets the pixel at `p` to `c` somewhere.
pub open spec fn writes_contain(s: Seq<PixelWrite>, p: Point, c: Color) -> bool {
    exists|k: int| 0 <= k < s.len() && s[k] == (PixelWrite { point: p, color: c })
}

/// A write stays in the sequence when the sequence is only extended at
/// the end.
pub proof fn lemma_writes_contain_stable(s1: Seq<PixelWrite>, s2: Seq<PixelWrite>, p: Point, c: Color)
    requires
        writes_contain(s1, p, c),
        s1.len() <= s2.len(),
        forall|k: int| 0 <= k < s1.len() ==> s2[k] == s1[k],
    ensures
        writes_contain(s2, p, c),
{
    let k = choose|k: int| 0 <= k < s1.len() && s1[k] == (PixelWrite { point: p, color: c });
    assert(s2[k] == (PixelWrite { point: p, color: c }));
}

/// A write found past index `n` is also found when skipping only to
/// the earlier index `m`.
pub proof fn lemma_writes_contain_skip(s: Seq<PixelWrite>, m: int, n: int, p: Point, c: Color)
    requires
        0 <= m <= n <= s.len(),
        writes_contain(s.skip(n), p, c),
    ensures
        writes_contain(s.skip(m), p, c),
{
    let k = choose|k: int|
        0 <= k < s.skip(n).len() && s.skip(n)[k] == (PixelWrite { point: p, color: c });
    assert(s.skip(m)[k + n - m] == (PixelWrite { point: p, color: c }));
}

} // verus!
