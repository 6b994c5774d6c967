//! Points, directions and distances in fixed-point coordinates.

use vstd::prelude::*;

verus! {

/// Coordinate units in one degree: positions are held in ten-millionths of a degree.
pub const UNITS_PER_DEGREE: i32 = 10_000_000;

/// A position, latitude and longitude in ten-millionths of a degree.
#[derive(Clone, Copy, Debug, PartialEq, Eq, Structural)]
pub struct Point {
    pub lat: i32,
    pub lon: i32,
}

/// A direction in the coordinate plane, given by a displacement: `x` toward
/// growing longitude, `y` toward growing latitude. Its angle is measured from
/// the `x` axis, counter-clockwise; the zero displacement stands for angle 0.
#[derive(Clone, Copy, Debug, PartialEq, Eq, Structural)]
pub struct Direction {
    pub x: i64,
    pub y: i64,
}

/// A direction together with a distance in coordinate units.
#[derive(Clone, Copy, Debug, PartialEq, Eq, Structural)]
pub struct Vector {
    pub rotation: Direction,
    pub length: u64,
}

/// The square of the Euclidean distance between two points, in coordinate units.
pub open spec fn sq_dist(a: Point, b: Point) -> int {
    (a.lat - b.lat) * (a.lat - b.lat) + (a.lon - b.lon) * (a.lon - b.lon)
}

/// `r` is the integer square root of `n`, rounded down.
pub open spec fn is_isqrt(n: int, r: int) -> bool {
    0 <= r && r * r <= n && n < (r + 1) * (r + 1)
}

/// The integer square root of a non-negative `n`, rounded down.
pub open spec fn root(n: int) -> int {
    choose|r: int| is_isqrt(n, r)
}

/// Every non-negative integer has a rounded-down square root.
pub proof fn lemma_isqrt_exists(n: int)
    requires
        0 <= n,
    ensures
        is_isqrt(n, root(n)),
    decreases n,
{
    if n == 0 {
        assert(is_isqrt(0, 0));
    } else {
        lemma_isqrt_exists(n - 1);
        let r = root(n - 1);
        if (r + 1) * (r + 1) <= n {
            assert(n < (r + 2) * (r + 2)) by (nonlinear_arith)
                requires
                    n - 1 < (r + 1) * (r + 1),
                    0 <= r,
            ;
            assert(is_isqrt(n, r + 1));
        } else {
            assert(is_isqrt(n, r));
        }
    }
}

/// The rounded-down square root is unique.
pub proof fn lemma_isqrt_unique(n: int, r1: int, r2: int)
    requires
        is_isqrt(n, r1),
        is_isqrt(n, r2),
    ensures
        r1 == r2,
{
    if r1 < r2 {
        assert((r1 + 1) * (r1 + 1) <= r2 * r2) by (nonlinear_arith)
            requires
                0 <= r1 < r2,
        ;
    } else if r2 < r1 {
        assert((r2 + 1) * (r2 + 1) <= r1 * r1) by (nonlinear_arith)
            requires
                0 <= r2 < r1,
        ;
    }
}

/// The integer square root of `n`, rounded down.
pub fn isqrt(n: u128) -> (r: u64)
    ensures
        is_isqrt(n as int, r as int),
        r == root(n as int),
{
    let mut lo: u128 = 0;
    let mut hi: u128 = 0x1_0000_0000_0000_0000;
    assert(hi * hi > u128::MAX) by (nonlinear_arith)
        requires
            hi == 0x1_0000_0000_0000_0000u128,
    ;
    while hi - lo > 1
        invariant
            lo < hi <= 0x1_0000_0000_0000_0000,
            lo * lo <= n,
            n < hi * hi,
        decreases hi - lo,
    {
        let mid: u128 = lo + (hi - lo) / 2;
        assert(mid * mid < 0x1_0000_0000_0000_0000 * 0x1_0000_0000_0000_0000) by (nonlinear_arith)
            requires
                mid < 0x1_0000_0000_0000_0000u128,
        ;
        if mid * mid <= n {
            lo = mid;
        } else {
            hi = mid;
        }
    }
    assert(hi == lo + 1);
    proof {
        lemma_isqrt_unique(n as int, lo as int, root(n as int));
    }
    lo as u64
}

/// The square of the distance between two points.
pub fn squared_distance(a: &Point, b: &Point) -> (r: u128)
    ensures
        r == sq_dist(*a, *b),
{
    let dlat: i64 = a.lat as i64 - b.lat as i64;
    let dlon: i64 = a.lon as i64 - b.lon as i64;
    assert(dlat * dlat <= 0x1_0000_0000 * 0x1_0000_0000) by (nonlinear_arith)
        requires
            -0x1_0000_0000 <= dlat <= 0x1_0000_0000,
    ;
    assert(dlon * dlon <= 0x1_0000_0000 * 0x1_0000_0000) by (nonlinear_arith)
        requires
            -0x1_0000_0000 <= dlon <= 0x1_0000_0000,
    ;
    assert(dlat * dlat >= 0 && dlon * dlon >= 0) by (nonlinear_arith);
    let a2: u128 = (dlat as i128 * dlat as i128) as u128;
    let b2: u128 = (dlon as i128 * dlon as i128) as u128;
    a2 + b2
}

/// The distance between two points, rounded down.
pub fn distance(a: &Point, b: &Point) -> (r: u64)
    ensures
        is_isqrt(sq_dist(*a, *b), r as int),
        r == root(sq_dist(*a, *b)),
{
    isqrt(squared_distance(a, b))
}

/// The displacement that leads from `from` to `to`.
pub fn displacement(from: &Point, to: &Point) -> (d: Direction)
    ensures
        d.x == to.lon - from.lon,
        d.y == to.lat - from.lat,
{
    Direction { x: to.lon as i64 - from.lon as i64, y: to.lat as i64 - from.lat as i64 }
}

/// The two corners (south-west, then north-east) of the square box of half
/// side `delta` around a position.
pub fn bbox(lat: i32, lon: i32, delta: i32) -> (r: [Point; 2])
    requires
        0 <= delta,
        i32::MIN <= lat - delta && lat + delta <= i32::MAX,
        i32::MIN <= lon - delta && lon + delta <= i32::MAX,
    ensures
        r[0] == (Point { lat: (lat - delta) as i32, lon: (lon - delta) as i32 }),
        r[1] == (Point { lat: (lat + delta) as i32, lon: (lon + delta) as i32 }),
{
    [Point { lat: lat - delta, lon: lon - delta }, Point { lat: lat + delta, lon: lon + delta }]
}

impl Direction {
    /// The direction of the opposite angle: rotating by it undoes a rotation by `self`.
    pub fn inverse(&self) -> (r: Direction)
        requires
            self.y > i64::MIN,
        ensures
            r.x == self.x,
            r.y == -self.y,
    {
        Direction { x: self.x, y: -self.y }
    }
}

/// The product of two directions as complex numbers: its angle is the sum of
/// their angles.
pub open spec fn turned(d: Direction, by: Direction) -> (int, int) {
    (d.x * by.x - d.y * by.y, d.x * by.y + d.y * by.x)
}

/// A product of two `i64` values is far from the bounds of `i128`.
pub proof fn lemma_i64_product(a: i64, b: i64)
    ensures
        -0x4000_0000_0000_0000_0000_0000_0000_0000 <= a * b <= 0x4000_0000_0000_0000_0000_0000_0000_0000,
{
    assert(-0x4000_0000_0000_0000_0000_0000_0000_0000 <= a * b <= 0x4000_0000_0000_0000_0000_0000_0000_0000)
        by (nonlinear_arith)
        requires
            -0x8000_0000_0000_0000 <= a < 0x8000_0000_0000_0000,
            -0x8000_0000_0000_0000 <= b < 0x8000_0000_0000_0000,
    ;
}

impl Vector {
    pub fn new(rotation: Direction, length: u64) -> (r: Vector)
        ensures
            r.rotation == rotation,
            r.length == length,
    {
        Vector { rotation, length }
    }

    /// This vector with its angle increased by the angle of `by`; the length is kept.
    pub fn rotate(&self, by: Direction) -> (r: Vector)
        requires
            i64::MIN <= turned(self.rotation, by).0 <= i64::MAX,
            i64::MIN <= turned(self.rotation, by).1 <= i64::MAX,
        ensures
            r.rotation.x == turned(self.rotation, by).0,
            r.rotation.y == turned(self.rotation, by).1,
            r.length == self.length,
    {
        proof {
            lemma_i64_product(self.rotation.x, by.x);
            lemma_i64_product(self.rotation.y, by.y);
            lemma_i64_product(self.rotation.x, by.y);
            lemma_i64_product(self.rotation.y, by.x);
        }
        let x: i128 = self.rotation.x as i128 * by.x as i128 - self.rotation.y as i128 * by.y as i128;
        let y: i128 = self.rotation.x as i128 * by.y as i128 + self.rotation.y as i128 * by.x as i128;
        Vector { rotation: Direction { x: x as i64, y: y as i64 }, length: self.length }
    }
}

} // verus!
