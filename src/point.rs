use vstd::prelude::*;

verus! {

/// Largest coordinate magnitude for which a squared distance fits in `u128`.
pub const COORD_LIMIT: i64 = 0x4000_0000_0000_0000;

/// A point of 3-D integer space; its identity is its index in the point set.
#[derive(Clone, Copy, Debug, PartialEq, Eq, Structural)]
pub struct Point {
    pub x: i64,
    pub y: i64,
    pub z: i64,
}

pub open spec fn coord_in_range(c: i64) -> bool {
    -COORD_LIMIT <= c <= COORD_LIMIT
}

impl Point {
    /// Every coordinate is small enough for squared distances to be exact.
    pub open spec fn in_range(self) -> bool {
        coord_in_range(self.x) && coord_in_range(self.y) && coord_in_range(self.z)
    }
}

pub open spec fn sq(d: int) -> int {
    d * d
}

/// The squared Euclidean distance of two points.
pub open spec fn sq_dist(p: Point, q: Point) -> int {
    sq(p.x - q.x) + sq(p.y - q.y) + sq(p.z - q.z)
}

/// Every point of the set is in range.
pub open spec fn all_in_range(pts: Seq<Point>) -> bool {
    forall|i: int| 0 <= i < pts.len() ==> (#[trigger] pts[i]).in_range()
}

proof fn lemma_sq_bound(d: int)
    requires
        -0x8000_0000_0000_0000 <= d <= 0x8000_0000_0000_0000,
    ensures
        0 <= sq(d) <= 0x4000_0000_0000_0000_0000_0000_0000_0000,
{
    assert(0 <= d * d <= 0x8000_0000_0000_0000 * 0x8000_0000_0000_0000) by (nonlinear_arith)
        requires
            -0x8000_0000_0000_0000 <= d <= 0x8000_0000_0000_0000,
    ;
}

fn axis_sq(a: i64, b: i64) -> (r: u128)
    requires
        coord_in_range(a),
        coord_in_range(b),
    ensures
        r == sq(a - b),
        r <= 0x4000_0000_0000_0000_0000_0000_0000_0000,
{
    let d: i128 = a as i128 - b as i128;
    proof {
        lemma_sq_bound(d as int);
    }
    let s: i128 = d * d;
    s as u128
}

/// Squared Euclidean distance, exact for points in range.
pub fn squared_distance(p: &Point, q: &Point) -> (r: u128)
    requires
        p.in_range(),
        q.in_range(),
    ensures
        r == sq_dist(*p, *q),
{
    let dx = axis_sq(p.x, q.x);
    let dy = axis_sq(p.y, q.y);
    let dz = axis_sq(p.z, q.z);
    dx + dy + dz
}

} // verus!
