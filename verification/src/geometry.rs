use vstd::prelude::*;
use vstd::pervasive::VecAdditionalExecFns;

verus! {

/// Coordinates are fixed-point fractions of the unit cube edge: a stored
/// coordinate `x` stands for the real position `x / SCALE`, and must satisfy
/// `0 <= x < SCALE` so that every point lies inside the half-open unit cube.
pub const SCALE: u64 = 1_000_000;

/// Half the period, the wrap threshold of the minimum-image convention.
pub const HALF_SCALE: u64 = 500_000;

/// The largest squared minimum-image distance two in-range points can have:
/// three axes, each contributing at most `HALF_SCALE * HALF_SCALE`.
pub const MAX_SQ_DIST: u64 = 750_000_000_000;

/// A position in the periodic unit cube, in fixed-point coordinates.
#[derive(Clone, Copy, PartialEq, Eq, Structural, Debug)]
pub struct Point {
    pub x: u64,
    pub y: u64,
    pub z: u64,
}

impl Point {
    /// Every coordinate lies inside the half-open interval `[0, SCALE)`.
    pub open spec fn valid(self) -> bool {
        self.x < SCALE && self.y < SCALE && self.z < SCALE
    }
}

/// All points of a sequence are in range.
pub open spec fn points_valid(ps: Seq<Point>) -> bool {
    forall|m: int| 0 <= m < ps.len() ==> (#[trigger] ps[m]).valid()
}

/// Minimum-image separation along one axis: the raw separation `|a - b|`
/// when it is below half the period, the wrapped separation `SCALE - |a - b|`
/// otherwise.  At exactly half the period both readings agree.
pub open spec fn axis_sep(a: int, b: int) -> int {
    let d = if a >= b { a - b } else { b - a };
    if 2 * d >= SCALE { SCALE - d } else { d }
}

/// Squared minimum-image distance between two points: the sum of the squared
/// per-axis minimum-image separations.
pub open spec fn dist2(p1: Point, p2: Point) -> int {
    let dx = axis_sep(p1.x as int, p2.x as int);
    let dy = axis_sep(p1.y as int, p2.y as int);
    let dz = axis_sep(p1.z as int, p2.z as int);
    dx * dx + dy * dy + dz * dz
}

/// For in-range coordinates the per-axis separation is at most half the period.
pub proof fn lemma_axis_sep_bounds(a: int, b: int)
    requires
        0 <= a < SCALE,
        0 <= b < SCALE,
    ensures
        0 <= axis_sep(a, b) <= HALF_SCALE,
{
}

/// The squared minimum-image distance of two in-range points is non-negative
/// and never exceeds `MAX_SQ_DIST`.
pub proof fn lemma_dist2_bounds(p1: Point, p2: Point)
    requires
        p1.valid(),
        p2.valid(),
    ensures
        0 <= dist2(p1, p2) <= MAX_SQ_DIST,
{
    lemma_axis_sep_bounds(p1.x as int, p2.x as int);
    lemma_axis_sep_bounds(p1.y as int, p2.y as int);
    lemma_axis_sep_bounds(p1.z as int, p2.z as int);
    lemma_sq_bound(axis_sep(p1.x as int, p2.x as int));
    lemma_sq_bound(axis_sep(p1.y as int, p2.y as int));
    lemma_sq_bound(axis_sep(p1.z as int, p2.z as int));
}

/// A value of at most half the period has a square of at most a third of
/// `MAX_SQ_DIST`.
proof fn lemma_sq_bound(w: int) by (nonlinear_arith)
    requires
        0 <= w <= HALF_SCALE,
    ensures
        0 <= w * w <= 250_000_000_000,
{
}

/// Law: the squared minimum-image distance from any point to itself is zero.
pub proof fn lemma_dist2_self(p: Point)
    ensures
        dist2(p, p) == 0,
{
    let dx = axis_sep(p.x as int, p.x as int);
    let dy = axis_sep(p.y as int, p.y as int);
    let dz = axis_sep(p.z as int, p.z as int);
    assert(dx == 0 && dy == 0 && dz == 0);
    assert(dx * dx + dy * dy + dz * dz == 0) by (nonlinear_arith)
        requires
            dx == 0,
            dy == 0,
            dz == 0,
    ;
}

/// Law: the squared minimum-image distance is symmetric in its two points.
pub proof fn lemma_dist2_symm(p1: Point, p2: Point)
    ensures
        dist2(p1, p2) == dist2(p2, p1),
{
}

/// Minimum-image separation along one axis, executable form.
fn sep(a: u64, b: u64) -> (r: u64)
    requires
        a < SCALE,
        b < SCALE,
    ensures
        r == axis_sep(a as int, b as int),
        r <= HALF_SCALE,
{
    let d = if a >= b {
        a - b
    } else {
        b - a
    };
    if 2 * d >= SCALE {
        SCALE - d
    } else {
        d
    }
}

/// Squared minimum-image distance between two points of the periodic unit
/// cube.
pub fn dist(p1: &Point, p2: &Point) -> (r: u64)
    requires
        p1.valid(),
        p2.valid(),
    ensures
        r == dist2(*p1, *p2),
        r <= MAX_SQ_DIST,
{
    let dx = sep(p1.x, p2.x);
    let dy = sep(p1.y, p2.y);
    let dz = sep(p1.z, p2.z);
    proof {
        lemma_sq_bound(dx as int);
        lemma_sq_bound(dy as int);
        lemma_sq_bound(dz as int);
    }
    dx * dx + dy * dy + dz * dz
}

/// Relies on rand::thread_rng and rand::Rng::gen_range: gen_range returns a
/// value inside the given half-open range, and panics only on an empty
/// range, which `0..SCALE` is not.
#[verifier::external_body]
fn random_coord() -> (r: u64)
    ensures
        r < SCALE,
{
    rand::Rng::gen_range(&mut rand::thread_rng(), 0..SCALE)
}

/// Overwrites the caller's buffer with freshly drawn in-range points, one
/// random coordinate per axis.
pub fn point_generator(points: &mut Vec<Point>)
    ensures
        final(points)@.len() == old(points)@.len(),
        points_valid(final(points)@),
{
    let n = points.len();
    let mut i: usize = 0;
    while i < n
        invariant
            i <= n,
            points@.len() == n,
            forall|m: int| 0 <= m < i ==> (#[trigger] points@[m]).valid(),
        decreases n - i,
    {
        let x = random_coord();
        let y = random_coord();
        let z = random_coord();
        points.set(i, Point { x, y, z });
        i += 1;
    }
}

} // verus!
