use vstd::prelude::*;

verus! {

/// Largest magnitude of a position coordinate. Positions are fixed-point
/// integers: one voxel spans `VOXEL_SIZE` units.
pub const COORD_LIMIT: i64 = 1073741824;

/// A point or a direction in space, in fixed-point units.
#[derive(Clone, Copy, Debug, PartialEq, Eq, Structural)]
pub struct Point {
    pub x: i64,
    pub y: i64,
    pub z: i64,
}

impl Point {
    /// Every coordinate lies within `COORD_LIMIT`.
    pub open spec fn in_bounds(self) -> bool {
        &&& -COORD_LIMIT <= self.x <= COORD_LIMIT
        &&& -COORD_LIMIT <= self.y <= COORD_LIMIT
        &&& -COORD_LIMIT <= self.z <= COORD_LIMIT
    }

    pub fn new(x: i64, y: i64, z: i64) -> (r: Point)
        ensures
            r == (Point { x, y, z }),
    {
        Point { x, y, z }
    }
}

/// Largest magnitude of a direction component.
pub const DIR_LIMIT: i64 = 65536;

/// Largest magnitude of a triangle vertex coordinate.
pub const TRI_LIMIT: i64 = 17179869184;

/// A ray: an origin and a direction, which need not be normalized.
#[derive(Clone, Copy, Debug, PartialEq, Eq, Structural)]
pub struct Ray {
    pub pos: Point,
    pub dir: Point,
}

impl Ray {
    /// The origin lies within bounds and every direction component within `DIR_LIMIT`.
    pub open spec fn wf(self) -> bool {
        &&& self.pos.in_bounds()
        &&& -DIR_LIMIT <= self.dir.x <= DIR_LIMIT
        &&& -DIR_LIMIT <= self.dir.y <= DIR_LIMIT
        &&& -DIR_LIMIT <= self.dir.z <= DIR_LIMIT
    }
}

/// A triangle given by its three corners.
#[derive(Clone, Copy, Debug, PartialEq, Eq, Structural)]
pub struct Triangle {
    pub a: Point,
    pub b: Point,
    pub c: Point,
}

pub open spec fn point_within(p: Point, lim: int) -> bool {
    &&& -lim <= p.x <= lim
    &&& -lim <= p.y <= lim
    &&& -lim <= p.z <= lim
}

impl Triangle {
    /// Every corner coordinate lies within `TRI_LIMIT`.
    pub open spec fn wf(self) -> bool {
        &&& point_within(self.a, TRI_LIMIT as int)
        &&& point_within(self.b, TRI_LIMIT as int)
        &&& point_within(self.c, TRI_LIMIT as int)
    }
}

/// A half-space `nx*x + ny*y + nz*z >= d`: the inside is the positive side.
#[derive(Clone, Copy, Debug, PartialEq, Eq, Structural)]
pub struct Plane {
    pub nx: i64,
    pub ny: i64,
    pub nz: i64,
    pub d: i64,
}

/// The six planes that bound a view volume.
pub type Frustum = [Plane; 6];

pub open spec fn abs(a: int) -> int {
    if a < 0 {
        -a
    } else {
        a
    }
}

/// The cube with center `c` and half-extent `e` is not entirely on the
/// outer side of `pl`: the center's signed distance is at least minus the
/// cube's radius along the plane normal.
pub open spec fn plane_admits(pl: Plane, c: Point, e: int) -> bool {
    let r = e * (abs(pl.nx as int) + abs(pl.ny as int) + abs(pl.nz as int));
    let s = pl.nx * c.x + pl.ny * c.y + pl.nz * c.z - pl.d;
    -r <= s
}

/// The cube passes the test of every plane of the frustum.
pub open spec fn frustum_admits(f: Frustum, c: Point, e: int) -> bool {
    forall|i: int| 0 <= i < 6 ==> plane_admits(#[trigger] f@[i], c, e)
}

/// `p` lies in the half-open cube `[c - e, c + e)` on every axis.
pub open spec fn in_cube(c: Point, e: int, p: Point) -> bool {
    &&& c.x - e <= p.x < c.x + e
    &&& c.y - e <= p.y < c.y + e
    &&& c.z - e <= p.z < c.z + e
}

fn abs_wide(a: i64) -> (r: i128)
    ensures
        r == abs(a as int),
{
    if a < 0 {
        -(a as i128)
    } else {
        a as i128
    }
}

/// The cube test against one plane, computed exactly.
pub fn plane_admits_cube(pl: &Plane, c: &Point, e: i64) -> (r: bool)
    requires
        0 <= e <= 4 * COORD_LIMIT,
        -4 * COORD_LIMIT <= c.x <= 4 * COORD_LIMIT,
        -4 * COORD_LIMIT <= c.y <= 4 * COORD_LIMIT,
        -4 * COORD_LIMIT <= c.z <= 4 * COORD_LIMIT,
    ensures
        r == plane_admits(*pl, *c, e as int),
{
    let n = abs_wide(pl.nx) + abs_wide(pl.ny) + abs_wide(pl.nz);
    let ew = e as i128;
    proof {
        lemma_mul_abs_le(ew as int, n as int, 0x1_0000_0000, 0x2_0000_0000_0000_0000);
        vstd::arithmetic::mul::lemma_mul_nonnegative(ew as int, n as int);
    }
    let r = ew * n;
    proof {
        lemma_mul_abs_le(pl.nx as int, c.x as int, 0x8000_0000_0000_0000, 0x1_0000_0000);
        lemma_mul_abs_le(pl.ny as int, c.y as int, 0x8000_0000_0000_0000, 0x1_0000_0000);
        lemma_mul_abs_le(pl.nz as int, c.z as int, 0x8000_0000_0000_0000, 0x1_0000_0000);
    }
    let s = (pl.nx as i128) * (c.x as i128) + (pl.ny as i128) * (c.y as i128) + (pl.nz as i128) * (
    c.z as i128) - pl.d as i128;
    -r <= s
}

/// The magnitude of a product is bounded by the product of the bounds.
pub proof fn lemma_mul_abs_le(a: int, b: int, ab: int, bb: int)
    requires
        abs(a) <= ab,
        abs(b) <= bb,
    ensures
        abs(a * b) <= ab * bb,
{
    vstd::arithmetic::mul::lemma_mul_upper_bound(abs(a), ab, abs(b), bb);
    if a < 0 {
        vstd::arithmetic::mul::lemma_mul_unary_negation(a, b);
        assert(-a * b == -(a * b));
    }
    if b < 0 {
        vstd::arithmetic::mul::lemma_mul_is_commutative(abs(a), b);
        vstd::arithmetic::mul::lemma_mul_unary_negation(b, abs(a));
    }
    if a < 0 && b < 0 {
        vstd::arithmetic::mul::lemma_mul_cancels_negatives(a, b);
    }
    if a >= 0 && b < 0 {
        vstd::arithmetic::mul::lemma_mul_unary_negation(b, a);
        vstd::arithmetic::mul::lemma_mul_is_commutative(a, b);
        vstd::arithmetic::mul::lemma_mul_is_commutative(a, -b);
    }
}

} // verus!
