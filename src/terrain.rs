use vstd::prelude::*;
use crate::svec::copy_vec;
use std::collections::HashMap;
use crate::geometry::{Point, Ray, Triangle, TRI_LIMIT, COORD_LIMIT, DIR_LIMIT, point_within};
use vstd::map::Map;

verus! {

broadcast use vstd::std_specs::hash::group_hash_axioms;

/// Edge length of a voxel, in position units.
pub const VOXEL_SIZE: i64 = 1024;

/// Samples of the scalar field range over `0..=SAMPLE_MAX`.
pub const SAMPLE_MAX: u32 = 65536;

/// The surface lies where the field crosses this sample value.
pub const SURFACE_THRESHOLD: u32 = 32768;

/// Largest magnitude of a voxel coordinate that is ever extracted.
pub const VOXEL_LIMIT: i64 = 8388608;

/// The integer coordinates of a voxel: the cube from `VOXEL_SIZE * (x, y, z)`
/// to `VOXEL_SIZE * (x + 1, y + 1, z + 1)`.
#[derive(Clone, Copy, Debug, PartialEq, Eq, Structural)]
pub struct Voxel {
    pub x: i64,
    pub y: i64,
    pub z: i64,
}

impl Voxel {
    pub open spec fn wf(self) -> bool {
        &&& -VOXEL_LIMIT <= self.x <= VOXEL_LIMIT
        &&& -VOXEL_LIMIT <= self.y <= VOXEL_LIMIT
        &&& -VOXEL_LIMIT <= self.z <= VOXEL_LIMIT
    }
}

/// The cache key of a voxel: one distinct number per voxel within bounds.
pub open spec fn voxel_key(v: Voxel) -> u128 {
    (((v.x + 0x100_0000) * 0x200_0000 + (v.y + 0x100_0000)) * 0x200_0000 + (v.z + 0x100_0000)) as u128
}

fn key_of(v: &Voxel) -> (r: u128)
    requires
        v.wf(),
    ensures
        r == voxel_key(*v),
{
    let x = (v.x + 0x100_0000) as u128;
    let y = (v.y + 0x100_0000) as u128;
    let z = (v.z + 0x100_0000) as u128;
    proof {
        vstd::arithmetic::mul::lemma_mul_upper_bound(x as int, 0x1ff_ffff, 0x200_0000, 0x200_0000);
        let xy = x * 0x200_0000 + y;
        vstd::arithmetic::mul::lemma_mul_upper_bound(
            xy as int,
            0x4_0000_0000_0000int,
            0x200_0000,
            0x200_0000,
        );
    }
    (x * 0x200_0000 + y) * 0x200_0000 + z
}

/// The offset of cube corner `i` from the voxel's origin, in voxel units.
pub open spec fn corner_offset(i: int) -> (int, int, int) {
    if i == 0 {
        (0, 0, 0)
    } else if i == 1 {
        (0, 0, 1)
    } else if i == 2 {
        (1, 0, 1)
    } else if i == 3 {
        (1, 0, 0)
    } else if i == 4 {
        (0, 1, 0)
    } else if i == 5 {
        (0, 1, 1)
    } else if i == 6 {
        (1, 1, 1)
    } else {
        (1, 1, 0)
    }
}

/// The two corners that cube edge `e` joins.
pub open spec fn edge_ends(e: int) -> (int, int) {
    if e < 4 {
        (e, (e + 1) % 4)
    } else if e < 8 {
        (e, 4 + (e - 3) % 4)
    } else {
        (e - 8, e - 4)
    }
}

fn corner_offset_of(i: usize) -> (r: (i64, i64, i64))
    requires
        i < 8,
    ensures
        (r.0 as int, r.1 as int, r.2 as int) == corner_offset(i as int),
{
    match i {
        0 => (0, 0, 0),
        1 => (0, 0, 1),
        2 => (1, 0, 1),
        3 => (1, 0, 0),
        4 => (0, 1, 0),
        5 => (0, 1, 1),
        6 => (1, 1, 1),
        _ => (1, 1, 0),
    }
}

fn edge_ends_of(e: usize) -> (r: (usize, usize))
    requires
        e < 12,
    ensures
        (r.0 as int, r.1 as int) == edge_ends(e as int),
        r.0 < 8,
        r.1 < 8,
{
    if e < 4 {
        (e, (e + 1) % 4)
    } else if e < 8 {
        (e, 4 + (e - 3) % 4)
    } else {
        (e - 8, e - 4)
    }
}

/// A row of the triangulation table: whole triangles, at most five, each
/// corner named by a cube edge.
pub open spec fn row_ok(r: Seq<u8>) -> bool {
    &&& r.len() % 3 == 0
    &&& r.len() <= 15
    &&& forall|i: int| 0 <= i < r.len() ==> #[trigger] r[i] < 12
}

/// Corner `i` lies below the threshold in corner configuration `c`.
pub open spec fn corner_below(c: int, i: int) -> bool {
    (c / vstd::arithmetic::power2::pow2(i as nat) as int) % 2 == 1
}

/// Edge `e` joins a corner below the threshold to one that is not, in
/// configuration `c`: the surface crosses it.
pub open spec fn edge_crossed(c: int, e: int) -> bool {
    corner_below(c, edge_ends(e).0) != corner_below(c, edge_ends(e).1)
}

/// Every edge that the row for configuration `c` names is crossed by the surface.
pub open spec fn row_crosses(r: Seq<u8>, c: int) -> bool {
    forall|i: int| 0 <= i < r.len() ==> edge_crossed(c, #[trigger] r[i] as int)
}

/// A triangulation table: one row per corner configuration, empty exactly
/// for the two configurations whose corners all lie on one side, each row
/// placing its vertices only on edges that the surface crosses.
pub open spec fn table_ok(rows: Seq<Seq<u8>>) -> bool {
    &&& rows.len() == 256
    &&& forall|i: int| 0 <= i < 256 ==> #[trigger] row_ok(rows[i])
    &&& forall|i: int| 0 <= i < 256 ==> (#[trigger] rows[i].len() == 0 <==> (i == 0 || i == 255))
    &&& forall|i: int| 0 <= i < 256 ==> #[trigger] row_crosses(rows[i], i)
}

/// Whether corner `i` lies below the threshold in configuration `c`.
fn corner_below_of(c: usize, i: usize) -> (r: bool)
    requires
        c < 256,
        i < 8,
    ensures
        r == corner_below(c as int, i as int),
{
    let mut p: usize = 1;
    let mut k: usize = 0;
    proof {
        vstd::arithmetic::power2::lemma2_to64();
    }
    while k < i
        invariant
            0 <= k <= i < 8,
            p == vstd::arithmetic::power2::pow2(k as nat),
        decreases i - k,
    {
        proof {
            vstd::arithmetic::power2::lemma2_to64();
            vstd::arithmetic::power2::lemma_pow2_unfold(k as nat + 1);
            vstd::arithmetic::power2::lemma_pow2_strictly_increases(k as nat, 8);
        }
        p = p * 2;
        k = k + 1;
    }
    proof {
        vstd::arithmetic::power2::lemma_pow2_pos(i as nat);
    }
    (c / p) % 2 == 1
}

/// The marching-cubes triangulation table, keyed by corner configuration.
pub struct TriangleTable {
    rows: Vec<Vec<u8>>,
}

impl TriangleTable {
    pub closed spec fn view(&self) -> Seq<Seq<u8>> {
        Seq::new(self.rows@.len(), |i: int| self.rows@[i]@)
    }

    pub open spec fn wf(&self) -> bool {
        table_ok(self@)
    }

    /// The table with these rows, or `None` where they do not form one.
    pub fn from_rows(rows: Vec<Vec<u8>>) -> (r: Option<TriangleTable>)
        ensures
            r is Some <==> table_ok(Seq::new(rows@.len(), |i: int| rows@[i]@)),
            r matches Some(t) ==> t@ == Seq::new(rows@.len(), |i: int| rows@[i]@),
    {
        let ghost view = Seq::new(rows@.len(), |i: int| rows@[i]@);
        if rows.len() != 256 {
            return None;
        }
        let mut i: usize = 0;
        while i < 256
            invariant
                0 <= i <= 256,
                rows@.len() == 256,
                view == Seq::new(rows@.len(), |i: int| rows@[i]@),
                forall|j: int| 0 <= j < i ==> #[trigger] row_ok(view[j]),
                forall|j: int| 0 <= j < i ==> (#[trigger] view[j].len() == 0 <==> (j == 0 || j == 255)),
                forall|j: int| 0 <= j < i ==> #[trigger] row_crosses(view[j], j),
            decreases 256 - i,
        {
            let row = &rows[i];
            let n = row.len();
            proof {
                assert(view[i as int] == row@);
            }
            if n % 3 != 0 || n > 15 || ((n == 0) != (i == 0 || i == 255)) {
                assert(!table_ok(view)) by {
                    if n % 3 != 0 || n > 15 {
                        assert(!row_ok(view[i as int]));
                    } else {
                        assert(view[i as int].len() == n);
                    }
                }
                return None;
            }
            let mut j: usize = 0;
            while j < n
                invariant
                    0 <= j <= n,
                    0 <= i < 256,
                    rows@.len() == 256,
                    view == Seq::new(rows@.len(), |i: int| rows@[i]@),
                    row@ == rows@[i as int]@,
                    view[i as int] == row@,
                    n == row@.len(),
                    forall|q: int| 0 <= q < j ==> #[trigger] row@[q] < 12,
                    forall|q: int| 0 <= q < j ==> edge_crossed(i as int, #[trigger] row@[q] as int),
                decreases n - j,
            {
                if row[j] >= 12 {
                    assert(!table_ok(view)) by {
                        assert(view[i as int][j as int] >= 12);
                        assert(!row_ok(view[i as int]));
                    }
                    return None;
                }
                let (a, b) = edge_ends_of(row[j] as usize);
                if corner_below_of(i, a) == corner_below_of(i, b) {
                    assert(!table_ok(view)) by {
                        assert(!edge_crossed(i as int, view[i as int][j as int] as int));
                        assert(!row_crosses(view[i as int], i as int));
                    }
                    return None;
                }
                j = j + 1;
            }
            assert(view[i as int] == row@);
            i = i + 1;
        }
        let t = TriangleTable { rows };
        assert(t@ =~= view);
        Some(t)
    }
}

/// The eight corner samples of a voxel, as the corner configuration: bit
/// `i` is set where corner `i` lies below the surface threshold.
pub open spec fn config_upto(s: Seq<u32>, n: int) -> int
    decreases n,
{
    if n <= 0 {
        0
    } else {
        config_upto(s, n - 1) + if s[n - 1] < SURFACE_THRESHOLD {
            vstd::arithmetic::power2::pow2((n - 1) as nat) as int
        } else {
            0
        }
    }
}

pub open spec fn config_of(s: Seq<u32>) -> int {
    config_upto(s, 8)
}

/// Where the surface crosses an edge, as a distance from its first corner
/// in `0..=VOXEL_SIZE`: linear between the two samples, at the middle where
/// they are equal.
pub open spec fn crossing(a: int, b: int) -> int {
    let t = SURFACE_THRESHOLD as int;
    if a == b {
        VOXEL_SIZE / 2
    } else {
        let (num, den) = if a < b {
            (VOXEL_SIZE * (t - a), b - a)
        } else {
            (VOXEL_SIZE * (a - t), a - b)
        };
        if num <= 0 {
            0
        } else if num >= VOXEL_SIZE * den {
            VOXEL_SIZE as int
        } else {
            num / den
        }
    }
}

pub open spec fn lerp_coord(a: int, b: int, f: int) -> i64 {
    (a * VOXEL_SIZE + (b - a) * f) as i64
}

/// The point where the surface crosses edge `e` of voxel `v`, given its
/// corner samples `s`.
pub open spec fn edge_point(v: Voxel, s: Seq<u32>, e: int) -> Point {
    let (i1, i2) = edge_ends(e);
    let o1 = corner_offset(i1);
    let o2 = corner_offset(i2);
    let f = crossing(s[i1] as int, s[i2] as int);
    Point {
        x: lerp_coord(v.x + o1.0, v.x + o2.0, f),
        y: lerp_coord(v.y + o1.1, v.y + o2.1, f),
        z: lerp_coord(v.z + o1.2, v.z + o2.2, f),
    }
}

/// The triangles that `row` of the table makes in voxel `v` with samples `s`.
pub open spec fn triangulate(row: Seq<u8>, v: Voxel, s: Seq<u32>) -> Seq<Triangle> {
    Seq::new(
        row.len() / 3,
        |t: int|
            Triangle {
                a: edge_point(v, s, row[3 * t] as int),
                b: edge_point(v, s, row[3 * t + 1] as int),
                c: edge_point(v, s, row[3 * t + 2] as int),
            },
    )
}

/// The surface in voxel `v` whose corner samples are `s`.
pub open spec fn surface(table: Seq<Seq<u8>>, v: Voxel, s: Seq<u32>) -> Seq<Triangle> {
    triangulate(table[config_of(s)], v, s)
}

proof fn lemma_config_bound(s: Seq<u32>, n: int)
    requires
        0 <= n <= 8,
    ensures
        0 <= config_upto(s, n) < vstd::arithmetic::power2::pow2(n as nat),
    decreases n,
{
    vstd::arithmetic::power2::lemma_pow2_pos(n as nat);
    if n > 0 {
        lemma_config_bound(s, n - 1);
        vstd::arithmetic::power2::lemma_pow2_unfold(n as nat);
    } else {
        vstd::arithmetic::power2::lemma2_to64();
    }
}

/// `crossing` always lies within the edge.
proof fn lemma_crossing_range(a: int, b: int)
    ensures
        0 <= crossing(a, b) <= VOXEL_SIZE,
{
    let t = SURFACE_THRESHOLD as int;
    if a != b {
        let (num, den) = if a < b {
            (VOXEL_SIZE * (t - a), b - a)
        } else {
            (VOXEL_SIZE * (a - t), a - b)
        };
        if 0 < num < VOXEL_SIZE * den {
            vstd::arithmetic::div_mod::lemma_fundamental_div_mod(num, den);
            vstd::arithmetic::div_mod::lemma_mod_bound(num, den);
            let q = num / den;
            if q < 0 {
                vstd::arithmetic::mul::lemma_mul_inequality(q, -1, den);
            }
            if q > VOXEL_SIZE {
                vstd::arithmetic::mul::lemma_mul_inequality(VOXEL_SIZE as int, q, den);
                vstd::arithmetic::mul::lemma_mul_is_commutative(q, den);
            }
        }
    }
}

/// The corners of every triangle that extraction makes lie within bounds.
proof fn lemma_surface_wf(table: Seq<Seq<u8>>, v: Voxel, s: Seq<u32>)
    requires
        table_ok(table),
        v.wf(),
        s.len() == 8,
    ensures
        forall|t: int|
            0 <= t < surface(table, v, s).len() ==> (#[trigger] surface(table, v, s)[t]).wf()
                && compact(surface(table, v, s)[t]),
{
    lemma_config_bound(s, 8);
    vstd::arithmetic::power2::lemma2_to64();
    let row = table[config_of(s)];
    assert(row_ok(row));
    assert forall|t: int| 0 <= t < surface(table, v, s).len() implies (#[trigger] surface(
        table,
        v,
        s,
    )[t]).wf() && compact(surface(table, v, s)[t]) by {
        assert(row[3 * t] < 12 && row[3 * t + 1] < 12 && row[3 * t + 2] < 12);
        lemma_edge_point_bound(v, s, row[3 * t] as int);
        lemma_edge_point_bound(v, s, row[3 * t + 1] as int);
        lemma_edge_point_bound(v, s, row[3 * t + 2] as int);
    }
}

proof fn lemma_edge_point_bound(v: Voxel, s: Seq<u32>, e: int)
    requires
        v.wf(),
        s.len() == 8,
        0 <= e < 12,
    ensures
        point_within(edge_point(v, s, e), TRI_LIMIT as int),
        v.x * VOXEL_SIZE <= edge_point(v, s, e).x <= v.x * VOXEL_SIZE + VOXEL_SIZE,
        v.y * VOXEL_SIZE <= edge_point(v, s, e).y <= v.y * VOXEL_SIZE + VOXEL_SIZE,
        v.z * VOXEL_SIZE <= edge_point(v, s, e).z <= v.z * VOXEL_SIZE + VOXEL_SIZE,
{
    let (i1, i2) = edge_ends(e);
    lemma_crossing_range(s[i1] as int, s[i2] as int);
    let f = crossing(s[i1] as int, s[i2] as int);
    let o1 = corner_offset(i1);
    let o2 = corner_offset(i2);
    assert forall|a: int, b: int|
        -VOXEL_LIMIT <= a <= VOXEL_LIMIT + 1 && -VOXEL_LIMIT <= b <= VOXEL_LIMIT + 1 && (b - a == 0
            || b - a == 1 || b - a == -1) implies -TRI_LIMIT <= #[trigger] lerp_coord(a, b, f)
        <= TRI_LIMIT by {
        assert(-VOXEL_LIMIT * VOXEL_SIZE <= a * VOXEL_SIZE <= (VOXEL_LIMIT + 1) * VOXEL_SIZE)
            by (nonlinear_arith)
            requires
                -VOXEL_LIMIT <= a <= VOXEL_LIMIT + 1,
        ;
        assert(-VOXEL_SIZE <= (b - a) * f <= VOXEL_SIZE) by (nonlinear_arith)
            requires
                b - a == 0 || b - a == 1 || b - a == -1,
                0 <= f <= VOXEL_SIZE,
        ;
    }
    assert forall|c: int, a: int, b: int|
        -VOXEL_LIMIT <= c <= VOXEL_LIMIT && (a == c || a == c + 1) && (b == c || b == c + 1)
            implies #[trigger] c_in(c, a, b, f) by {
        assert(a * VOXEL_SIZE == c * VOXEL_SIZE || a * VOXEL_SIZE == c * VOXEL_SIZE + VOXEL_SIZE);
        assert((b - a) * f == 0 || (b - a) * f == f || (b - a) * f == -f) by (nonlinear_arith)
            requires
                b - a == 0 || b - a == 1 || b - a == -1,
        ;
        assert(-VOXEL_LIMIT * VOXEL_SIZE <= c * VOXEL_SIZE <= VOXEL_LIMIT * VOXEL_SIZE)
            by (nonlinear_arith)
            requires
                -VOXEL_LIMIT <= c <= VOXEL_LIMIT,
        ;
    }
    assert(0 <= o1.0 <= 1 && 0 <= o2.0 <= 1 && 0 <= o1.1 <= 1 && 0 <= o2.1 <= 1 && 0 <= o1.2 <= 1
        && 0 <= o2.2 <= 1);
    assert(c_in(v.x as int, v.x + o1.0, v.x + o2.0, f));
    assert(c_in(v.y as int, v.y + o1.1, v.y + o2.1, f));
    assert(c_in(v.z as int, v.z + o1.2, v.z + o2.2, f));
}

spec fn c_in(c: int, a: int, b: int, f: int) -> bool {
    c * VOXEL_SIZE <= lerp_coord(a, b, f) <= c * VOXEL_SIZE + VOXEL_SIZE
}

fn crossing_of(a: u32, b: u32) -> (r: i64)
    ensures
        r == crossing(a as int, b as int),
{
    let t = SURFACE_THRESHOLD as i64;
    let a = a as i64;
    let b = b as i64;
    if a == b {
        return VOXEL_SIZE / 2;
    }
    let (num, den) = if a < b {
        (VOXEL_SIZE * (t - a), b - a)
    } else {
        (VOXEL_SIZE * (a - t), a - b)
    };
    if num <= 0 {
        0
    } else if num >= VOXEL_SIZE * den {
        VOXEL_SIZE
    } else {
        ((num as u64) / (den as u64)) as i64
    }
}

fn edge_point_of(v: &Voxel, s: &[u32; 8], e: u8) -> (r: Point)
    requires
        v.wf(),
        e < 12,
    ensures
        r == edge_point(*v, s@, e as int),
{
    let (i1, i2) = edge_ends_of(e as usize);
    let o1 = corner_offset_of(i1);
    let o2 = corner_offset_of(i2);
    let f = crossing_of(s[i1], s[i2]);
    proof {
        lemma_crossing_range(s@[i1 as int] as int, s@[i2 as int] as int);
        lemma_edge_point_bound(*v, s@, e as int);
    }
    let x1 = v.x + o1.0;
    let x2 = v.x + o2.0;
    let y1 = v.y + o1.1;
    let y2 = v.y + o2.1;
    let z1 = v.z + o1.2;
    let z2 = v.z + o2.2;
    proof {
        assert(-VOXEL_LIMIT * VOXEL_SIZE <= x1 * VOXEL_SIZE <= (VOXEL_LIMIT + 1) * VOXEL_SIZE)
            by (nonlinear_arith)
            requires
                -VOXEL_LIMIT <= x1 <= VOXEL_LIMIT + 1,
        ;
        assert(-VOXEL_LIMIT * VOXEL_SIZE <= y1 * VOXEL_SIZE <= (VOXEL_LIMIT + 1) * VOXEL_SIZE)
            by (nonlinear_arith)
            requires
                -VOXEL_LIMIT <= y1 <= VOXEL_LIMIT + 1,
        ;
        assert(-VOXEL_LIMIT * VOXEL_SIZE <= z1 * VOXEL_SIZE <= (VOXEL_LIMIT + 1) * VOXEL_SIZE)
            by (nonlinear_arith)
            requires
                -VOXEL_LIMIT <= z1 <= VOXEL_LIMIT + 1,
        ;
        assert(-VOXEL_SIZE <= (x2 - x1) * f <= VOXEL_SIZE) by (nonlinear_arith)
            requires
                x2 - x1 == 0 || x2 - x1 == 1 || x2 - x1 == -1,
                0 <= f <= VOXEL_SIZE,
        ;
        assert(-VOXEL_SIZE <= (y2 - y1) * f <= VOXEL_SIZE) by (nonlinear_arith)
            requires
                y2 - y1 == 0 || y2 - y1 == 1 || y2 - y1 == -1,
                0 <= f <= VOXEL_SIZE,
        ;
        assert(-VOXEL_SIZE <= (z2 - z1) * f <= VOXEL_SIZE) by (nonlinear_arith)
            requires
                z2 - z1 == 0 || z2 - z1 == 1 || z2 - z1 == -1,
                0 <= f <= VOXEL_SIZE,
        ;
    }
    Point {
        x: x1 * VOXEL_SIZE + (x2 - x1) * f,
        y: y1 * VOXEL_SIZE + (y2 - y1) * f,
        z: z1 * VOXEL_SIZE + (z2 - z1) * f,
    }
}

/// The field's samples at the eight corners of `v` are `s`.
pub open spec fn sampled<F: Fn(i64, i64, i64) -> u32>(field: F, v: Voxel, s: Seq<u32>) -> bool {
    &&& s.len() == 8
    &&& forall|i: int|
        0 <= i < 8 ==> field.ensures(
            (
                (v.x + corner_offset(i).0) as i64,
                (v.y + corner_offset(i).1) as i64,
                (v.z + corner_offset(i).2) as i64,
            ),
            #[trigger] s[i],
        )
}

/// The field may be sampled anywhere.
pub open spec fn field_total<F: Fn(i64, i64, i64) -> u32>(field: F) -> bool {
    forall|x: i64, y: i64, z: i64| field.requires((x, y, z))
}

/// A terrain: the triangulation table, the scalar field whose surface it
/// is, and the triangles of every voxel extracted so far.
pub struct World<F: Fn(i64, i64, i64) -> u32> {
    table: TriangleTable,
    field: F,
    triangle_cache: HashMap<u128, Vec<Triangle>>,
}

impl<F: Fn(i64, i64, i64) -> u32> World<F> {
    pub closed spec fn table_view(&self) -> Seq<Seq<u8>> {
        self.table@
    }

    /// The scalar field, sampled at voxel grid vertices.
    pub closed spec fn field_fn(&self) -> F {
        self.field
    }

    /// The triangles of each voxel extracted so far, by `voxel_key`.
    pub closed spec fn cache(&self) -> Map<u128, Seq<Triangle>> {
        Map::new(
            |k: u128| self.triangle_cache@.contains_key(k),
            |k: u128| self.triangle_cache@[k]@,
        )
    }

    /// The table is valid, the field may be sampled anywhere, and every
    /// cached list is the surface of its voxel for the field's samples at
    /// its corners.
    pub open spec fn wf(&self) -> bool {
        &&& table_ok(self.table_view())
        &&& field_total(self.field_fn())
        &&& forall|v: Voxel|
            v.wf() && #[trigger] self.cache().contains_key(voxel_key(v)) ==> exists|s: Seq<u32>|
                sampled(self.field_fn(), v, s) && self.cache()[voxel_key(v)] == surface(
                    self.table_view(),
                    v,
                    s,
                )
        &&& forall|k: u128, t: int|
            #![trigger self.cache()[k][t]]
            self.cache().contains_key(k) && 0 <= t < self.cache()[k].len()
                ==> self.cache()[k][t].wf() && compact(self.cache()[k][t])
    }

    /// A terrain over `field` with nothing extracted yet.
    pub fn new(table: TriangleTable, field: F) -> (r: World<F>)
        requires
            table.wf(),
            field_total(field),
        ensures
            r.wf(),
            r.cache() == Map::<u128, Seq<Triangle>>::empty(),
            r.table_view() == table@,
            r.field_fn() == field,
    {
        let r = World { table, field, triangle_cache: HashMap::new() };
        assert(r.cache() =~= Map::<u128, Seq<Triangle>>::empty());
        r
    }

    /// The triangles of voxel `v`: those cached for it where there are, else
    /// the surface made from the field's samples at its corners, which is
    /// then cached.
    #[verifier::rlimit(60)]
    pub fn voxel_triangles(&mut self, v: Voxel) -> (r: Vec<Triangle>)
        requires
            old(self).wf(),
            v.wf(),
        ensures
            final(self).wf(),
            final(self).table_view() == old(self).table_view(),
            final(self).field_fn() == old(self).field_fn(),
            old(self).cache().contains_key(voxel_key(v)) ==> r@ == old(self).cache()[voxel_key(v)]
                && final(self).cache() == old(self).cache(),
            !old(self).cache().contains_key(voxel_key(v)) ==> final(self).cache() == old(
                self,
            ).cache().insert(voxel_key(v), r@) && exists|s: Seq<u32>|
                sampled(old(self).field_fn(), v, s) && r@ == surface(old(self).table_view(), v, s),
            final(self).cache().contains_key(voxel_key(v)),
            final(self).cache()[voxel_key(v)] == r@,
    {
        let key = key_of(&v);
        match self.triangle_cache.get(&key) {
            Some(t) => {
                return copy_vec(t);
            },
            None => {},
        }
        let mut s: [u32; 8] = [0; 8];
        let mut i: usize = 0;
        while i < 8
            invariant
                0 <= i <= 8,
                v.wf(),
                field_total(self.field),
                forall|j: int|
                    0 <= j < i ==> self.field.ensures(
                        (
                            (v.x + corner_offset(j).0) as i64,
                            (v.y + corner_offset(j).1) as i64,
                            (v.z + corner_offset(j).2) as i64,
                        ),
                        #[trigger] s@[j],
                    ),
            decreases 8 - i,
        {
            let o = corner_offset_of(i);
            s[i] = (self.field)(v.x + o.0, v.y + o.1, v.z + o.2);
            i = i + 1;
        }
        let mut config: usize = 0;
        let mut bit: usize = 1;
        let mut i: usize = 0;
        proof {
            vstd::arithmetic::power2::lemma2_to64();
        }
        while i < 8
            invariant
                0 <= i <= 8,
                config == config_upto(s@, i as int),
                bit == vstd::arithmetic::power2::pow2(i as nat),
            decreases 8 - i,
        {
            proof {
                lemma_config_bound(s@, i as int);
                vstd::arithmetic::power2::lemma2_to64();
                vstd::arithmetic::power2::lemma_pow2_unfold(i as nat + 1);
                vstd::arithmetic::power2::lemma_pow2_strictly_increases(i as nat, 8);
            }
            if s[i] < SURFACE_THRESHOLD {
                config = config + bit;
            }
            bit = bit * 2;
            i = i + 1;
        }
        proof {
            lemma_config_bound(s@, 8);
            vstd::arithmetic::power2::lemma2_to64();
            assert(self.table@[config as int] == self.table.rows@[config as int]@);
            assert(row_ok(self.table@[config as int]));
        }
        let row = &self.table.rows[config];
        let ghost want = surface(self.table@, v, s@);
        let mut r: Vec<Triangle> = Vec::new();
        let mut t: usize = 0;
        while t < row.len() / 3
            invariant
                v.wf(),
                row_ok(row@),
                self.table@.len() == 256,
                0 <= config_of(s@) < 256,
                row@ == self.table@[config_of(s@)],
                want == surface(self.table@, v, s@),
                0 <= t <= row@.len() / 3,
                r@ == want.subrange(0, t as int),
            decreases row@.len() / 3 - t,
        {
            let a = edge_point_of(&v, &s, row[3 * t]);
            let b = edge_point_of(&v, &s, row[3 * t + 1]);
            let c = edge_point_of(&v, &s, row[3 * t + 2]);
            r.push(Triangle { a, b, c });
            proof {
                assert(r@ =~= want.subrange(0, t as int + 1));
            }
            t = t + 1;
        }
        assert(r@ =~= want);
        let ghost old_cache = self.cache();
        self.triangle_cache.insert(key, copy_vec(&r));
        proof {
            assert(sampled(self.field, v, s@));
            assert(self.cache() =~= old_cache.insert(voxel_key(v), r@));
            lemma_surface_wf(self.table@, v, s@);
            assert forall|w: Voxel|
                w.wf() && #[trigger] self.cache().contains_key(voxel_key(w)) implies exists|
                q: Seq<u32>,
            | sampled(self.field, w, q) && self.cache()[voxel_key(w)] == surface(self.table@, w, q) by {
                if voxel_key(w) == voxel_key(v) {
                    lemma_key_injective(v, w);
                } else {
                    assert(old_cache.contains_key(voxel_key(w)));
                    assert(self.cache()[voxel_key(w)] == old_cache[voxel_key(w)]);
                }
            }
            assert(field_total(self.field_fn()));
            assert(table_ok(self.table_view()));
            assert forall|k: u128, t: int|
                #![trigger self.cache()[k][t]]
                self.cache().contains_key(k) && 0 <= t < self.cache()[k].len()
                    implies self.cache()[k][t].wf() && compact(self.cache()[k][t]) by {
                if k != voxel_key(v) {
                    assert(old_cache.contains_key(k));
                    assert(old_cache[k][t] == self.cache()[k][t]);
                }
            }
        }
        r
    }
    /// Casts `ray` into the terrain: walks the voxels it passes through, in
    /// order, from the one holding its origin, and returns the nearest point
    /// where it meets the surface in the first voxel that holds a hit,
    /// unless that lies beyond a positive `max_distance`. Every voxel the
    /// walk reaches up to that one is extracted and cached, and no other.
    #[verifier::rlimit(80)]
    pub fn raycast(&mut self, ray: Ray, max_distance: i64) -> (r: Option<Point>)
        requires
            old(self).wf(),
            ray.wf(),
        ensures
            final(self).wf(),
            final(self).table_view() == old(self).table_view(),
            final(self).field_fn() == old(self).field_fn(),
            extends(old(self).cache(), final(self).cache()),
            forall|j: int|
                0 <= j <= step_count(max_distance as int) && (forall|i: int|
                    0 <= i < j ==> (#[trigger] nearest_hit(
                        final(self).cache()[voxel_key(walk(ray, i as nat).0)],
                        ray,
                    )) is None) ==> final(self).cache().contains_key(
                    voxel_key((#[trigger] walk(ray, j as nat)).0),
                ),
            forall|k: u128|
                #[trigger] final(self).cache().contains_key(k) && !old(self).cache().contains_key(k)
                    ==> exists|j: int|
                    0 <= j <= step_count(max_distance as int) && k == voxel_key(
                        (#[trigger] walk(ray, j as nat)).0,
                    ),
            r == raycast_result(final(self).cache(), ray, max_distance as int),
    {
        let steps = step_count_of(max_distance);
        let mut st = walk_start_of(&ray);
        let mut i: i64 = 0;
        let ghost old_cache = self.cache();
        loop
            invariant
                self.wf(),
                self.table_view() == old(self).table_view(),
                self.field_fn() == old(self).field_fn(),
                extends(old_cache, self.cache()),
                old_cache == old(self).cache(),
                ray.wf(),
                steps == step_count(max_distance as int),
                MAX_RAY_DIST <= steps <= STEP_LIMIT,
                0 <= i <= steps,
                st.0 == walk(ray, i as nat).0,
                (st.1.0 as int, st.1.1 as int, st.1.2 as int) == walk(ray, i as nat).1,
                forall|j: int|
                    0 <= j < i ==> self.cache().contains_key(
                        #[trigger] voxel_key(walk(ray, j as nat).0),
                    ) && nearest_hit(self.cache()[voxel_key(walk(ray, j as nat).0)], ray) is None,
                forall|k: u128|
                    #[trigger] self.cache().contains_key(k) && !old_cache.contains_key(k)
                        ==> exists|j: int|
                        0 <= j < i && k == voxel_key((#[trigger] walk(ray, j as nat)).0),
            decreases steps - i,
        {
            proof {
                lemma_walk_voxel_wf(ray, i as nat);
            }
            let ghost before = self.cache();
            let tris = self.voxel_triangles(st.0);
            let ghost after = self.cache();
            proof {
                assert(after.contains_key(voxel_key(st.0)) && after[voxel_key(st.0)] == tris@);
                assert forall|j: int| 0 <= j < i implies after.contains_key(
                    #[trigger] voxel_key(walk(ray, j as nat).0),
                ) && nearest_hit(after[voxel_key(walk(ray, j as nat).0)], ray) is None by {
                    assert(before.contains_key(voxel_key(walk(ray, j as nat).0)));
                }
                assert forall|k: u128| #[trigger] old_cache.contains_key(k) implies after.contains_key(k)
                    && after[k] == old_cache[k] by {
                    assert(before.contains_key(k));
                }
                assert forall|k: u128|
                    #[trigger] after.contains_key(k) && !old_cache.contains_key(k) implies exists|j: int|
                    0 <= j < i + 1 && k == voxel_key((#[trigger] walk(ray, j as nat)).0) by {
                    if !before.contains_key(k) {
                        assert(k == voxel_key(walk(ray, i as nat).0));
                    } else {
                        let j = choose|j: int| 0 <= j < i && k == voxel_key((#[trigger] walk(ray, j as nat)).0);
                        assert(0 <= j < i + 1 && k == voxel_key(walk(ray, j as nat).0));
                    }
                }
                assert forall|q: int| 0 <= q < tris@.len() implies (#[trigger] tris@[q]).wf() && compact(tris@[q]) by {
                    assert(after[voxel_key(st.0)][q] == tris@[q]);
                }
            }
            match tris_collision(&tris, &ray) {
                Some(h) => {
                    proof {
                        lemma_scan_skip(after, ray, i as int, steps as int);
                        assert forall|j: int|
                            0 <= j <= steps && (forall|q: int|
                                0 <= q < j ==> (#[trigger] nearest_hit(
                                    after[voxel_key(walk(ray, q as nat).0)],
                                    ray,
                                )) is None) implies after.contains_key(
                            voxel_key((#[trigger] walk(ray, j as nat)).0),
                        ) by {
                            if j > i {
                                assert(nearest_hit(after[voxel_key(walk(ray, i as nat).0)], ray)
                                    is None);
                            }
                        }
                    }
                    return handle_hit(&ray, h.0, h.1, max_distance);
                },
                None => {},
            }
            if i == steps {
                proof {
                    lemma_scan_skip(after, ray, i as int + 1, steps as int);
                }
                return None;
            }
            st = walk_step_of(&ray, st, Ghost(i as nat));
            i = i + 1;
        }
    }

    /// The triangles of every voxel within `dist` of `center`, rounded up to
    /// whole voxels on each axis, voxel after voxel; voxels visited for the
    /// first time are extracted and cached.
    #[verifier::rlimit(60)]
    pub fn retrieve_triangles(&mut self, center: Point, dist: i64) -> (r: Vec<Triangle>)
        requires
            old(self).wf(),
            center.in_bounds(),
            dist <= RETRIEVE_LIMIT,
        ensures
            final(self).wf(),
            final(self).table_view() == old(self).table_view(),
            final(self).field_fn() == old(self).field_fn(),
            extends(old(self).cache(), final(self).cache()),
            gathered(
                final(self).cache(),
                voxel_of(center),
                reach_of(dist as int),
                neighborhood_size(reach_of(dist as int)),
            ),
            r@ == gather(
                final(self).cache(),
                voxel_of(center),
                reach_of(dist as int),
                neighborhood_size(reach_of(dist as int)),
            ),
    {
        let ghost old_cache = self.cache();
        let off = -floor_div(-(dist as i128), VOXEL_SIZE as i128);
        let mut r: Vec<Triangle> = Vec::new();
        let ghost base = voxel_of(center);
        proof {
            lemma_voxel_of_bounds(center.x as int);
            lemma_voxel_of_bounds(center.y as int);
            lemma_voxel_of_bounds(center.z as int);
            vstd::arithmetic::div_mod::lemma_fundamental_div_mod(-dist as int, VOXEL_SIZE as int);
            vstd::arithmetic::div_mod::lemma_mod_bound(-dist as int, VOXEL_SIZE as int);
        }
        if off < 0 {
            assert(r@ =~= gather(self.cache(), base, off as int, 0));
            return r;
        }
        let off = off as i64;
        let bx = floor_div(center.x as i128, VOXEL_SIZE as i128) as i64;
        let by = floor_div(center.y as i128, VOXEL_SIZE as i128) as i64;
        let bz = floor_div(center.z as i128, VOXEL_SIZE as i128) as i64;
        let n = 2 * off + 1;
        let ghost total = neighborhood_size(off as int);
        let mut ix: i64 = 0;
        let mut iy: i64 = 0;
        let mut iz: i64 = 0;
        let ghost mut idx: int = 0;
        proof {
            assert(n * n * n == total);
            assert(0 <= n * n) by (nonlinear_arith)
                requires
                    n >= 1,
            ;
            assert(0 <= (0 * n + 0) * n + 0);
        }
        while ix < n
            invariant
                self.wf(),
                self.table_view() == old(self).table_view(),
                self.field_fn() == old(self).field_fn(),
                extends(old_cache, self.cache()),
                old_cache == old(self).cache(),
                0 <= off <= 64,
                n == 2 * off + 1,
                base == voxel_of(center),
                base.x == bx && base.y == by && base.z == bz,
                -0x10_0000 <= bx <= 0x10_0000,
                -0x10_0000 <= by <= 0x10_0000,
                -0x10_0000 <= bz <= 0x10_0000,
                0 <= ix <= n,
                0 <= iy < n,
                0 <= iz < n,
                ix == n ==> iy == 0 && iz == 0,
                idx == (ix * n + iy) * n + iz,
                gathered(self.cache(), base, off as int, idx),
                r@ == gather(self.cache(), base, off as int, idx),
            decreases n - ix, n - iy, n - iz,
        {
            proof {
                vstd::arithmetic::div_mod::lemma_fundamental_div_mod_converse(
                    idx,
                    n as int,
                    ix * n + iy,
                    iz as int,
                );
                vstd::arithmetic::div_mod::lemma_fundamental_div_mod_converse(
                    ix * n + iy,
                    n as int,
                    ix as int,
                    iy as int,
                );
            }
            let v = Voxel { x: bx - off + ix, y: by - off + iy, z: bz - off + iz };
            assert(v == neighbor(base, off as int, idx));
            let ghost before = self.cache();
            let tris = self.voxel_triangles(v);
            proof {
                lemma_gather_stable(before, self.cache(), base, off as int, idx);
                assert forall|j: int| 0 <= j < idx + 1 implies #[trigger] self.cache().contains_key(
                    voxel_key(neighbor(base, off as int, j)),
                ) by {
                    if j < idx {
                        assert(before.contains_key(voxel_key(neighbor(base, off as int, j))));
                    }
                }
                assert forall|k: u128| #[trigger] old_cache.contains_key(k) implies self.cache().contains_key(k)
                    && self.cache()[k] == old_cache[k] by {
                    assert(before.contains_key(k));
                }
            }
            let mut tris = tris;
            r.append(&mut tris);
            proof {
                idx = idx + 1;
            }
            if iz + 1 < n {
                iz = iz + 1;
            } else if iy + 1 < n {
                iz = 0;
                iy = iy + 1;
                assert(idx == (ix * n + iy) * n + iz) by (nonlinear_arith)
                    requires
                        idx == (ix * n + (iy - 1)) * n + (n - 1) + 1,
                        iz == 0,
                ;
            } else {
                iz = 0;
                iy = 0;
                ix = ix + 1;
                assert(idx == (ix * n + iy) * n + iz) by (nonlinear_arith)
                    requires
                        idx == ((ix - 1) * n + (n - 1)) * n + (n - 1) + 1,
                        iy == 0,
                        iz == 0,
                ;
            }
        }
        proof {
            assert(idx == n * n * n) by (nonlinear_arith)
                requires
                    idx == (ix * n + iy) * n + iz,
                    ix == n,
                    iy == 0,
                    iz == 0,
            ;
        }
        r
    }
    /// Casts `ray` against the slope terrain of the collision variant: each
    /// voxel of the traversal is tested against the slope triangle of the
    /// voxel above it, for up to `MAX_VOXEL_DIST` steps.
    pub fn collide(&self, ray: Ray) -> (r: Option<Point>)
        requires
            ray.wf(),
        ensures
            r == collide_result(ray),
    {
        let mut st = walk_start_of(&ray);
        let mut i: i64 = 0;
        loop
            invariant
                ray.wf(),
                0 <= i <= MAX_VOXEL_DIST,
                st.0 == walk(ray, i as nat).0,
                (st.1.0 as int, st.1.1 as int, st.1.2 as int) == walk(ray, i as nat).1,
                forall|j: int|
                    0 <= j < i ==> (#[trigger] ray_triangle_hit(
                        ray,
                        slope_triangle(slope_voxel(walk(ray, j as nat).0)),
                    )) is None,
            decreases MAX_VOXEL_DIST - i,
        {
            proof {
                lemma_walk_bounded(ray, i as nat);
                lemma_voxel_of_bounds(ray.pos.x as int);
                lemma_voxel_of_bounds(ray.pos.y as int);
                lemma_voxel_of_bounds(ray.pos.z as int);
            }
            let v = Voxel { x: st.0.x, y: st.0.y + 1, z: st.0.z };
            let tri = slope_triangle_of(&v);
            match ray_triangle_collision(&ray, &tri) {
                Some(h) => {
                    proof {
                        lemma_slope_scan_skip(ray, i as int, MAX_VOXEL_DIST as int);
                    }
                    return handle_hit(&ray, h.0, h.1, 0);
                },
                None => {},
            }
            if i == MAX_VOXEL_DIST {
                proof {
                    lemma_slope_scan_skip(ray, i as int + 1, MAX_VOXEL_DIST as int);
                }
                return None;
            }
            st = walk_step_of(&ray, st, Ghost(i as nat));
            i = i + 1;
        }
    }
}

/// Distinct voxels within bounds have distinct keys.
pub proof fn lemma_key_injective(v: Voxel, w: Voxel)
    requires
        v.wf(),
        w.wf(),
        voxel_key(v) == voxel_key(w),
    ensures
        v == w,
{
    let m = 0x200_0000int;
    let (vx, vy, vz) = (v.x + 0x100_0000, v.y + 0x100_0000, v.z + 0x100_0000);
    let (wx, wy, wz) = (w.x + 0x100_0000, w.y + 0x100_0000, w.z + 0x100_0000);
    assert(0 <= (vx * m + vy) * m + vz) by (nonlinear_arith)
        requires
            0 <= vx < m,
            0 <= vy < m,
            0 <= vz < m,
            m == 0x200_0000int,
    ;
    assert(0 <= (wx * m + wy) * m + wz) by (nonlinear_arith)
        requires
            0 <= wx < m,
            0 <= wy < m,
            0 <= wz < m,
            m == 0x200_0000int,
    ;
    assert((vx * m + vy) * m + vz == (wx * m + wy) * m + wz);
    vstd::arithmetic::div_mod::lemma_fundamental_div_mod_converse(
        (vx * m + vy) * m + vz,
        m,
        vx * m + vy,
        vz,
    );
    vstd::arithmetic::div_mod::lemma_fundamental_div_mod_converse(
        (wx * m + wy) * m + wz,
        m,
        wx * m + wy,
        wz,
    );
    vstd::arithmetic::div_mod::lemma_fundamental_div_mod_converse(vx * m + vy, m, vx, vy);
    vstd::arithmetic::div_mod::lemma_fundamental_div_mod_converse(wx * m + wy, m, wx, wy);
}

/// The hit distance must be at least `1 / HIT_EPSILON_INV` of the direction's
/// length, so that a ray does not hit the surface it starts on.
pub const HIT_EPSILON_INV: i128 = 10000;

pub open spec fn diff(a: Point, b: Point) -> (int, int, int) {
    (a.x - b.x, a.y - b.y, a.z - b.z)
}

pub open spec fn as_vec(a: Point) -> (int, int, int) {
    (a.x as int, a.y as int, a.z as int)
}

pub open spec fn cross(u: (int, int, int), v: (int, int, int)) -> (int, int, int) {
    (u.1 * v.2 - u.2 * v.1, u.2 * v.0 - u.0 * v.2, u.0 * v.1 - u.1 * v.0)
}

pub open spec fn dot(u: (int, int, int), v: (int, int, int)) -> int {
    u.0 * v.0 + u.1 * v.1 + u.2 * v.2
}

/// `y`, negated when `neg` holds.
pub open spec fn signed_by(neg: bool, y: int) -> int {
    if neg {
        -y
    } else {
        y
    }
}

/// Where the ray meets the triangle, as a distance `num / den` along the
/// direction with `den > 0`: the Möller–Trumbore test in exact arithmetic.
/// A ray parallel to the triangle's plane (zero determinant), one that
/// passes outside the triangle, and one that meets it behind or too close
/// to its origin miss it.
pub open spec fn ray_triangle_hit(ray: Ray, t: Triangle) -> Option<(int, int)> {
    let e1 = diff(t.b, t.a);
    let e2 = diff(t.c, t.a);
    let d = as_vec(ray.dir);
    let p = cross(d, e2);
    let det = dot(e1, p);
    if det == 0 {
        None
    } else {
        let neg = det < 0;
        let den = signed_by(neg, det);
        let tv = diff(ray.pos, t.a);
        let u = signed_by(neg, dot(tv, p));
        if u < 0 || u > den {
            None
        } else {
            let q = cross(tv, e1);
            let v = signed_by(neg, dot(d, q));
            if v < 0 || u + v > den {
                None
            } else {
                let num = signed_by(neg, dot(e2, q));
                if num * HIT_EPSILON_INV < den {
                    None
                } else {
                    Some((num, den))
                }
            }
        }
    }
}

type Wide = (i128, i128, i128);

pub open spec fn wide(u: Wide) -> (int, int, int) {
    (u.0 as int, u.1 as int, u.2 as int)
}

pub open spec fn bounded(u: (int, int, int), b: int) -> bool {
    &&& -b <= u.0 <= b
    &&& -b <= u.1 <= b
    &&& -b <= u.2 <= b
}

fn diff_wide(a: &Point, b: &Point) -> (r: Wide)
    ensures
        wide(r) == diff(*a, *b),
{
    (a.x as i128 - b.x as i128, a.y as i128 - b.y as i128, a.z as i128 - b.z as i128)
}

fn cross_wide(u: Wide, v: Wide, Ghost(ub): Ghost<int>, Ghost(vb): Ghost<int>) -> (r: Wide)
    requires
        bounded(wide(u), ub),
        bounded(wide(v), vb),
        0 <= ub,
        0 <= vb,
        2 * (ub * vb) <= 0x4000_0000_0000_0000_0000_0000_0000_0000,
    ensures
        wide(r) == cross(wide(u), wide(v)),
        bounded(wide(r), 2 * (ub * vb)),
{
    proof {
        crate::geometry::lemma_mul_abs_le(u.1 as int, v.2 as int, ub, vb);
        crate::geometry::lemma_mul_abs_le(u.2 as int, v.1 as int, ub, vb);
        crate::geometry::lemma_mul_abs_le(u.2 as int, v.0 as int, ub, vb);
        crate::geometry::lemma_mul_abs_le(u.0 as int, v.2 as int, ub, vb);
        crate::geometry::lemma_mul_abs_le(u.0 as int, v.1 as int, ub, vb);
        crate::geometry::lemma_mul_abs_le(u.1 as int, v.0 as int, ub, vb);
    }
    (u.1 * v.2 - u.2 * v.1, u.2 * v.0 - u.0 * v.2, u.0 * v.1 - u.1 * v.0)
}

fn dot_wide(u: Wide, v: Wide, Ghost(ub): Ghost<int>, Ghost(vb): Ghost<int>) -> (r: i128)
    requires
        bounded(wide(u), ub),
        bounded(wide(v), vb),
        0 <= ub,
        0 <= vb,
        3 * (ub * vb) <= 0x4000_0000_0000_0000_0000_0000_0000_0000,
    ensures
        r == dot(wide(u), wide(v)),
        -(3 * (ub * vb)) <= r <= 3 * (ub * vb),
{
    proof {
        crate::geometry::lemma_mul_abs_le(u.0 as int, v.0 as int, ub, vb);
        crate::geometry::lemma_mul_abs_le(u.1 as int, v.1 as int, ub, vb);
        crate::geometry::lemma_mul_abs_le(u.2 as int, v.2 as int, ub, vb);
        let b = ub * vb;
        assert(-b <= u.0 * v.0 <= b);
        assert(-b <= u.1 * v.1 <= b);
        assert(-b <= u.2 * v.2 <= b);
        assert(-(3 * b) <= u.0 * v.0 + u.1 * v.1 + u.2 * v.2 <= 3 * b);
    }
    u.0 * v.0 + u.1 * v.1 + u.2 * v.2
}

/// `y`, negated when `neg` holds.
fn signed(neg: bool, y: i128) -> (r: i128)
    requires
        -0x4000_0000_0000_0000_0000_0000_0000_0000 <= y <= 0x4000_0000_0000_0000_0000_0000_0000_0000,
    ensures
        r == signed_by(neg, y as int),
        -0x4000_0000_0000_0000_0000_0000_0000_0000 <= r <= 0x4000_0000_0000_0000_0000_0000_0000_0000,
        neg ==> r == -y,
        !neg ==> r == y,
{
    if neg {
        -y
    } else {
        y
    }
}

/// The Möller–Trumbore test of `ray` against triangle `t`.
pub fn ray_triangle_collision(ray: &Ray, t: &Triangle) -> (r: Option<(i128, i128)>)
    requires
        ray.wf(),
        t.wf(),
    ensures
        r matches Some(h) ==> ray_triangle_hit(*ray, *t) == Some((h.0 as int, h.1 as int)),
        r is None ==> ray_triangle_hit(*ray, *t) is None,
        r matches Some(h) ==> 0 < h.1 && -0x1000_0000_0000_0000_0000_0000_0000 <= h.0
            <= 0x1000_0000_0000_0000_0000_0000_0000,
{
    let e1 = diff_wide(&t.b, &t.a);
    let e2 = diff_wide(&t.c, &t.a);
    let d = (ray.dir.x as i128, ray.dir.y as i128, ray.dir.z as i128);
    let p = cross_wide(d, e2, Ghost(0x1_0000int), Ghost(0x8_0000_0000int));
    let det = dot_wide(e1, p, Ghost(0x8_0000_0000int), Ghost(0x10_0000_0000_0000int));
    if det == 0 {
        return None;
    }
    let neg = det < 0;
    let den = signed(neg, det);
    let tv = diff_wide(&ray.pos, &t.a);
    let u = signed(neg, dot_wide(tv, p, Ghost(0x8_0000_0000int), Ghost(0x10_0000_0000_0000int)));
    if u < 0 || u > den {
        return None;
    }
    let q = cross_wide(tv, e1, Ghost(0x8_0000_0000int), Ghost(0x8_0000_0000int));
    let v = signed(neg, dot_wide(d, q, Ghost(0x1_0000int), Ghost(0x80_0000_0000_0000_0000int)));
    if v < 0 || u + v > den {
        return None;
    }
    let num = signed(
        neg,
        dot_wide(e2, q, Ghost(0x8_0000_0000int), Ghost(0x80_0000_0000_0000_0000int)),
    );
    if num * HIT_EPSILON_INV < den {
        return None;
    }
    Some((num, den))
}

/// The hit `h` lies strictly nearer along the ray than the hit `g`.
pub open spec fn nearer(h: (int, int), g: (int, int)) -> bool {
    h.0 * g.1 < g.0 * h.1
}

/// The nearest hit of the ray with the first `n` of `tris`, the earliest
/// of them on ties.
pub open spec fn nearest_upto(tris: Seq<Triangle>, ray: Ray, n: int) -> Option<(int, int)>
    decreases n,
{
    if n <= 0 {
        None
    } else {
        let b = nearest_upto(tris, ray, n - 1);
        match ray_triangle_hit(ray, tris[n - 1]) {
            None => b,
            Some(h) => match b {
                None => Some(h),
                Some(g) => if nearer(h, g) {
                    Some(h)
                } else {
                    b
                },
            },
        }
    }
}

/// The nearest hit of the ray with the triangles `tris`.
pub open spec fn nearest_hit(tris: Seq<Triangle>, ray: Ray) -> Option<(int, int)> {
    nearest_upto(tris, ray, tris.len() as int)
}

/// Both corners other than the first lie within one voxel size of it on
/// every axis.
pub open spec fn compact(t: Triangle) -> bool {
    &&& crate::geometry::abs(t.b.x - t.a.x) <= VOXEL_SIZE
    &&& crate::geometry::abs(t.b.y - t.a.y) <= VOXEL_SIZE
    &&& crate::geometry::abs(t.b.z - t.a.z) <= VOXEL_SIZE
    &&& crate::geometry::abs(t.c.x - t.a.x) <= VOXEL_SIZE
    &&& crate::geometry::abs(t.c.y - t.a.y) <= VOXEL_SIZE
    &&& crate::geometry::abs(t.c.z - t.a.z) <= VOXEL_SIZE
}

proof fn lemma_cross_bound(u: (int, int, int), v: (int, int, int), ub: int, vb: int)
    requires
        bounded(u, ub),
        bounded(v, vb),
    ensures
        bounded(cross(u, v), 2 * (ub * vb)),
{
    crate::geometry::lemma_mul_abs_le(u.1, v.2, ub, vb);
    crate::geometry::lemma_mul_abs_le(u.2, v.1, ub, vb);
    crate::geometry::lemma_mul_abs_le(u.2, v.0, ub, vb);
    crate::geometry::lemma_mul_abs_le(u.0, v.2, ub, vb);
    crate::geometry::lemma_mul_abs_le(u.0, v.1, ub, vb);
    crate::geometry::lemma_mul_abs_le(u.1, v.0, ub, vb);
}

proof fn lemma_dot_bound(u: (int, int, int), v: (int, int, int), ub: int, vb: int)
    requires
        bounded(u, ub),
        bounded(v, vb),
    ensures
        -(3 * (ub * vb)) <= dot(u, v) <= 3 * (ub * vb),
{
    crate::geometry::lemma_mul_abs_le(u.0, v.0, ub, vb);
    crate::geometry::lemma_mul_abs_le(u.1, v.1, ub, vb);
    crate::geometry::lemma_mul_abs_le(u.2, v.2, ub, vb);
}

/// A hit on a compact triangle has a small distance fraction.
proof fn lemma_compact_hit_bounds(ray: Ray, t: Triangle)
    requires
        ray.wf(),
        t.wf(),
        compact(t),
    ensures
        ray_triangle_hit(ray, t) matches Some(h) ==> 0 < h.1 <= 0x80_0000_0000 && -0x400_0000_0000_0000
            <= h.0 <= 0x400_0000_0000_0000,
{
    let e1 = diff(t.b, t.a);
    let e2 = diff(t.c, t.a);
    let d = as_vec(ray.dir);
    let tv = diff(ray.pos, t.a);
    lemma_cross_bound(d, e2, 0x1_0000, 0x400);
    let p = cross(d, e2);
    lemma_dot_bound(e1, p, 0x400, 0x800_0000);
    lemma_cross_bound(tv, e1, 0x8_0000_0000, 0x400);
    let q = cross(tv, e1);
    lemma_dot_bound(e2, q, 0x400, 0x4000_0000_0000);
}

/// The nearest of the hits of the ray with `tris`, the earliest on ties.
fn tris_collision(tris: &Vec<Triangle>, ray: &Ray) -> (r: Option<(i128, i128)>)
    requires
        ray.wf(),
        forall|i: int| 0 <= i < tris@.len() ==> (#[trigger] tris@[i]).wf() && compact(tris@[i]),
    ensures
        r matches Some(h) ==> nearest_hit(tris@, *ray) == Some((h.0 as int, h.1 as int)),
        r is None ==> nearest_hit(tris@, *ray) is None,
        r matches Some(h) ==> 0 < h.1 && -0x1000_0000_0000_0000_0000_0000_0000 <= h.0
            <= 0x1000_0000_0000_0000_0000_0000_0000,
{
    let mut best: Option<(i128, i128)> = None;
    let mut i: usize = 0;
    while i < tris.len()
        invariant
            ray.wf(),
            i <= tris@.len(),
            forall|j: int| 0 <= j < tris@.len() ==> (#[trigger] tris@[j]).wf() && compact(tris@[j]),
            best matches Some(g) ==> nearest_upto(tris@, *ray, i as int) == Some((g.0 as int, g.1 as int))
                && 0 < g.1 <= 0x80_0000_0000 && -0x400_0000_0000_0000 <= g.0 <= 0x400_0000_0000_0000,
            best is None ==> nearest_upto(tris@, *ray, i as int) is None,
        decreases tris@.len() - i,
    {
        proof {
            lemma_compact_hit_bounds(*ray, tris@[i as int]);
        }
        match ray_triangle_collision(ray, &tris[i]) {
            Some(h) => {
                match best {
                    None => {
                        best = Some(h);
                    },
                    Some(g) => {
                        proof {
                            crate::geometry::lemma_mul_abs_le(h.0 as int, g.1 as int, 0x400_0000_0000_0000, 0x80_0000_0000);
                            crate::geometry::lemma_mul_abs_le(g.0 as int, h.1 as int, 0x400_0000_0000_0000, 0x80_0000_0000);
                        }
                        if h.0 * g.1 < g.0 * h.1 {
                            best = Some(h);
                        }
                    },
                }
            },
            None => {},
        }
        i = i + 1;
    }
    best
}

pub open spec fn fits_i64(x: int) -> bool {
    i64::MIN <= x <= i64::MAX
}

/// The point at distance `num / den` along the ray, rounded down on each axis.
pub open spec fn hit_point(ray: Ray, num: int, den: int) -> (int, int, int) {
    (
        ray.pos.x + (ray.dir.x * num) / den,
        ray.pos.y + (ray.dir.y * num) / den,
        ray.pos.z + (ray.dir.z * num) / den,
    )
}

/// What a raycast returns for a hit at `num / den`: the hit point, unless
/// `max_distance` is positive and the point lies farther than it from the
/// origin (or the point cannot be represented).
pub open spec fn accept_hit(ray: Ray, num: int, den: int, max_distance: int) -> Option<Point> {
    let h = hit_point(ray, num, den);
    let dx = h.0 - ray.pos.x;
    let dy = h.1 - ray.pos.y;
    let dz = h.2 - ray.pos.z;
    if !(fits_i64(h.0) && fits_i64(h.1) && fits_i64(h.2)) {
        None
    } else if max_distance <= 0 || dx * dx + dy * dy + dz * dz <= max_distance * max_distance {
        Some(Point { x: h.0 as i64, y: h.1 as i64, z: h.2 as i64 })
    } else {
        None
    }
}

/// `n / d` rounded down.
fn floor_div(n: i128, d: i128) -> (r: i128)
    requires
        d > 0,
        -0x4000_0000_0000_0000_0000_0000_0000_0000 <= n <= 0x4000_0000_0000_0000_0000_0000_0000_0000,
    ensures
        r == n / d,
{
    if n >= 0 {
        let q = ((n as u128) / (d as u128)) as i128;
        q
    } else {
        let m = (-n) as u128;
        let du = d as u128;
        let q = (m + du - 1) / du;
        proof {
            let mi = m as int;
            let di = du as int;
            vstd::arithmetic::div_mod::lemma_fundamental_div_mod(mi + di - 1, di);
            vstd::arithmetic::div_mod::lemma_mod_bound(mi + di - 1, di);
            let qi = (mi + di - 1) / di;
            let ri = (mi + di - 1) % di;
            assert((-qi) * di + (di * qi - mi) == -mi) by (nonlinear_arith);
            vstd::arithmetic::div_mod::lemma_fundamental_div_mod_converse(
                n as int,
                di,
                -qi,
                di * qi - mi,
            );
            assert(qi >= 0) by {
                vstd::arithmetic::div_mod::lemma_div_pos_is_pos(mi + di - 1, di);
            }
            assert(qi <= mi) by {
                if qi > mi {
                    vstd::arithmetic::mul::lemma_mul_inequality(mi + 1, qi, di);
                    vstd::arithmetic::mul::lemma_mul_is_commutative(qi, di);
                    assert((mi + 1) * di == mi * di + di) by (nonlinear_arith);
                    assert(mi * di >= mi) by (nonlinear_arith)
                        requires
                            mi >= 0,
                            di >= 1,
                    ;
                }
            }
        }
        -(q as i128)
    }
}

fn sq_u128(a: i128) -> (r: u128)
    requires
        -0x8000_0000_0000_0000 <= a <= 0x8000_0000_0000_0000,
    ensures
        r == a * a,
        r <= 0x4000_0000_0000_0000_0000_0000_0000_0000,
{
    let m: u128 = if a < 0 {
        (-a) as u128
    } else {
        a as u128
    };
    proof {
        vstd::arithmetic::mul::lemma_mul_upper_bound(
            m as int,
            0x8000_0000_0000_0000,
            m as int,
            0x8000_0000_0000_0000,
        );
        vstd::arithmetic::mul::lemma_mul_cancels_negatives(a as int, a as int);
    }
    m * m
}

/// The raycast result for a hit at `num / den`.
fn handle_hit(ray: &Ray, num: i128, den: i128, max_distance: i64) -> (r: Option<Point>)
    requires
        ray.wf(),
        den > 0,
        -0x1000_0000_0000_0000_0000_0000_0000 <= num <= 0x1000_0000_0000_0000_0000_0000_0000,
    ensures
        r == accept_hit(*ray, num as int, den as int, max_distance as int),
{
    proof {
        crate::geometry::lemma_mul_abs_le(ray.dir.x as int, num as int, 0x1_0000, 0x1000_0000_0000_0000_0000_0000_0000);
        crate::geometry::lemma_mul_abs_le(ray.dir.y as int, num as int, 0x1_0000, 0x1000_0000_0000_0000_0000_0000_0000);
        crate::geometry::lemma_mul_abs_le(ray.dir.z as int, num as int, 0x1_0000, 0x1000_0000_0000_0000_0000_0000_0000);
    }
    let qx = floor_div(ray.dir.x as i128 * num, den);
    let qy = floor_div(ray.dir.y as i128 * num, den);
    let qz = floor_div(ray.dir.z as i128 * num, den);
    proof {
        lemma_div_bound(ray.dir.x as int * num as int, den as int);
        lemma_div_bound(ray.dir.y as int * num as int, den as int);
        lemma_div_bound(ray.dir.z as int * num as int, den as int);
    }
    let hx = ray.pos.x as i128 + qx;
    let hy = ray.pos.y as i128 + qy;
    let hz = ray.pos.z as i128 + qz;
    let lo = i64::MIN as i128;
    let hi = i64::MAX as i128;
    if hx < lo || hx > hi || hy < lo || hy > hi || hz < lo || hz > hi {
        return None;
    }
    let hit = Point { x: hx as i64, y: hy as i64, z: hz as i64 };
    if max_distance <= 0 {
        return Some(hit);
    }
    let m = max_distance as i128;
    if qx > m || qx < -m || qy > m || qy < -m || qz > m || qz < -m {
        proof {
            let mi = max_distance as int;
            assert(qx * qx + qy * qy + qz * qz > mi * mi) by (nonlinear_arith)
                requires
                    mi > 0,
                    qx > mi || qx < -mi || qy > mi || qy < -mi || qz > mi || qz < -mi,
            ;
        }
        return None;
    }
    let d2 = sq_u128(qx) + sq_u128(qy) + sq_u128(qz);
    let m2 = sq_u128(m);
    if d2 <= m2 {
        Some(hit)
    } else {
        None
    }
}

/// Dividing by a positive number does not increase the magnitude.
proof fn lemma_div_bound(n: int, d: int)
    requires
        d > 0,
    ensures
        n >= 0 ==> 0 <= n / d <= n,
        n < 0 ==> n <= n / d <= 0,
{
    vstd::arithmetic::div_mod::lemma_fundamental_div_mod(n, d);
    vstd::arithmetic::div_mod::lemma_mod_bound(n, d);
    let q = n / d;
    let r = n % d;
    if q > 0 {
        vstd::arithmetic::mul::lemma_mul_inequality(1, d, q);
        vstd::arithmetic::mul::lemma_mul_is_commutative(d, q);
    }
    if q < 0 {
        assert((d - 1) * (q + 1) <= 0) by (nonlinear_arith)
            requires
                d >= 1,
                q <= -1,
        ;
        assert((d - 1) * (q + 1) == d * q + d - q - 1) by (nonlinear_arith);
    }
    if q >= 0 && n < 0 {
        assert(d * q >= 0) by (nonlinear_arith)
            requires
                d >= 1,
                q >= 0,
        ;
    }
}

/// Voxels a raycast walks through at least, past its origin voxel.
pub const MAX_RAY_DIST: i64 = 300;

/// Voxels a raycast walks through at most.
pub const STEP_LIMIT: i64 = 4194304;

/// How many voxels a raycast steps through after its origin voxel: at least
/// `MAX_RAY_DIST`, and far enough to reach `max_distance` where that is
/// positive, up to `STEP_LIMIT`.
pub open spec fn step_count(max_distance: int) -> int {
    if max_distance <= 0 {
        MAX_RAY_DIST as int
    } else {
        let reach = (max_distance + VOXEL_SIZE - 1) / (VOXEL_SIZE as int);
        if reach <= MAX_RAY_DIST {
            MAX_RAY_DIST as int
        } else if reach >= STEP_LIMIT {
            STEP_LIMIT as int
        } else {
            reach
        }
    }
}

/// The voxel holding position `p`.
pub open spec fn voxel_of(p: Point) -> Voxel {
    Voxel {
        x: (p.x as int / VOXEL_SIZE as int) as i64,
        y: (p.y as int / VOXEL_SIZE as int) as i64,
        z: (p.z as int / VOXEL_SIZE as int) as i64,
    }
}

/// Distance along one axis from `p` to the boundary of voxel coordinate `v`
/// that a ray with direction component `d` crosses next (zero where `d` is
/// zero). Divided by `|d|` it is the ray parameter of that crossing.
pub open spec fn boundary(p: int, d: int, v: int) -> int {
    if d > 0 {
        (v + 1) * VOXEL_SIZE - p
    } else if d < 0 {
        p - v * VOXEL_SIZE
    } else {
        0
    }
}

/// The crossing `na / |da|` comes no later than `nb / |db|`; an axis along
/// which the ray does not move is never crossed.
pub open spec fn earlier(na: int, da: int, nb: int, db: int) -> bool {
    if da == 0 {
        db == 0
    } else if db == 0 {
        true
    } else {
        na * crate::geometry::abs(db) <= nb * crate::geometry::abs(da)
    }
}

pub open spec fn step_sign(d: int) -> int {
    if d < 0 {
        -1
    } else {
        1
    }
}

/// Where a traversal stands: the current voxel, and for each axis the
/// numerator of the ray parameter at which it crosses into the next voxel.
pub open spec fn walk_start(ray: Ray) -> (Voxel, (int, int, int)) {
    let v = voxel_of(ray.pos);
    (
        v,
        (
            boundary(ray.pos.x as int, ray.dir.x as int, v.x as int),
            boundary(ray.pos.y as int, ray.dir.y as int, v.y as int),
            boundary(ray.pos.z as int, ray.dir.z as int, v.z as int),
        ),
    )
}

/// One step of the traversal: every axis whose next crossing comes first
/// (all of them on ties) moves on by one voxel.
pub open spec fn walk_step(ray: Ray, st: (Voxel, (int, int, int))) -> (Voxel, (int, int, int)) {
    let (v, n) = st;
    let (dx, dy, dz) = (ray.dir.x as int, ray.dir.y as int, ray.dir.z as int);
    let ax = dx != 0 && earlier(n.0, dx, n.1, dy) && earlier(n.0, dx, n.2, dz);
    let ay = dy != 0 && earlier(n.1, dy, n.0, dx) && earlier(n.1, dy, n.2, dz);
    let az = dz != 0 && earlier(n.2, dz, n.0, dx) && earlier(n.2, dz, n.1, dy);
    (
        Voxel {
            x: if ax { (v.x + step_sign(dx)) as i64 } else { v.x },
            y: if ay { (v.y + step_sign(dy)) as i64 } else { v.y },
            z: if az { (v.z + step_sign(dz)) as i64 } else { v.z },
        },
        (
            if ax { n.0 + VOXEL_SIZE } else { n.0 },
            if ay { n.1 + VOXEL_SIZE } else { n.1 },
            if az { n.2 + VOXEL_SIZE } else { n.2 },
        ),
    )
}

/// The traversal after `k` steps.
pub open spec fn walk(ray: Ray, k: nat) -> (Voxel, (int, int, int))
    decreases k,
{
    if k == 0 {
        walk_start(ray)
    } else {
        walk_step(ray, walk(ray, (k - 1) as nat))
    }
}

/// The first hit in the voxels of steps `k..=steps` of the traversal, by
/// the triangles `cache` holds for them; none past a voxel it lacks.
pub open spec fn scan(cache: Map<u128, Seq<Triangle>>, ray: Ray, k: int, steps: int) -> Option<
    (int, int),
>
    decreases steps + 1 - k,
{
    if k < 0 || k > steps {
        None
    } else {
        let key = voxel_key(walk(ray, k as nat).0);
        if !cache.contains_key(key) {
            None
        } else {
            match nearest_hit(cache[key], ray) {
                Some(h) => Some(h),
                None => scan(cache, ray, k + 1, steps),
            }
        }
    }
}

/// What a raycast returns once `cache` holds the voxels it walked through:
/// the nearest hit along the traversal, judged against `max_distance`.
pub open spec fn raycast_result(cache: Map<u128, Seq<Triangle>>, ray: Ray, max_distance: int) -> Option<Point> {
    match scan(cache, ray, 0, step_count(max_distance)) {
        Some(h) => accept_hit(ray, h.0, h.1, max_distance),
        None => None,
    }
}

/// `c2` keeps every entry of `c1`.
pub open spec fn extends(c1: Map<u128, Seq<Triangle>>, c2: Map<u128, Seq<Triangle>>) -> bool {
    forall|k: u128| #[trigger] c1.contains_key(k) ==> c2.contains_key(k) && c2[k] == c1[k]
}

pub open spec fn walk_bounded(ray: Ray, k: nat) -> bool {
    let (v, n) = walk(ray, k);
    let v0 = voxel_of(ray.pos);
    &&& v0.x - k <= v.x <= v0.x + k
    &&& v0.y - k <= v.y <= v0.y + k
    &&& v0.z - k <= v.z <= v0.z + k
    &&& 0 <= n.0 <= VOXEL_SIZE * (k + 1)
    &&& 0 <= n.1 <= VOXEL_SIZE * (k + 1)
    &&& 0 <= n.2 <= VOXEL_SIZE * (k + 1)
}

proof fn lemma_voxel_of_bounds(p: int)
    requires
        -COORD_LIMIT <= p <= COORD_LIMIT,
    ensures
        -0x10_0000 <= p / (VOXEL_SIZE as int) <= 0x10_0000,
        (p / (VOXEL_SIZE as int)) * VOXEL_SIZE <= p < (p / (VOXEL_SIZE as int)) * VOXEL_SIZE
            + VOXEL_SIZE,
{
    vstd::arithmetic::div_mod::lemma_fundamental_div_mod(p, VOXEL_SIZE as int);
    vstd::arithmetic::div_mod::lemma_mod_bound(p, VOXEL_SIZE as int);
    vstd::arithmetic::mul::lemma_mul_is_commutative(p / (VOXEL_SIZE as int), VOXEL_SIZE as int);
}

proof fn lemma_walk_bounded(ray: Ray, k: nat)
    requires
        ray.wf(),
        k <= STEP_LIMIT,
    ensures
        walk_bounded(ray, k),
    decreases k,
{
    lemma_voxel_of_bounds(ray.pos.x as int);
    lemma_voxel_of_bounds(ray.pos.y as int);
    lemma_voxel_of_bounds(ray.pos.z as int);
    if k > 0 {
        lemma_walk_bounded(ray, (k - 1) as nat);
        assert(VOXEL_SIZE * (k as int) + VOXEL_SIZE == VOXEL_SIZE * (k + 1));
        assert(VOXEL_SIZE * ((k - 1) as nat + 1) == VOXEL_SIZE * (k as int));
    } else {
        let v = voxel_of(ray.pos);
        assert((v.x as int) * VOXEL_SIZE == (ray.pos.x as int / (VOXEL_SIZE as int)) * VOXEL_SIZE);
    }
}

/// The voxels of the first `STEP_LIMIT` steps are within bounds.
proof fn lemma_walk_voxel_wf(ray: Ray, k: nat)
    requires
        ray.wf(),
        k <= STEP_LIMIT,
    ensures
        walk(ray, k).0.wf(),
        0 <= walk(ray, k).1.0 <= 0x4_0000_0000,
        0 <= walk(ray, k).1.1 <= 0x4_0000_0000,
        0 <= walk(ray, k).1.2 <= 0x4_0000_0000,
{
    lemma_walk_bounded(ray, k);
    lemma_voxel_of_bounds(ray.pos.x as int);
    lemma_voxel_of_bounds(ray.pos.y as int);
    lemma_voxel_of_bounds(ray.pos.z as int);
    assert(VOXEL_SIZE * (k + 1) <= 0x4_0000_0000) by (nonlinear_arith)
        requires
            k <= STEP_LIMIT,
    ;
}

/// The traversal where it starts.
fn walk_start_of(ray: &Ray) -> (r: (Voxel, (i64, i64, i64)))
    requires
        ray.wf(),
    ensures
        r.0 == walk(*ray, 0).0,
        (r.1.0 as int, r.1.1 as int, r.1.2 as int) == walk(*ray, 0).1,
{
    proof {
        lemma_walk_bounded(*ray, 0);
        lemma_voxel_of_bounds(ray.pos.x as int);
        lemma_voxel_of_bounds(ray.pos.y as int);
        lemma_voxel_of_bounds(ray.pos.z as int);
    }
    let vx = floor_div(ray.pos.x as i128, VOXEL_SIZE as i128) as i64;
    let vy = floor_div(ray.pos.y as i128, VOXEL_SIZE as i128) as i64;
    let vz = floor_div(ray.pos.z as i128, VOXEL_SIZE as i128) as i64;
    let v = Voxel { x: vx, y: vy, z: vz };
    (
        v,
        (
            boundary_of(ray.pos.x, ray.dir.x, vx),
            boundary_of(ray.pos.y, ray.dir.y, vy),
            boundary_of(ray.pos.z, ray.dir.z, vz),
        ),
    )
}

fn boundary_of(p: i64, d: i64, v: i64) -> (r: i64)
    requires
        -COORD_LIMIT <= p <= COORD_LIMIT,
        v * VOXEL_SIZE <= p < v * VOXEL_SIZE + VOXEL_SIZE,
    ensures
        r == boundary(p as int, d as int, v as int),
{
    if d > 0 {
        (v + 1) * VOXEL_SIZE - p
    } else if d < 0 {
        p - v * VOXEL_SIZE
    } else {
        0
    }
}

fn earlier_of(na: i64, da: i64, nb: i64, db: i64) -> (r: bool)
    requires
        0 <= na <= 0x4_0000_0000,
        0 <= nb <= 0x4_0000_0000,
        -DIR_LIMIT <= da <= DIR_LIMIT,
        -DIR_LIMIT <= db <= DIR_LIMIT,
    ensures
        r == earlier(na as int, da as int, nb as int, db as int),
{
    if da == 0 {
        db == 0
    } else if db == 0 {
        true
    } else {
        let ada: i64 = if da < 0 {
            -da
        } else {
            da
        };
        let adb: i64 = if db < 0 {
            -db
        } else {
            db
        };
        proof {
            vstd::arithmetic::mul::lemma_mul_upper_bound(na as int, 0x4_0000_0000, adb as int, 0x1_0000);
            vstd::arithmetic::mul::lemma_mul_upper_bound(nb as int, 0x4_0000_0000, ada as int, 0x1_0000);
            vstd::arithmetic::mul::lemma_mul_nonnegative(na as int, adb as int);
            vstd::arithmetic::mul::lemma_mul_nonnegative(nb as int, ada as int);
        }
        na * adb <= nb * ada
    }
}

/// One step of the traversal.
fn walk_step_of(ray: &Ray, st: (Voxel, (i64, i64, i64)), Ghost(k): Ghost<nat>) -> (r: (
    Voxel,
    (i64, i64, i64),
))
    requires
        ray.wf(),
        k < STEP_LIMIT,
        st.0 == walk(*ray, k).0,
        (st.1.0 as int, st.1.1 as int, st.1.2 as int) == walk(*ray, k).1,
    ensures
        r.0 == walk(*ray, k + 1).0,
        (r.1.0 as int, r.1.1 as int, r.1.2 as int) == walk(*ray, k + 1).1,
{
    proof {
        lemma_walk_voxel_wf(*ray, k);
        lemma_walk_voxel_wf(*ray, k + 1);
    }
    let (v, n) = st;
    let (dx, dy, dz) = (ray.dir.x, ray.dir.y, ray.dir.z);
    let ax = dx != 0 && earlier_of(n.0, dx, n.1, dy) && earlier_of(n.0, dx, n.2, dz);
    let ay = dy != 0 && earlier_of(n.1, dy, n.0, dx) && earlier_of(n.1, dy, n.2, dz);
    let az = dz != 0 && earlier_of(n.2, dz, n.0, dx) && earlier_of(n.2, dz, n.1, dy);
    let sx: i64 = if dx < 0 {
        -1
    } else {
        1
    };
    let sy: i64 = if dy < 0 {
        -1
    } else {
        1
    };
    let sz: i64 = if dz < 0 {
        -1
    } else {
        1
    };
    (
        Voxel {
            x: if ax {
                v.x + sx
            } else {
                v.x
            },
            y: if ay {
                v.y + sy
            } else {
                v.y
            },
            z: if az {
                v.z + sz
            } else {
                v.z
            },
        },
        (
            if ax {
                n.0 + VOXEL_SIZE
            } else {
                n.0
            },
            if ay {
                n.1 + VOXEL_SIZE
            } else {
                n.1
            },
            if az {
                n.2 + VOXEL_SIZE
            } else {
                n.2
            },
        ),
    )
}

fn step_count_of(max_distance: i64) -> (r: i64)
    ensures
        r == step_count(max_distance as int),
        MAX_RAY_DIST <= r <= STEP_LIMIT,
{
    if max_distance <= 0 {
        MAX_RAY_DIST
    } else {
        let reach = ((max_distance as i128 + VOXEL_SIZE as i128 - 1) / VOXEL_SIZE as i128);
        if reach <= MAX_RAY_DIST as i128 {
            MAX_RAY_DIST
        } else if reach >= STEP_LIMIT as i128 {
            STEP_LIMIT
        } else {
            reach as i64
        }
    }
}

/// Once the traversal's first `k` voxels are cached without a hit, the
/// scan goes on from step `k`.
proof fn lemma_scan_skip(cache: Map<u128, Seq<Triangle>>, ray: Ray, k: int, steps: int)
    requires
        0 <= k <= steps + 1,
        forall|j: int|
            0 <= j < k ==> cache.contains_key(#[trigger] voxel_key(walk(ray, j as nat).0))
                && nearest_hit(cache[voxel_key(walk(ray, j as nat).0)], ray) is None,
    ensures
        scan(cache, ray, 0, steps) == scan(cache, ray, k, steps),
    decreases k,
{
    if k > 0 {
        lemma_scan_skip(cache, ray, k - 1, steps);
        assert(cache.contains_key(voxel_key(walk(ray, (k - 1) as nat).0)));
    }
}

/// Largest radius a neighbourhood query may ask for.
pub const RETRIEVE_LIMIT: i64 = 65536;

/// The neighbourhood radius, in voxels, of a query with radius `dist`: `dist`
/// divided by the voxel size, rounded up.
pub open spec fn reach_of(dist: int) -> int {
    -((-dist) / (VOXEL_SIZE as int))
}

/// Voxel number `idx` of the cube of voxels within `off` of `base` on each
/// axis, numbered with `x` slowest and `z` fastest.
pub open spec fn neighbor(base: Voxel, off: int, idx: int) -> Voxel {
    let n = 2 * off + 1;
    Voxel {
        x: (base.x - off + (idx / n) / n) as i64,
        y: (base.y - off + (idx / n) % n) as i64,
        z: (base.z - off + idx % n) as i64,
    }
}

/// The triangles `cache` holds for the first `m` voxels of the neighbourhood,
/// one voxel after the other.
pub open spec fn gather(cache: Map<u128, Seq<Triangle>>, base: Voxel, off: int, m: int) -> Seq<
    Triangle,
>
    decreases m,
{
    if m <= 0 {
        Seq::empty()
    } else {
        gather(cache, base, off, m - 1) + cache[voxel_key(neighbor(base, off, m - 1))]
    }
}

/// The number of voxels in the neighbourhood of radius `off`.
pub open spec fn neighborhood_size(off: int) -> int {
    if off < 0 {
        0
    } else {
        (2 * off + 1) * (2 * off + 1) * (2 * off + 1)
    }
}

/// The first `m` voxels of the neighbourhood are cached.
pub open spec fn gathered(cache: Map<u128, Seq<Triangle>>, base: Voxel, off: int, m: int) -> bool {
    forall|j: int| 0 <= j < m ==> #[trigger] cache.contains_key(voxel_key(neighbor(base, off, j)))
}

/// A later cache that keeps a region's entries gives the region the same
/// triangles.
proof fn lemma_gather_stable(
    c1: Map<u128, Seq<Triangle>>,
    c2: Map<u128, Seq<Triangle>>,
    base: Voxel,
    off: int,
    m: int,
)
    requires
        gathered(c1, base, off, m),
        extends(c1, c2),
    ensures
        gather(c1, base, off, m) == gather(c2, base, off, m),
    decreases m,
{
    if m > 0 {
        lemma_gather_stable(c1, c2, base, off, m - 1);
        assert(c1.contains_key(voxel_key(neighbor(base, off, m - 1))));
    }
}

/// Retrieving the same region twice gives the same triangles: a second
/// retrieval runs on a cache that extends the one the first left, which
/// already held every voxel of the region.
pub proof fn lemma_retrieve_idempotent(
    first: Map<u128, Seq<Triangle>>,
    second: Map<u128, Seq<Triangle>>,
    center: Point,
    dist: int,
)
    requires
        gathered(first, voxel_of(center), reach_of(dist), neighborhood_size(reach_of(dist))),
        extends(first, second),
    ensures
        gather(first, voxel_of(center), reach_of(dist), neighborhood_size(reach_of(dist)))
            == gather(second, voxel_of(center), reach_of(dist), neighborhood_size(reach_of(dist))),
{
    lemma_gather_stable(
        first,
        second,
        voxel_of(center),
        reach_of(dist),
        neighborhood_size(reach_of(dist)),
    );
}

/// Every one of the first `n` samples lies below the surface threshold.
pub open spec fn all_below(s: Seq<u32>, n: int) -> bool {
    forall|i: int| 0 <= i < n ==> #[trigger] s[i] < SURFACE_THRESHOLD
}

/// None of the first `n` samples lies below the surface threshold.
pub open spec fn none_below(s: Seq<u32>, n: int) -> bool {
    forall|i: int| 0 <= i < n ==> #[trigger] s[i] >= SURFACE_THRESHOLD
}

proof fn lemma_config_extremes(s: Seq<u32>, n: int)
    requires
        0 <= n <= 8,
    ensures
        config_upto(s, n) == 0 <==> none_below(s, n),
        config_upto(s, n) == vstd::arithmetic::power2::pow2(n as nat) - 1 <==> all_below(s, n),
    decreases n,
{
    vstd::arithmetic::power2::lemma_pow2_pos(n as nat);
    if n > 0 {
        lemma_config_extremes(s, n - 1);
        lemma_config_bound(s, n - 1);
        vstd::arithmetic::power2::lemma_pow2_unfold(n as nat);
        vstd::arithmetic::power2::lemma_pow2_pos((n - 1) as nat);
        if !none_below(s, n) && none_below(s, n - 1) {
            assert(s[n - 1] < SURFACE_THRESHOLD);
        }
        if !all_below(s, n) && all_below(s, n - 1) {
            assert(s[n - 1] >= SURFACE_THRESHOLD);
        }
    } else {
        vstd::arithmetic::power2::lemma2_to64();
    }
}

/// A voxel's surface is empty exactly when its eight corner samples all lie
/// on the same side of the threshold.
pub proof fn lemma_surface_empty_iff_uniform(table: Seq<Seq<u8>>, v: Voxel, s: Seq<u32>)
    requires
        table_ok(table),
        s.len() == 8,
    ensures
        surface(table, v, s).len() == 0 <==> (all_below(s, 8) || none_below(s, 8)),
{
    lemma_config_extremes(s, 8);
    lemma_config_bound(s, 8);
    vstd::arithmetic::power2::lemma2_to64();
    let c = config_of(s);
    assert(row_ok(table[c]));
    assert(table[c].len() == 0 <==> (c == 0 || c == 255));
}

/// A ray whose origin voxel already holds a hit returns that hit, judged
/// against `max_distance`, before the traversal moves on.
pub proof fn lemma_origin_voxel_hit(
    cache: Map<u128, Seq<Triangle>>,
    ray: Ray,
    max_distance: int,
    num: int,
    den: int,
)
    requires
        cache.contains_key(voxel_key(voxel_of(ray.pos))),
        nearest_hit(cache[voxel_key(voxel_of(ray.pos))], ray) == Some((num, den)),
    ensures
        raycast_result(cache, ray, max_distance) == accept_hit(ray, num, den, max_distance),
{
    assert(walk(ray, 0).0 == voxel_of(ray.pos));
    assert(step_count(max_distance) >= 0);
}

/// Voxels the collision query steps through after its first one.
pub const MAX_VOXEL_DIST: i64 = 1000;

/// The voxel whose slope triangle the collision query tests at voxel `v`
/// of its traversal: the one above it.
pub open spec fn slope_voxel(v: Voxel) -> Voxel {
    Voxel { x: v.x, y: (v.y + 1) as i64, z: v.z }
}

/// The slope triangle of voxel `v`: from the middle of its lower front
/// edge down to the far corners of the voxel below.
pub open spec fn slope_triangle(v: Voxel) -> Triangle {
    Triangle {
        a: Point {
            x: (v.x * VOXEL_SIZE + VOXEL_SIZE / 2) as i64,
            y: (v.y * VOXEL_SIZE) as i64,
            z: (v.z * VOXEL_SIZE) as i64,
        },
        b: Point {
            x: ((v.x + 1) * VOXEL_SIZE) as i64,
            y: ((v.y - 1) * VOXEL_SIZE) as i64,
            z: ((v.z + 1) * VOXEL_SIZE) as i64,
        },
        c: Point {
            x: (v.x * VOXEL_SIZE) as i64,
            y: ((v.y - 1) * VOXEL_SIZE) as i64,
            z: ((v.z + 1) * VOXEL_SIZE) as i64,
        },
    }
}

/// The first hit of the ray with the slope triangles of the voxels of steps
/// `k..=steps` of its traversal.
pub open spec fn slope_scan(ray: Ray, k: int, steps: int) -> Option<(int, int)>
    decreases steps + 1 - k,
{
    if k < 0 || k > steps {
        None
    } else {
        match ray_triangle_hit(ray, slope_triangle(slope_voxel(walk(ray, k as nat).0))) {
            Some(h) => Some(h),
            None => slope_scan(ray, k + 1, steps),
        }
    }
}

/// What the collision query returns: the first slope hit along the
/// traversal, at any distance.
pub open spec fn collide_result(ray: Ray) -> Option<Point> {
    match slope_scan(ray, 0, MAX_VOXEL_DIST as int) {
        Some(h) => accept_hit(ray, h.0, h.1, 0),
        None => None,
    }
}

proof fn lemma_slope_scan_skip(ray: Ray, k: int, steps: int)
    requires
        0 <= k <= steps + 1,
        forall|j: int|
            0 <= j < k ==> (#[trigger] ray_triangle_hit(
                ray,
                slope_triangle(slope_voxel(walk(ray, j as nat).0)),
            )) is None,
    ensures
        slope_scan(ray, 0, steps) == slope_scan(ray, k, steps),
    decreases k,
{
    if k > 0 {
        lemma_slope_scan_skip(ray, k - 1, steps);
        assert(ray_triangle_hit(ray, slope_triangle(slope_voxel(walk(ray, (k - 1) as nat).0))) is None);
    }
}

fn slope_triangle_of(v: &Voxel) -> (r: Triangle)
    requires
        -0x20_0000 <= v.x <= 0x20_0000,
        -0x20_0000 <= v.y <= 0x20_0000,
        -0x20_0000 <= v.z <= 0x20_0000,
    ensures
        r == slope_triangle(*v),
        r.wf(),
{
    Triangle {
        a: Point { x: v.x * VOXEL_SIZE + VOXEL_SIZE / 2, y: v.y * VOXEL_SIZE, z: v.z * VOXEL_SIZE },
        b: Point {
            x: (v.x + 1) * VOXEL_SIZE,
            y: (v.y - 1) * VOXEL_SIZE,
            z: (v.z + 1) * VOXEL_SIZE,
        },
        c: Point { x: v.x * VOXEL_SIZE, y: (v.y - 1) * VOXEL_SIZE, z: (v.z + 1) * VOXEL_SIZE },
    }
}

proof fn lemma_nearer_order(h: (int, int), g: (int, int), k: (int, int))
    requires
        h.1 > 0,
        g.1 > 0,
        k.1 > 0,
        nearer(h, g),
        !nearer(k, g),
    ensures
        !nearer(k, h),
{
    assert(h.0 * g.1 * k.1 < g.0 * h.1 * k.1) by (nonlinear_arith)
        requires
            h.0 * g.1 < g.0 * h.1,
            k.1 > 0,
    ;
    assert(k.0 * g.1 * h.1 >= g.0 * k.1 * h.1) by (nonlinear_arith)
        requires
            k.0 * g.1 >= g.0 * k.1,
            h.1 > 0,
    ;
    assert(h.0 * k.1 < k.0 * h.1) by (nonlinear_arith)
        requires
            h.0 * g.1 * k.1 < g.0 * h.1 * k.1,
            k.0 * g.1 * h.1 >= g.0 * k.1 * h.1,
            g.1 > 0,
    ;
}

/// The hit chosen in a voxel is one of its triangles' hits, and no hit of
/// any of its triangles lies nearer.
pub proof fn lemma_nearest_is_nearest(tris: Seq<Triangle>, ray: Ray, n: int)
    requires
        0 <= n <= tris.len(),
    ensures
        nearest_upto(tris, ray, n) matches Some(g) ==> exists|i: int|
            0 <= i < n && ray_triangle_hit(ray, #[trigger] tris[i]) == Some(g),
        forall|i: int|
            0 <= i < n && (#[trigger] ray_triangle_hit(ray, tris[i])) is Some ==> nearest_upto(
                tris,
                ray,
                n,
            ) is Some && !nearer(
                ray_triangle_hit(ray, tris[i])->Some_0,
                nearest_upto(tris, ray, n)->Some_0,
            ),
    decreases n,
{
    if n > 0 {
        lemma_nearest_is_nearest(tris, ray, n - 1);
        let b = nearest_upto(tris, ray, n - 1);
        if let Some(h) = ray_triangle_hit(ray, tris[n - 1]) {
            assert(h.1 > 0);
            if let Some(g) = b {
                let i0 = choose|i: int| 0 <= i < n - 1 && ray_triangle_hit(ray, #[trigger] tris[i]) == Some(g);
                assert(g.1 > 0);
                if nearer(h, g) {
                    assert forall|i: int|
                        0 <= i < n && (#[trigger] ray_triangle_hit(ray, tris[i])) is Some implies !nearer(
                            ray_triangle_hit(ray, tris[i])->Some_0,
                            h,
                        ) by {
                        if i < n - 1 {
                            let k = ray_triangle_hit(ray, tris[i])->Some_0;
                            assert(k.1 > 0);
                            lemma_nearer_order(h, g, k);
                        }
                    }
                } else {
                    assert(exists|i: int| 0 <= i < n && ray_triangle_hit(ray, #[trigger] tris[i]) == Some(g)) by {
                        assert(ray_triangle_hit(ray, tris[i0]) == Some(g));
                    }
                }
            }
        } else if let Some(g) = b {
            let i0 = choose|i: int| 0 <= i < n - 1 && ray_triangle_hit(ray, #[trigger] tris[i]) == Some(g);
            assert(ray_triangle_hit(ray, tris[i0]) == Some(g));
        }
    }
}

/// The field gives one sample per grid vertex.
pub open spec fn deterministic<F: Fn(i64, i64, i64) -> u32>(field: F) -> bool {
    forall|x: i64, y: i64, z: i64, a: u32, b: u32|
        #[trigger] field.ensures((x, y, z), a) && #[trigger] field.ensures((x, y, z), b) ==> a == b
}

/// With a deterministic field, a cached list is exactly the surface that
/// the field's samples make, which is what a world with nothing cached
/// extracts for the voxel: caching never changes a result.
pub proof fn lemma_cached_is_field_surface<F: Fn(i64, i64, i64) -> u32>(
    w: &World<F>,
    v: Voxel,
    s: Seq<u32>,
)
    requires
        w.wf(),
        v.wf(),
        deterministic(w.field_fn()),
        sampled(w.field_fn(), v, s),
        w.cache().contains_key(voxel_key(v)),
    ensures
        w.cache()[voxel_key(v)] == surface(w.table_view(), v, s),
{
    let q = choose|q: Seq<u32>| sampled(w.field_fn(), v, q) && w.cache()[voxel_key(v)] == surface(w.table_view(), v, q);
    assert forall|i: int| 0 <= i < 8 implies q[i] == s[i] by {
        assert(w.field_fn().ensures(
            (
                (v.x + corner_offset(i).0) as i64,
                (v.y + corner_offset(i).1) as i64,
                (v.z + corner_offset(i).2) as i64,
            ),
            q[i],
        ));
        assert(w.field_fn().ensures(
            (
                (v.x + corner_offset(i).0) as i64,
                (v.y + corner_offset(i).1) as i64,
                (v.z + corner_offset(i).2) as i64,
            ),
            s[i],
        ));
    }
    assert(q =~= s);
}

/// Bit `i` of the corner configuration tells whether sample `i` lies below
/// the threshold.
proof fn lemma_config_bit(s: Seq<u32>, n: int, i: int)
    requires
        0 <= i < n <= 8,
    ensures
        corner_below(config_upto(s, n), i) <==> s[i] < SURFACE_THRESHOLD,
    decreases n,
{
    let x = config_upto(s, n - 1);
    let p = vstd::arithmetic::power2::pow2((n - 1) as nat) as int;
    let b: int = if s[n - 1] < SURFACE_THRESHOLD { 1 } else { 0 };
    lemma_config_bound(s, n - 1);
    vstd::arithmetic::power2::lemma_pow2_pos((n - 1) as nat);
    let c = config_upto(s, n);
    assert(c == x + b * p);
    if i == n - 1 {
        vstd::arithmetic::div_mod::lemma_fundamental_div_mod_converse(c, p, b, x);
    } else {
        lemma_config_bit(s, n - 1, i);
        let q = vstd::arithmetic::power2::pow2(i as nat) as int;
        let r = vstd::arithmetic::power2::pow2((n - 1 - i) as nat) as int;
        vstd::arithmetic::power2::lemma_pow2_pos(i as nat);
        vstd::arithmetic::power2::lemma_pow2_adds(i as nat, (n - 1 - i) as nat);
        vstd::arithmetic::power2::lemma_pow2_unfold((n - 1 - i) as nat);
        let r2 = vstd::arithmetic::power2::pow2((n - 2 - i) as nat) as int;
        assert(r == 2 * r2);
        assert(q * r == p);
        vstd::arithmetic::div_mod::lemma_fundamental_div_mod(x, q);
        vstd::arithmetic::div_mod::lemma_mod_bound(x, q);
        let k = x / q + b * r;
        assert(q * k == q * (x / q) + b * p) by {
            vstd::arithmetic::mul::lemma_mul_is_distributive_add(q, x / q, b * r);
            if b == 1 {
                assert(q * (b * r) == q * r);
            } else {
                assert(q * (b * r) == 0);
            }
        }
        vstd::arithmetic::mul::lemma_mul_is_commutative(q, k);
        vstd::arithmetic::div_mod::lemma_fundamental_div_mod_converse(c, q, k, x % q);
        assert(k == 2 * (b * r2) + x / q) by {
            if b == 1 {
            } else {
            }
        }
        vstd::arithmetic::div_mod::lemma_mod_multiples_vanish(b * r2, x / q, 2);
    }
}

/// Every corner of every triangle of a voxel's surface lies on an edge whose
/// two corner samples are on opposite sides of the threshold.
pub proof fn lemma_surface_on_crossed_edges(table: Seq<Seq<u8>>, v: Voxel, s: Seq<u32>, k: int)
    requires
        table_ok(table),
        s.len() == 8,
        0 <= k < table[config_of(s)].len(),
    ensures
        (s[edge_ends(table[config_of(s)][k] as int).0] < SURFACE_THRESHOLD) != (s[edge_ends(
            table[config_of(s)][k] as int,
        ).1] < SURFACE_THRESHOLD),
{
    lemma_config_bound(s, 8);
    vstd::arithmetic::power2::lemma2_to64();
    let c = config_of(s);
    let row = table[c];
    assert(row_ok(row));
    assert(row_crosses(row, c));
    let e = row[k] as int;
    assert(edge_crossed(c, e));
    assert(0 <= e < 12);
    let (a, b) = edge_ends(e);
    assert(0 <= a < 8 && 0 <= b < 8);
    lemma_config_bit(s, 8, a);
    lemma_config_bit(s, 8, b);
}

} // verus!
