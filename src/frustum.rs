//! View-frustum culling of chunks over fixed-point planes.
//!
//! The view-projection matrix comes in fixed point, every entry scaled by one
//! common positive factor. The plane tests only ask on which side of a plane a
//! point lies, which no positive scaling of a plane changes, so the planes
//! are kept unnormalised.

use vstd::prelude::*;

verus! {

/// The half-space `a * x + b * y + c * z + d > 0`.
#[derive(Clone, Copy, Debug, PartialEq, Eq, Structural)]
pub struct Plane {
    pub a: i64,
    pub b: i64,
    pub c: i64,
    pub d: i64,
}

pub open spec fn eval(p: Plane, x: int, y: int, z: int) -> int {
    p.a * x + p.b * y + p.c * z + p.d
}

/// Some corner of the box of chunk `(cx, cy, cz)` lies strictly inside `p`.
pub open spec fn some_corner_inside(p: Plane, cx: int, cy: int, cz: int) -> bool {
    let (x0, y0, z0) = (32 * cx, 32 * cy, 32 * cz);
    let (x1, y1, z1) = (x0 + 32, y0 + 32, z0 + 32);
    ||| eval(p, x0, y0, z0) > 0
    ||| eval(p, x1, y0, z0) > 0
    ||| eval(p, x0, y1, z0) > 0
    ||| eval(p, x1, y1, z0) > 0
    ||| eval(p, x0, y0, z1) > 0
    ||| eval(p, x1, y0, z1) > 0
    ||| eval(p, x0, y1, z1) > 0
    ||| eval(p, x1, y1, z1) > 0
}

/// World point `(x, y, z)` lies in the closed box of chunk `(cx, cy, cz)`.
pub open spec fn in_box(cx: int, cy: int, cz: int, x: int, y: int, z: int) -> bool {
    &&& 32 * cx <= x <= 32 * cx + 32
    &&& 32 * cy <= y <= 32 * cy + 32
    &&& 32 * cz <= z <= 32 * cz + 32
}

/// The six culling planes: left, right, bottom, top, near, far.
pub struct Frustum {
    planes: [Plane; 6],
}

/// Plane `f` of the frustum of view-projection matrix `vp`: the last column
/// plus or minus column `f / 2`.
pub open spec fn plane_of(vp: [[i32; 4]; 4], f: int) -> Plane {
    let col = f / 2;
    if f % 2 == 0 {
        Plane {
            a: (vp[0][3] + vp[0][col]) as i64,
            b: (vp[1][3] + vp[1][col]) as i64,
            c: (vp[2][3] + vp[2][col]) as i64,
            d: (vp[3][3] + vp[3][col]) as i64,
        }
    } else {
        Plane {
            a: (vp[0][3] - vp[0][col]) as i64,
            b: (vp[1][3] - vp[1][col]) as i64,
            c: (vp[2][3] - vp[2][col]) as i64,
            d: (vp[3][3] - vp[3][col]) as i64,
        }
    }
}

fn combine(vp: &[[i32; 4]; 4], col: usize, add: bool) -> (r: Plane)
    requires
        col < 3,
    ensures
        r == plane_of(*vp, 2 * col + if add { 0int } else { 1int }),
{
    let row0 = vp[0];
    let row1 = vp[1];
    let row2 = vp[2];
    let row3 = vp[3];
    if add {
        Plane {
            a: row0[3] as i64 + row0[col] as i64,
            b: row1[3] as i64 + row1[col] as i64,
            c: row2[3] as i64 + row2[col] as i64,
            d: row3[3] as i64 + row3[col] as i64,
        }
    } else {
        Plane {
            a: row0[3] as i64 - row0[col] as i64,
            b: row1[3] as i64 - row1[col] as i64,
            c: row2[3] as i64 - row2[col] as i64,
            d: row3[3] as i64 - row3[col] as i64,
        }
    }
}

proof fn lemma_product_bound(a: int, x: int, am: int, xm: int)
    requires
        0 <= am,
        0 <= xm,
        -am <= a <= am,
        -xm <= x <= xm,
    ensures
        -(am * xm) <= a * x <= am * xm,
{
    if a >= 0 && x >= 0 {
        assert(0 <= a * x <= am * xm) by (nonlinear_arith)
            requires
                0 <= a <= am,
                0 <= x <= xm,
        ;
    } else if a >= 0 {
        assert(-(am * xm) <= a * x <= 0) by (nonlinear_arith)
            requires
                0 <= a <= am,
                -xm <= x < 0,
        ;
    } else if x >= 0 {
        assert(-(am * xm) <= a * x <= 0) by (nonlinear_arith)
            requires
                -am <= a < 0,
                0 <= x <= xm,
        ;
    } else {
        assert(0 <= a * x <= am * xm) by (nonlinear_arith)
            requires
                -am <= a < 0,
                -xm <= x < 0,
        ;
    }
}

fn eval_at(p: &Plane, x: i64, y: i64, z: i64) -> (r: bool)
    requires
        -0x10_0000_0000 <= x <= 0x10_0000_0000,
        -0x10_0000_0000 <= y <= 0x10_0000_0000,
        -0x10_0000_0000 <= z <= 0x10_0000_0000,
    ensures
        r == (eval(*p, x as int, y as int, z as int) > 0),
{
    let a = p.a as i128;
    let b = p.b as i128;
    let c = p.c as i128;
    let xa = x as i128;
    let ya = y as i128;
    let za = z as i128;
    proof {
        lemma_product_bound(a as int, xa as int, 0x8000_0000_0000_0000, 0x10_0000_0000);
        lemma_product_bound(b as int, ya as int, 0x8000_0000_0000_0000, 0x10_0000_0000);
        lemma_product_bound(c as int, za as int, 0x8000_0000_0000_0000, 0x10_0000_0000);
    }
    a * xa + b * ya + c * za + p.d as i128 > 0
}

impl Frustum {
    /// Plane `f` of the frustum.
    pub closed spec fn plane(&self, f: int) -> Plane {
        self.planes[f]
    }

    /// The frustum of a fixed-point view-projection matrix, row-major with
    /// the translation in the last row.
    pub fn new(vp: &[[i32; 4]; 4]) -> (r: Frustum)
        ensures
            forall|f: int| 0 <= f < 6 ==> #[trigger] r.plane(f) == plane_of(*vp, f),
    {
        let planes = [
            combine(vp, 0, true),
            combine(vp, 0, false),
            combine(vp, 1, true),
            combine(vp, 1, false),
            combine(vp, 2, true),
            combine(vp, 2, false),
        ];
        Frustum { planes }
    }

    /// Whether the chunk may be visible: for every plane, some corner of the
    /// chunk's box lies strictly inside it.
    pub fn contains(&self, chunk_coord: &[i32; 3]) -> (r: bool)
        ensures
            r == forall|f: int|
                0 <= f < 6 ==> some_corner_inside(
                    #[trigger] self.plane(f),
                    chunk_coord[0] as int,
                    chunk_coord[1] as int,
                    chunk_coord[2] as int,
                ),
    {
        let xs: i64 = chunk_coord[0] as i64 * 32;
        let ys: i64 = chunk_coord[1] as i64 * 32;
        let zs: i64 = chunk_coord[2] as i64 * 32;
        let (xf, yf, zf) = (xs + 32, ys + 32, zs + 32);
        let mut f: usize = 0;
        while f < 6
            invariant
                0 <= f <= 6,
                xs == 32 * chunk_coord[0],
                ys == 32 * chunk_coord[1],
                zs == 32 * chunk_coord[2],
                xf == xs + 32,
                yf == ys + 32,
                zf == zs + 32,
                forall|g: int|
                    0 <= g < f ==> some_corner_inside(
                        #[trigger] self.plane(g),
                        chunk_coord[0] as int,
                        chunk_coord[1] as int,
                        chunk_coord[2] as int,
                    ),
            decreases 6 - f,
        {
            let p = &self.planes[f];
            assert(*p == self.plane(f as int));
            let hit = eval_at(p, xs, ys, zs) || eval_at(p, xf, ys, zs) || eval_at(p, xs, yf, zs)
                || eval_at(p, xf, yf, zs) || eval_at(p, xs, ys, zf) || eval_at(p, xf, ys, zf)
                || eval_at(p, xs, yf, zf) || eval_at(p, xf, yf, zf);
            if !hit {
                return false;
            }
            f = f + 1;
        }
        true
    }
}

/// A chunk whose whole box lies outside one plane of the frustum is culled.
pub proof fn lemma_outside_culled(fr: Frustum, cx: i32, cy: i32, cz: i32, f: int)
    requires
        0 <= f < 6,
        forall|x: int, y: int, z: int|
            in_box(cx as int, cy as int, cz as int, x, y, z) ==> #[trigger] eval(fr.plane(f), x, y, z) <= 0,
    ensures
        !(forall|g: int| 0 <= g < 6 ==> some_corner_inside(#[trigger] fr.plane(g), cx as int, cy as int, cz as int)),
{
    let (x0, y0, z0) = (32 * cx, 32 * cy, 32 * cz);
    let (x1, y1, z1) = (x0 + 32, y0 + 32, z0 + 32);
    assert(eval(fr.plane(f), x0, y0, z0) <= 0);
    assert(eval(fr.plane(f), x1, y0, z0) <= 0);
    assert(eval(fr.plane(f), x0, y1, z0) <= 0);
    assert(eval(fr.plane(f), x1, y1, z0) <= 0);
    assert(eval(fr.plane(f), x0, y0, z1) <= 0);
    assert(eval(fr.plane(f), x1, y0, z1) <= 0);
    assert(eval(fr.plane(f), x0, y1, z1) <= 0);
    assert(eval(fr.plane(f), x1, y1, z1) <= 0);
}

/// `k * v` over `lo <= v <= hi` is largest at one end.
proof fn lemma_linear_max(k: int, v: int, lo: int, hi: int)
    requires
        lo <= v <= hi,
    ensures
        k * v <= k * lo || k * v <= k * hi,
        k >= 0 ==> k * v <= k * hi,
        k < 0 ==> k * v <= k * lo,
{
    if k >= 0 {
        assert(k * v <= k * hi) by (nonlinear_arith)
            requires
                k >= 0,
                v <= hi,
        ;
    } else {
        assert(k * v <= k * lo) by (nonlinear_arith)
            requires
                k < 0,
                lo <= v,
        ;
    }
}

/// A plane that holds some point of a chunk's box strictly inside holds
/// some corner of the box strictly inside.
proof fn lemma_point_gives_corner(p: Plane, cx: int, cy: int, cz: int, x: int, y: int, z: int)
    requires
        in_box(cx, cy, cz, x, y, z),
        eval(p, x, y, z) > 0,
    ensures
        some_corner_inside(p, cx, cy, cz),
{
    let (x0, y0, z0) = (32 * cx, 32 * cy, 32 * cz);
    let (x1, y1, z1) = (x0 + 32, y0 + 32, z0 + 32);
    lemma_linear_max(p.a as int, x, x0, x1);
    lemma_linear_max(p.b as int, y, y0, y1);
    lemma_linear_max(p.c as int, z, z0, z1);
    let bx = if p.a >= 0 { x1 } else { x0 };
    let by = if p.b >= 0 { y1 } else { y0 };
    let bz = if p.c >= 0 { z1 } else { z0 };
    assert(eval(p, x, y, z) <= eval(p, bx, by, bz));
}

/// Culling never drops a visible chunk: when some point of the chunk's box
/// lies strictly inside all six planes, the chunk is kept.
pub proof fn lemma_visible_kept(fr: Frustum, cx: i32, cy: i32, cz: i32, x: int, y: int, z: int)
    requires
        in_box(cx as int, cy as int, cz as int, x, y, z),
        forall|f: int| 0 <= f < 6 ==> eval(#[trigger] fr.plane(f), x, y, z) > 0,
    ensures
        forall|f: int| 0 <= f < 6 ==> some_corner_inside(#[trigger] fr.plane(f), cx as int, cy as int, cz as int),
{
    assert forall|f: int| 0 <= f < 6 implies some_corner_inside(#[trigger] fr.plane(f), cx as int, cy as int, cz as int) by {
        lemma_point_gives_corner(fr.plane(f), cx as int, cy as int, cz as int, x, y, z);
    }
}

} // verus!
