//! Triangle rasterization into the voxel volume. Vertices are in fixed
//! point, 256 units per voxel cell. Each triangle is projected along the
//! dominant axis of its normal; every cell of the projected, clamped
//! footprint whose center lies inside the projected triangle gets one voxel,
//! at the depth interpolated from the barycentric weights of the center,
//! colored by point-sampling the triangle's material texture at the
//! interpolated UV. Triangles are processed in mesh order and the last
//! write to a cell wins.

use vstd::prelude::*;

verus! {

use crate::color::Rgba;
use crate::octree::VoxelTree;
use crate::save::BrickType;

/// One triangle vertex: a fixed-point position (256 units per cell) and a
/// fixed-point UV coordinate (256 units per texture tile).
#[derive(Clone, Copy, Debug, PartialEq, Eq, Structural)]
pub struct Vertex {
    pub x: i64,
    pub y: i64,
    pub z: i64,
    pub u: i64,
    pub v: i64,
}

/// One triangle of the mesh, tagged with its material.
#[derive(Clone, Copy, Debug, PartialEq, Eq, Structural)]
pub struct Triangle {
    pub v0: Vertex,
    pub v1: Vertex,
    pub v2: Vertex,
    pub material_id: usize,
}

/// The diffuse raster of one material; `pixels` is row-major, top row
/// first. A solid color is a one-by-one raster.
pub struct MaterialImage {
    pub width: usize,
    pub height: usize,
    pub pixels: Vec<Rgba>,
}

pub open spec fn img_wf(img: MaterialImage) -> bool {
    &&& 1 <= img.width <= 0x10000
    &&& 1 <= img.height <= 0x10000
    &&& img.pixels@.len() == img.width * img.height
}

/// Input limits of the voxelizer: positions within `2^25` fixed-point units
/// of the origin, UVs in `[0, 2^20]`.
pub open spec fn vert_in_range(v: Vertex) -> bool {
    &&& -0x200_0000 <= v.x <= 0x200_0000
    &&& -0x200_0000 <= v.y <= 0x200_0000
    &&& -0x200_0000 <= v.z <= 0x200_0000
    &&& 0 <= v.u <= 0x10_0000
    &&& 0 <= v.v <= 0x10_0000
}

pub open spec fn tri_in_range(t: Triangle) -> bool {
    vert_in_range(t.v0) && vert_in_range(t.v1) && vert_in_range(t.v2)
}

/// A prepared (translated and stretched) vertex: nonnegative positions
/// bounded well below `2^28`.
pub open spec fn vert_prepared(v: Vertex) -> bool {
    &&& 0 <= v.x < 0x1000_0000
    &&& 0 <= v.y < 0x1000_0000
    &&& 0 <= v.z < 0x1000_0000
    &&& 0 <= v.u <= 0x10_0000
    &&& 0 <= v.v <= 0x10_0000
}

pub open spec fn tri_prepared(t: Triangle) -> bool {
    vert_prepared(t.v0) && vert_prepared(t.v1) && vert_prepared(t.v2)
}

pub open spec fn iabs64(x: int) -> int {
    if x >= 0 {
        x
    } else {
        -x
    }
}

pub open spec fn clampi(x: int, lo: int, hi: int) -> int {
    if x < lo {
        lo
    } else if x > hi {
        hi
    } else {
        x
    }
}

pub open spec fn min3i(a: int, b: int, c: int) -> int {
    if a <= b && a <= c {
        a
    } else if b <= c {
        b
    } else {
        c
    }
}

pub open spec fn max3i(a: int, b: int, c: int) -> int {
    if a >= b && a >= c {
        a
    } else if b >= c {
        b
    } else {
        c
    }
}

/// The triangle's normal, the cross product of its edges.
pub open spec fn normal_x(t: Triangle) -> int {
    (t.v1.y - t.v0.y) * (t.v2.z - t.v0.z) - (t.v1.z - t.v0.z) * (t.v2.y - t.v0.y)
}

pub open spec fn normal_y(t: Triangle) -> int {
    (t.v1.z - t.v0.z) * (t.v2.x - t.v0.x) - (t.v1.x - t.v0.x) * (t.v2.z - t.v0.z)
}

pub open spec fn normal_z(t: Triangle) -> int {
    (t.v1.x - t.v0.x) * (t.v2.y - t.v0.y) - (t.v1.y - t.v0.y) * (t.v2.x - t.v0.x)
}

pub open spec fn degenerate(t: Triangle) -> bool {
    normal_x(t) == 0 && normal_y(t) == 0 && normal_z(t) == 0
}

/// The axis the triangle is projected along: the dominant component of its
/// normal, preferring z, then y, then x on ties.
pub open spec fn dom_axis(t: Triangle) -> int {
    let ax = iabs64(normal_x(t));
    let ay = iabs64(normal_y(t));
    let az = iabs64(normal_z(t));
    if az >= ax && az >= ay {
        2int
    } else if ay >= ax {
        1int
    } else {
        0int
    }
}

/// The two in-plane coordinates and the depth coordinate of a vertex under
/// a projection axis.
pub open spec fn pco(v: Vertex, axis: int) -> int {
    if axis == 0 {
        v.y as int
    } else {
        v.x as int
    }
}

pub open spec fn qco(v: Vertex, axis: int) -> int {
    if axis == 2 {
        v.y as int
    } else {
        v.z as int
    }
}

pub open spec fn rco(v: Vertex, axis: int) -> int {
    if axis == 2 {
        v.z as int
    } else if axis == 1 {
        v.y as int
    } else {
        v.x as int
    }
}

/// Twice the signed area of the projected triangle.
pub open spec fn area2_raw(t: Triangle, axis: int) -> int {
    (pco(t.v1, axis) - pco(t.v0, axis)) * (qco(t.v2, axis) - qco(t.v0, axis)) - (pco(t.v2, axis)
        - pco(t.v0, axis)) * (qco(t.v1, axis) - qco(t.v0, axis))
}

/// The sign that makes the normalized area positive.
pub open spec fn asign(t: Triangle, axis: int) -> int {
    if area2_raw(t, axis) < 0 {
        -1int
    } else {
        1int
    }
}

/// Normalized barycentric weights of the sample point `(sp, sq)`: the first
/// two are edge functions, the third is the remainder against the area, and
/// all three are scaled so their sum — twice the area — is positive.
pub open spec fn w0n(t: Triangle, axis: int, sp: int, sq: int) -> int {
    asign(t, axis) * ((pco(t.v1, axis) - sp) * (qco(t.v2, axis) - sq) - (pco(t.v2, axis) - sp) * (
    qco(t.v1, axis) - sq))
}

pub open spec fn w1n(t: Triangle, axis: int, sp: int, sq: int) -> int {
    asign(t, axis) * ((pco(t.v2, axis) - sp) * (qco(t.v0, axis) - sq) - (pco(t.v0, axis) - sp) * (
    qco(t.v2, axis) - sq))
}

pub open spec fn area2n(t: Triangle, axis: int) -> int {
    asign(t, axis) * area2_raw(t, axis)
}

pub open spec fn w2n(t: Triangle, axis: int, sp: int, sq: int) -> int {
    area2n(t, axis) - w0n(t, axis, sp, sq) - w1n(t, axis, sp, sq)
}

/// Whether the sample point lies inside the projected triangle: all three
/// normalized weights are nonnegative.
pub open spec fn sample_inside(t: Triangle, axis: int, sp: int, sq: int) -> bool {
    &&& w0n(t, axis, sp, sq) >= 0
    &&& w1n(t, axis, sp, sq) >= 0
    &&& w2n(t, axis, sp, sq) >= 0
}

/// The interpolated depth coordinate of the sample point, in fixed point:
/// the weighted mean of the vertices' depth coordinates.
pub open spec fn depth_fp(t: Triangle, axis: int, sp: int, sq: int) -> int {
    (w0n(t, axis, sp, sq) * rco(t.v0, axis) + w1n(t, axis, sp, sq) * rco(t.v1, axis) + w2n(
        t,
        axis,
        sp,
        sq,
    ) * rco(t.v2, axis)) / area2n(t, axis)
}

/// The interpolated texture coordinates of the sample point, in fixed point.
pub open spec fn uv_u_fp(t: Triangle, axis: int, sp: int, sq: int) -> int {
    (w0n(t, axis, sp, sq) * t.v0.u + w1n(t, axis, sp, sq) * t.v1.u + w2n(t, axis, sp, sq)
        * t.v2.u) / area2n(t, axis)
}

pub open spec fn uv_v_fp(t: Triangle, axis: int, sp: int, sq: int) -> int {
    (w0n(t, axis, sp, sq) * t.v0.v + w1n(t, axis, sp, sq) * t.v1.v + w2n(t, axis, sp, sq)
        * t.v2.v) / area2n(t, axis)
}

/// The color of one footprint cell: the texture point-sampled at the
/// interpolated UV, clamped to the raster, with the v axis flipped as image
/// rows run top to bottom.
pub open spec fn sample_color(t: Triangle, axis: int, sp: int, sq: int, img: MaterialImage) -> Rgba {
    let px = clampi(uv_u_fp(t, axis, sp, sq) * img.width / 256, 0, img.width - 1);
    let pyr = clampi(uv_v_fp(t, axis, sp, sq) * img.height / 256, 0, img.height - 1);
    let py = img.height - 1 - pyr;
    img.pixels@[py * img.width + px]
}

/// The center of footprint cell `c` in fixed point.
pub open spec fn center_fp(c: int) -> int {
    c * 256 + 128
}

/// The clamped cell range of the projected footprint along `p`.
pub open spec fn bbox_p_lo(t: Triangle, axis: int) -> int {
    min3i(pco(t.v0, axis), pco(t.v1, axis), pco(t.v2, axis)) / 256
}

pub open spec fn bbox_p_hi(t: Triangle, axis: int, side: int) -> int {
    let hi = max3i(pco(t.v0, axis), pco(t.v1, axis), pco(t.v2, axis)) / 256;
    if hi > side - 1 {
        side - 1
    } else {
        hi
    }
}

pub open spec fn bbox_q_lo(t: Triangle, axis: int) -> int {
    min3i(qco(t.v0, axis), qco(t.v1, axis), qco(t.v2, axis)) / 256
}

pub open spec fn bbox_q_hi(t: Triangle, axis: int, side: int) -> int {
    let hi = max3i(qco(t.v0, axis), qco(t.v1, axis), qco(t.v2, axis)) / 256;
    if hi > side - 1 {
        side - 1
    } else {
        hi
    }
}

/// The projected in-plane cell coordinates of a 3D cell under an axis.
pub open spec fn cell_p(axis: int, cx: int, cy: int, cz: int) -> int {
    if axis == 0 {
        cy
    } else {
        cx
    }
}

pub open spec fn cell_q(axis: int, cx: int, cy: int, cz: int) -> int {
    if axis == 2 {
        cy
    } else {
        cz
    }
}

pub open spec fn cell_r(axis: int, cx: int, cy: int, cz: int) -> int {
    if axis == 2 {
        cz
    } else if axis == 1 {
        cy
    } else {
        cx
    }
}

/// The depth cell the rasterizer writes for one footprint column, clamped
/// into the volume.
pub open spec fn depth_cell(t: Triangle, axis: int, sp: int, sq: int, side: int) -> int {
    clampi(depth_fp(t, axis, sp, sq) / 256, 0, side - 1)
}

/// Whether rasterizing triangle `t` writes the cell `(cx, cy, cz)`: the
/// triangle is non-degenerate, the cell's projected column lies in the
/// clamped footprint, the column's center falls inside the projected
/// triangle, and the cell is the column's interpolated depth cell.
pub open spec fn covers(t: Triangle, side: int, cx: int, cy: int, cz: int) -> bool {
    let axis = dom_axis(t);
    let cp = cell_p(axis, cx, cy, cz);
    let cq = cell_q(axis, cx, cy, cz);
    &&& !degenerate(t)
    &&& bbox_p_lo(t, axis) <= cp <= bbox_p_hi(t, axis, side)
    &&& bbox_q_lo(t, axis) <= cq <= bbox_q_hi(t, axis, side)
    &&& sample_inside(t, axis, center_fp(cp), center_fp(cq))
    &&& cell_r(axis, cx, cy, cz) == depth_cell(t, axis, center_fp(cp), center_fp(cq), side)
}

/// The color triangle `t` writes at a cell it covers.
pub open spec fn covered_color(t: Triangle, imgs: Seq<MaterialImage>, cx: int, cy: int, cz: int) -> Rgba {
    let axis = dom_axis(t);
    let cp = cell_p(axis, cx, cy, cz);
    let cq = cell_q(axis, cx, cy, cz);
    sample_color(t, axis, center_fp(cp), center_fp(cq), imgs[t.material_id as int])
}

/// Whether a triangle passes the optional material filter.
pub open spec fn selected(t: Triangle, filter: Option<usize>) -> bool {
    match filter {
        None => true,
        Some(m) => t.material_id == m,
    }
}

/// The state of one cell after rasterizing the first `k` triangles of the
/// list into an empty volume: the last selected triangle covering the cell
/// wins; a cell no triangle covers is empty.
pub open spec fn cell_after(
    tris: Seq<Triangle>,
    imgs: Seq<MaterialImage>,
    filter: Option<usize>,
    side: int,
    cx: int,
    cy: int,
    cz: int,
) -> Option<Rgba>
    decreases tris.len(),
{
    if tris.len() == 0 {
        None
    } else {
        let t = tris.last();
        if selected(t, filter) && covers(t, side, cx, cy, cz) {
            Some(covered_color(t, imgs, cx, cy, cz))
        } else {
            cell_after(tris.drop_last(), imgs, filter, side, cx, cy, cz)
        }
    }
}

/// Wide multiplication of two bounded values.
fn mul_ww(a: i128, b: i128) -> (r: i128)
    requires
        -0x4000_0000_0000_0000 <= a <= 0x4000_0000_0000_0000,
        -0x4000_0000_0000_0000 <= b <= 0x4000_0000_0000_0000,
    ensures
        r == a * b,
        -0x1000_0000_0000_0000_0000_0000_0000_0000 <= r <= 0x1000_0000_0000_0000_0000_0000_0000_0000,
{
    proof {
        assert(-0x1000_0000_0000_0000_0000_0000_0000_0000 <= (a as int) * (b as int)
            <= 0x1000_0000_0000_0000_0000_0000_0000_0000) by (nonlinear_arith)
            requires
                -0x4000_0000_0000_0000 <= a as int <= 0x4000_0000_0000_0000,
                -0x4000_0000_0000_0000 <= b as int <= 0x4000_0000_0000_0000;
    }
    a * b
}

/// Wide multiplication of a large value by a small one.
fn mul_wn(a: i128, b: i128) -> (r: i128)
    requires
        -0x1_0000_0000_0000_0000_0000_0000 <= a <= 0x1_0000_0000_0000_0000_0000_0000,
        0 <= b <= 0x10_0000,
    ensures
        r == a * b,
{
    proof {
        assert(-0x10_0000_0000_0000_0000_0000_0000_0000 <= (a as int) * (b as int)
            <= 0x10_0000_0000_0000_0000_0000_0000_0000) by (nonlinear_arith)
            requires
                -0x1_0000_0000_0000_0000_0000_0000 <= a as int <= 0x1_0000_0000_0000_0000_0000_0000,
                0 <= b as int <= 0x10_0000;
    }
    a * b
}

/// Multiplication of two coordinate-sized values.
fn mul_cc(a: i128, b: i128) -> (r: i128)
    requires
        -0x2000_0000 <= a <= 0x2000_0000,
        -0x2000_0000 <= b <= 0x2000_0000,
    ensures
        r == a * b,
        -0x400_0000_0000_0000 <= r <= 0x400_0000_0000_0000,
{
    proof {
        assert(-0x400_0000_0000_0000 <= (a as int) * (b as int) <= 0x400_0000_0000_0000)
            by (nonlinear_arith)
            requires
                -0x2000_0000 <= a as int <= 0x2000_0000,
                -0x2000_0000 <= b as int <= 0x2000_0000;
    }
    a * b
}

/// The projected area of a non-degenerate triangle along its dominant axis
/// is nonzero.
proof fn lemma_area_nonzero(t: Triangle)
    requires
        !degenerate(t),
    ensures
        area2_raw(t, dom_axis(t)) != 0,
{
    let axis = dom_axis(t);
    if axis == 2 {
        assert((t.v1.y - t.v0.y) * (t.v2.x - t.v0.x) == (t.v2.x - t.v0.x) * (t.v1.y - t.v0.y))
            by (nonlinear_arith);
        assert(area2_raw(t, 2) == normal_z(t));
    } else if axis == 1 {
        assert((t.v1.z - t.v0.z) * (t.v2.x - t.v0.x) == (t.v2.x - t.v0.x) * (t.v1.z - t.v0.z))
            by (nonlinear_arith);
        assert(area2_raw(t, 1) == -normal_y(t));
    } else {
        assert((t.v1.z - t.v0.z) * (t.v2.y - t.v0.y) == (t.v2.y - t.v0.y) * (t.v1.z - t.v0.z))
            by (nonlinear_arith);
        assert(area2_raw(t, 0) == normal_x(t));
    }
}

/// Rasterizes one footprint column: writes the one covered cell whose
/// projection is `(cp, cq)`, if the column's center lies inside the
/// triangle, and touches nothing else.
#[verifier::rlimit(100)]
fn raster_column(
    tree: &mut VoxelTree,
    t: &Triangle,
    imgs: &Vec<MaterialImage>,
    axis: usize,
    cp: i64,
    cq: i64,
)
    requires
        old(tree).wf(),
        tri_prepared(*t),
        t.material_id < imgs@.len(),
        forall|i: int| 0 <= i < imgs@.len() ==> img_wf(#[trigger] imgs@[i]),
        axis as int == dom_axis(*t),
        !degenerate(*t),
        0 <= cp < old(tree).side_spec(),
        0 <= cq < old(tree).side_spec(),
        bbox_p_lo(*t, axis as int) <= cp <= bbox_p_hi(*t, axis as int, old(tree).side_spec()),
        bbox_q_lo(*t, axis as int) <= cq <= bbox_q_hi(*t, axis as int, old(tree).side_spec()),
    ensures
        final(tree).wf(),
        final(tree).size == old(tree).size,
        forall|cx: int, cy: int, cz: int|
            old(tree).in_bounds(cx, cy, cz) ==> #[trigger] final(tree).cell(cx, cy, cz) == (
            if covers(*t, old(tree).side_spec(), cx, cy, cz) && cell_p(axis as int, cx, cy, cz)
                == cp && cell_q(axis as int, cx, cy, cz) == cq {
                Some(covered_color(*t, imgs@, cx, cy, cz))
            } else {
                old(tree).cell(cx, cy, cz)
            }),
{
    proof {
        crate::octree::lemma_side_bound(*tree);
        lemma_area_nonzero(*t);
    }
    let side = tree.side();
    let side_i = side as i64;
    let ghost gside = old(tree).side_spec();
    let ghost gaxis = axis as int;
    let (p0, q0, r0): (i64, i64, i64) = if axis == 2 {
        (t.v0.x, t.v0.y, t.v0.z)
    } else if axis == 1 {
        (t.v0.x, t.v0.z, t.v0.y)
    } else {
        (t.v0.y, t.v0.z, t.v0.x)
    };
    let (p1, q1, r1): (i64, i64, i64) = if axis == 2 {
        (t.v1.x, t.v1.y, t.v1.z)
    } else if axis == 1 {
        (t.v1.x, t.v1.z, t.v1.y)
    } else {
        (t.v1.y, t.v1.z, t.v1.x)
    };
    let (p2, q2, r2): (i64, i64, i64) = if axis == 2 {
        (t.v2.x, t.v2.y, t.v2.z)
    } else if axis == 1 {
        (t.v2.x, t.v2.z, t.v2.y)
    } else {
        (t.v2.y, t.v2.z, t.v2.x)
    };
    proof {
        assert(p0 == pco(t.v0, gaxis) && q0 == qco(t.v0, gaxis) && r0 == rco(t.v0, gaxis));
        assert(p1 == pco(t.v1, gaxis) && q1 == qco(t.v1, gaxis) && r1 == rco(t.v1, gaxis));
        assert(p2 == pco(t.v2, gaxis) && q2 == qco(t.v2, gaxis) && r2 == rco(t.v2, gaxis));
    }
    let a2r = mul_cc((p1 - p0) as i128, (q2 - q0) as i128) - mul_cc(
        (p2 - p0) as i128,
        (q1 - q0) as i128,
    );
    proof {
        assert(a2r == area2_raw(*t, gaxis));
        assert(a2r != 0);
    }
    let sp = cp * 256 + 128;
    let sq = cq * 256 + 128;
    let w0r = mul_cc((p1 - sp) as i128, (q2 - sq) as i128) - mul_cc(
        (p2 - sp) as i128,
        (q1 - sq) as i128,
    );
    let w1r = mul_cc((p2 - sp) as i128, (q0 - sq) as i128) - mul_cc(
        (p0 - sp) as i128,
        (q2 - sq) as i128,
    );
    let (aa, w0, w1): (i128, i128, i128) = if a2r < 0 {
        (-a2r, -w0r, -w1r)
    } else {
        (a2r, w0r, w1r)
    };
    let w2 = aa - w0 - w1;
    let ghost gsp = sp as int;
    let ghost gsq = sq as int;
    proof {
        assert(gsp == center_fp(cp as int) && gsq == center_fp(cq as int));
        if a2r < 0 {
            assert(asign(*t, gaxis) == -1);
            assert(area2n(*t, gaxis) == -1 * area2_raw(*t, gaxis));
            assert(-1 * area2_raw(*t, gaxis) == -area2_raw(*t, gaxis)) by (nonlinear_arith);
            assert(w0n(*t, gaxis, gsp, gsq) == -((pco(t.v1, gaxis) - gsp) * (qco(t.v2, gaxis)
                - gsq) - (pco(t.v2, gaxis) - gsp) * (qco(t.v1, gaxis) - gsq))) by (nonlinear_arith)
                requires asign(*t, gaxis) == -1;
            assert(w1n(*t, gaxis, gsp, gsq) == -((pco(t.v2, gaxis) - gsp) * (qco(t.v0, gaxis)
                - gsq) - (pco(t.v0, gaxis) - gsp) * (qco(t.v2, gaxis) - gsq))) by (nonlinear_arith)
                requires asign(*t, gaxis) == -1;
        } else {
            assert(asign(*t, gaxis) == 1);
            assert(area2n(*t, gaxis) == 1 * area2_raw(*t, gaxis));
            assert(1 * area2_raw(*t, gaxis) == area2_raw(*t, gaxis)) by (nonlinear_arith);
            assert(w0n(*t, gaxis, gsp, gsq) == (pco(t.v1, gaxis) - gsp) * (qco(t.v2, gaxis) - gsq)
                - (pco(t.v2, gaxis) - gsp) * (qco(t.v1, gaxis) - gsq)) by (nonlinear_arith)
                requires asign(*t, gaxis) == 1;
            assert(w1n(*t, gaxis, gsp, gsq) == (pco(t.v2, gaxis) - gsp) * (qco(t.v0, gaxis) - gsq)
                - (pco(t.v0, gaxis) - gsp) * (qco(t.v2, gaxis) - gsq)) by (nonlinear_arith)
                requires asign(*t, gaxis) == 1;
        }
        assert(aa == area2n(*t, gaxis));
        assert(w0 == w0n(*t, gaxis, gsp, gsq));
        assert(w1 == w1n(*t, gaxis, gsp, gsq));
        assert(w2 == w2n(*t, gaxis, gsp, gsq));
        assert(1 <= aa < 0x2000_0000_0000_0000);
        assert(-0x2000_0000_0000_0000 < w0 < 0x2000_0000_0000_0000);
        assert(-0x2000_0000_0000_0000 < w1 < 0x2000_0000_0000_0000);
    }
    if !(w0 >= 0 && w1 >= 0 && w2 >= 0) {
        proof {
            assert(!sample_inside(*t, gaxis, gsp, gsq));
            assert forall|cx: int, cy: int, cz: int|
                old(tree).in_bounds(cx, cy, cz) && cell_p(gaxis, cx, cy, cz) == cp
                && cell_q(gaxis, cx, cy, cz) == cq implies !covers(*t, gside, cx, cy, cz) by {
            }
        }
        return;
    }
    proof {
        assert(w2 <= aa);
        assert(sample_inside(*t, gaxis, gsp, gsq));
    }
    let t0 = mul_ww(w0, r0 as i128);
    let t1 = mul_ww(w1, r1 as i128);
    let t2 = mul_ww(w2, r2 as i128);
    proof {
        assert(t0 >= 0 && t1 >= 0 && t2 >= 0) by (nonlinear_arith)
            requires
                t0 == w0 * (r0 as int), t1 == w1 * (r1 as int), t2 == w2 * (r2 as int), w0 >= 0,
                w1 >= 0, w2 >= 0, r0 as int >= 0, r1 as int >= 0, r2 as int >= 0;
    }
    let rn = t0 + t1 + t2;
    let rq = rn / aa;
    let rc0 = rq / 256;
    proof {
        vstd::arithmetic::div_mod::lemma_div_pos_is_pos(rn as int, aa as int);
        vstd::arithmetic::div_mod::lemma_div_pos_is_pos(rq as int, 256);
    }
    let rcell: i64 = if rc0 > (side_i - 1) as i128 {
        side_i - 1
    } else {
        rc0 as i64
    };
    proof {
        assert(rcell as int == depth_cell(*t, gaxis, gsp, gsq, gside));
    }
    let u0 = mul_ww(w0, t.v0.u as i128);
    let u1 = mul_ww(w1, t.v1.u as i128);
    let u2 = mul_ww(w2, t.v2.u as i128);
    let v0 = mul_ww(w0, t.v0.v as i128);
    let v1 = mul_ww(w1, t.v1.v as i128);
    let v2 = mul_ww(w2, t.v2.v as i128);
    proof {
        assert(0 <= u0 <= 0x2000_0000_0000_0000 * 0x10_0000 && 0 <= u1 <= 0x2000_0000_0000_0000
            * 0x10_0000 && 0 <= u2 <= 0x2000_0000_0000_0000 * 0x10_0000 && 0 <= v0
            <= 0x2000_0000_0000_0000 * 0x10_0000 && 0 <= v1 <= 0x2000_0000_0000_0000 * 0x10_0000
            && 0 <= v2 <= 0x2000_0000_0000_0000 * 0x10_0000) by (nonlinear_arith)
            requires
                u0 == w0 * (t.v0.u as int), u1 == w1 * (t.v1.u as int), u2 == w2 * (
                t.v2.u as int), v0 == w0 * (t.v0.v as int), v1 == w1 * (t.v1.v as int), v2 == w2
                    * (t.v2.v as int), 0 <= w0 < 0x2000_0000_0000_0000, 0 <= w1
                    < 0x2000_0000_0000_0000, 0 <= w2 < 0x2000_0000_0000_0000, 0 <= t.v0.u as int
                    <= 0x10_0000, 0 <= t.v1.u as int <= 0x10_0000, 0 <= t.v2.u as int
                    <= 0x10_0000, 0 <= t.v0.v as int <= 0x10_0000, 0 <= t.v1.v as int
                    <= 0x10_0000, 0 <= t.v2.v as int <= 0x10_0000;
    }
    let un = u0 + u1 + u2;
    let vn = v0 + v1 + v2;
    let uq = un / aa;
    let vq = vn / aa;
    let mid = t.material_id;
    let iw = imgs[mid].width;
    let ih = imgs[mid].height;
    proof {
        vstd::arithmetic::div_mod::lemma_div_pos_is_pos(un as int, aa as int);
        vstd::arithmetic::div_mod::lemma_div_pos_is_pos(vn as int, aa as int);
        vstd::arithmetic::div_mod::lemma_div_is_ordered_by_denominator(un as int, 1, aa as int);
        vstd::arithmetic::div_mod::lemma_div_is_ordered_by_denominator(vn as int, 1, aa as int);
    }
    let pxw = mul_wn(uq, iw as i128);
    let pyw = mul_wn(vq, ih as i128);
    let px0 = pxw / 256;
    let py0 = pyw / 256;
    proof {
        vstd::arithmetic::div_mod::lemma_div_pos_is_pos(pxw as int, 256);
        vstd::arithmetic::div_mod::lemma_div_pos_is_pos(pyw as int, 256);
    }
    let px: usize = if px0 > (iw - 1) as i128 {
        iw - 1
    } else {
        px0 as usize
    };
    let pyr: usize = if py0 > (ih - 1) as i128 {
        ih - 1
    } else {
        py0 as usize
    };
    let py: usize = ih - 1 - pyr;
    proof {
        assert(py * iw + px < iw * ih) by (nonlinear_arith)
            requires
                py as int <= ih as int - 1, px as int <= iw as int - 1, 1 <= iw as int <= 0x10000,
                1 <= ih as int <= 0x10000;
        assert(iw * ih <= 0x1_0000_0000) by (nonlinear_arith)
            requires 1 <= iw as int <= 0x10000, 1 <= ih as int <= 0x10000;
    }
    let col = imgs[mid].pixels[py * iw + px];
    proof {
        assert(col == sample_color(*t, gaxis, gsp, gsq, imgs@[mid as int]));
    }
    let (wx, wy, wz): (usize, usize, usize) = if axis == 2 {
        (cp as usize, cq as usize, rcell as usize)
    } else if axis == 1 {
        (cp as usize, rcell as usize, cq as usize)
    } else {
        (rcell as usize, cp as usize, cq as usize)
    };
    proof {
        assert(cell_p(gaxis, wx as int, wy as int, wz as int) == cp as int);
        assert(cell_q(gaxis, wx as int, wy as int, wz as int) == cq as int);
        assert(cell_r(gaxis, wx as int, wy as int, wz as int) == rcell as int);
    }
    tree.set(wx, wy, wz, Some(col));
    proof {
        assert forall|cx: int, cy: int, cz: int|
            old(tree).in_bounds(cx, cy, cz) implies #[trigger] tree.cell(cx, cy, cz) == (
        if covers(*t, gside, cx, cy, cz) && cell_p(gaxis, cx, cy, cz) == cp && cell_q(
            gaxis,
            cx,
            cy,
            cz,
        ) == cq {
            Some(covered_color(*t, imgs@, cx, cy, cz))
        } else {
            old(tree).cell(cx, cy, cz)
        }) by {
            if cell_p(gaxis, cx, cy, cz) == cp as int && cell_q(gaxis, cx, cy, cz) == cq as int {
                if covers(*t, gside, cx, cy, cz) {
                    assert(cell_r(gaxis, cx, cy, cz) == rcell as int);
                    assert(cx == wx && cy == wy && cz == wz);
                    assert(covers(*t, gside, wx as int, wy as int, wz as int));
                    assert(covered_color(*t, imgs@, cx, cy, cz) == col);
                } else {
                    if (cx, cy, cz) == (wx as int, wy as int, wz as int) {
                        assert(covers(*t, gside, wx as int, wy as int, wz as int));
                        assert(false);
                    }
                }
            }
        }
    }
}

/// Rasterizes one prepared triangle into the volume: writes exactly the
/// cells `covers` describes, each with its sampled color, and leaves every
/// other cell unchanged.
#[verifier::loop_isolation(false)]
#[verifier::rlimit(60)]
fn rasterize_triangle(tree: &mut VoxelTree, t: &Triangle, imgs: &Vec<MaterialImage>)
    requires
        old(tree).wf(),
        tri_prepared(*t),
        t.material_id < imgs@.len(),
        forall|i: int| 0 <= i < imgs@.len() ==> img_wf(#[trigger] imgs@[i]),
    ensures
        final(tree).wf(),
        final(tree).size == old(tree).size,
        forall|cx: int, cy: int, cz: int|
            old(tree).in_bounds(cx, cy, cz) ==> #[trigger] final(tree).cell(cx, cy, cz) == (
            if covers(*t, old(tree).side_spec(), cx, cy, cz) {
                Some(covered_color(*t, imgs@, cx, cy, cz))
            } else {
                old(tree).cell(cx, cy, cz)
            }),
{
    proof {
        crate::octree::lemma_side_bound(*tree);
    }
    let side = tree.side();
    let ghost gside = old(tree).side_spec();
    let d1x = (t.v1.x - t.v0.x) as i128;
    let d1y = (t.v1.y - t.v0.y) as i128;
    let d1z = (t.v1.z - t.v0.z) as i128;
    let d2x = (t.v2.x - t.v0.x) as i128;
    let d2y = (t.v2.y - t.v0.y) as i128;
    let d2z = (t.v2.z - t.v0.z) as i128;
    let nx = mul_cc(d1y, d2z) - mul_cc(d1z, d2y);
    let ny = mul_cc(d1z, d2x) - mul_cc(d1x, d2z);
    let nz = mul_cc(d1x, d2y) - mul_cc(d1y, d2x);
    proof {
        assert(nx == normal_x(*t) && ny == normal_y(*t) && nz == normal_z(*t));
    }
    if nx == 0 && ny == 0 && nz == 0 {
        proof {
            assert(degenerate(*t));
        }
        return;
    }
    let axn = if nx >= 0 {
        nx
    } else {
        -nx
    };
    let ayn = if ny >= 0 {
        ny
    } else {
        -ny
    };
    let azn = if nz >= 0 {
        nz
    } else {
        -nz
    };
    let axis: usize = if azn >= axn && azn >= ayn {
        2
    } else if ayn >= axn {
        1
    } else {
        0
    };
    let ghost gaxis = axis as int;
    proof {
        assert(gaxis == dom_axis(*t));
    }
    let (p0, p1, p2): (i64, i64, i64) = if axis == 0 {
        (t.v0.y, t.v1.y, t.v2.y)
    } else {
        (t.v0.x, t.v1.x, t.v2.x)
    };
    let (q0, q1, q2): (i64, i64, i64) = if axis == 2 {
        (t.v0.y, t.v1.y, t.v2.y)
    } else {
        (t.v0.z, t.v1.z, t.v2.z)
    };
    proof {
        assert(p0 == pco(t.v0, gaxis) && p1 == pco(t.v1, gaxis) && p2 == pco(t.v2, gaxis));
        assert(q0 == qco(t.v0, gaxis) && q1 == qco(t.v1, gaxis) && q2 == qco(t.v2, gaxis));
    }
    let side_i = side as i64;
    let minp = if p0 <= p1 && p0 <= p2 {
        p0
    } else if p1 <= p2 {
        p1
    } else {
        p2
    };
    let maxp = if p0 >= p1 && p0 >= p2 {
        p0
    } else if p1 >= p2 {
        p1
    } else {
        p2
    };
    let minq = if q0 <= q1 && q0 <= q2 {
        q0
    } else if q1 <= q2 {
        q1
    } else {
        q2
    };
    let maxq = if q0 >= q1 && q0 >= q2 {
        q0
    } else if q1 >= q2 {
        q1
    } else {
        q2
    };
    let lo_p = minp / 256;
    let hi_p0 = maxp / 256;
    let hi_p = if hi_p0 > side_i - 1 {
        side_i - 1
    } else {
        hi_p0
    };
    let lo_q = minq / 256;
    let hi_q0 = maxq / 256;
    let hi_q = if hi_q0 > side_i - 1 {
        side_i - 1
    } else {
        hi_q0
    };
    proof {
        assert(lo_p == bbox_p_lo(*t, gaxis) && hi_p == bbox_p_hi(*t, gaxis, gside));
        assert(lo_q == bbox_q_lo(*t, gaxis) && hi_q == bbox_q_hi(*t, gaxis, gside));
        assert(lo_p >= 0 && lo_q >= 0);
    }
    if lo_p > hi_p || lo_q > hi_q {
        return;
    }
    let mut cp = lo_p;
    while cp <= hi_p
        invariant
            lo_p <= cp <= hi_p + 1,
            tree.wf(),
            tree.size == old(tree).size,
            forall|cx: int, cy: int, cz: int|
                old(tree).in_bounds(cx, cy, cz) ==> #[trigger] tree.cell(cx, cy, cz) == (
                if covers(*t, gside, cx, cy, cz) && cell_p(gaxis, cx, cy, cz) < cp {
                    Some(covered_color(*t, imgs@, cx, cy, cz))
                } else {
                    old(tree).cell(cx, cy, cz)
                }),
        decreases hi_p + 1 - cp,
    {
        let mut cq = lo_q;
        while cq <= hi_q
            invariant
                lo_p <= cp <= hi_p,
                lo_q <= cq <= hi_q + 1,
                tree.wf(),
                tree.size == old(tree).size,
                forall|cx: int, cy: int, cz: int|
                    old(tree).in_bounds(cx, cy, cz) ==> #[trigger] tree.cell(cx, cy, cz) == (
                    if covers(*t, gside, cx, cy, cz) && (cell_p(gaxis, cx, cy, cz) < cp || (
                    cell_p(gaxis, cx, cy, cz) == cp && cell_q(gaxis, cx, cy, cz) < cq)) {
                        Some(covered_color(*t, imgs@, cx, cy, cz))
                    } else {
                        old(tree).cell(cx, cy, cz)
                    }),
            decreases hi_q + 1 - cq,
        {
            let ghost pre = *tree;
            raster_column(tree, t, imgs, axis, cp, cq);
            proof {
                assert forall|cx: int, cy: int, cz: int|
                    old(tree).in_bounds(cx, cy, cz) implies #[trigger] tree.cell(cx, cy, cz) == (
                if covers(*t, gside, cx, cy, cz) && (cell_p(gaxis, cx, cy, cz) < cp || (cell_p(
                    gaxis,
                    cx,
                    cy,
                    cz,
                ) == cp && cell_q(gaxis, cx, cy, cz) < cq + 1)) {
                    Some(covered_color(*t, imgs@, cx, cy, cz))
                } else {
                    old(tree).cell(cx, cy, cz)
                }) by {
                    assert(tree.cell(cx, cy, cz) == (if covers(*t, gside, cx, cy, cz) && cell_p(
                        gaxis,
                        cx,
                        cy,
                        cz,
                    ) == cp && cell_q(gaxis, cx, cy, cz) == cq {
                        Some(covered_color(*t, imgs@, cx, cy, cz))
                    } else {
                        pre.cell(cx, cy, cz)
                    }));
                }
            }
            cq = cq + 1;
        }
        proof {
            assert forall|cx: int, cy: int, cz: int|
                old(tree).in_bounds(cx, cy, cz) implies #[trigger] tree.cell(cx, cy, cz) == (
            if covers(*t, gside, cx, cy, cz) && cell_p(gaxis, cx, cy, cz) < cp + 1 {
                Some(covered_color(*t, imgs@, cx, cy, cz))
            } else {
                old(tree).cell(cx, cy, cz)
            }) by {
                if covers(*t, gside, cx, cy, cz) && cell_p(gaxis, cx, cy, cz) == cp as int {
                    assert(cell_q(gaxis, cx, cy, cz) <= hi_q);
                }
            }
        }
        cp = cp + 1;
    }
    proof {
        assert forall|cx: int, cy: int, cz: int|
            old(tree).in_bounds(cx, cy, cz) && covers(*t, gside, cx, cy, cz) implies cell_p(
            gaxis,
            cx,
            cy,
            cz,
        ) < cp by {
        }
    }
}

/// Whether a brick family stretches the vertical axis: standard and tile
/// bricks are two and a half times as tall as they are wide, so their
/// voxels must be stretched to compensate.
pub open spec fn stretched(bt: BrickType) -> bool {
    bt != BrickType::Microbricks
}

/// One vertex translated to the grid origin, with the vertical stretch
/// applied after translation.
pub open spec fn prep_vertex(v: Vertex, ox: int, oy: int, oz: int, st: bool) -> Vertex {
    Vertex {
        x: (v.x - ox) as i64,
        y: if st {
            ((v.y - oy) * 5 / 2) as i64
        } else {
            (v.y - oy) as i64
        },
        z: (v.z - oz) as i64,
        u: v.u,
        v: v.v,
    }
}

pub open spec fn prep_tri(t: Triangle, ox: int, oy: int, oz: int, st: bool) -> Triangle {
    Triangle {
        v0: prep_vertex(t.v0, ox, oy, oz, st),
        v1: prep_vertex(t.v1, ox, oy, oz, st),
        v2: prep_vertex(t.v2, ox, oy, oz, st),
        material_id: t.material_id,
    }
}

pub open spec fn min2i(a: int, b: int) -> int {
    if a < b {
        a
    } else {
        b
    }
}

pub open spec fn max2i(a: int, b: int) -> int {
    if a > b {
        a
    } else {
        b
    }
}

pub open spec fn tri_min_x(t: Triangle) -> int {
    min3i(t.v0.x as int, t.v1.x as int, t.v2.x as int)
}

pub open spec fn tri_min_y(t: Triangle) -> int {
    min3i(t.v0.y as int, t.v1.y as int, t.v2.y as int)
}

pub open spec fn tri_min_z(t: Triangle) -> int {
    min3i(t.v0.z as int, t.v1.z as int, t.v2.z as int)
}

pub open spec fn seq_min_x(tris: Seq<Triangle>) -> int
    decreases tris.len(),
{
    if tris.len() <= 1 {
        tri_min_x(tris[0])
    } else {
        min2i(seq_min_x(tris.drop_last()), tri_min_x(tris.last()))
    }
}

pub open spec fn seq_min_y(tris: Seq<Triangle>) -> int
    decreases tris.len(),
{
    if tris.len() <= 1 {
        tri_min_y(tris[0])
    } else {
        min2i(seq_min_y(tris.drop_last()), tri_min_y(tris.last()))
    }
}

pub open spec fn seq_min_z(tris: Seq<Triangle>) -> int
    decreases tris.len(),
{
    if tris.len() <= 1 {
        tri_min_z(tris[0])
    } else {
        min2i(seq_min_z(tris.drop_last()), tri_min_z(tris.last()))
    }
}

pub open spec fn vert_max_c(v: Vertex) -> int {
    max3i(v.x as int, v.y as int, v.z as int)
}

pub open spec fn tri_max_c(t: Triangle) -> int {
    max3i(vert_max_c(t.v0), vert_max_c(t.v1), vert_max_c(t.v2))
}

pub open spec fn seq_max_c(tris: Seq<Triangle>) -> int
    decreases tris.len(),
{
    if tris.len() <= 1 {
        tri_max_c(tris[0])
    } else {
        max2i(seq_max_c(tris.drop_last()), tri_max_c(tris.last()))
    }
}

/// The whole mesh translated so that no coordinate is negative, with the
/// vertical stretch of the brick family applied.
pub open spec fn prepped_seq(tris: Seq<Triangle>, st: bool) -> Seq<Triangle> {
    tris.map_values(
        |t: Triangle| prep_tri(t, seq_min_x(tris), seq_min_y(tris), seq_min_z(tris), st),
    )
}

/// The smallest depth at or above `s`, up to the maximum, whose cube spans
/// past the fixed-point coordinate `m`.
pub open spec fn fit_from(m: int, s: nat) -> nat
    decreases 20 - s,
{
    if s >= 20 {
        20
    } else if crate::octree::side_of_log(s) * 256 > m {
        s
    } else {
        fit_from(m, s + 1)
    }
}

/// The octree depth one conversion uses: deep enough that the prepared mesh
/// fits, within the supported maximum.
pub open spec fn voxel_grid_size(tris: Seq<Triangle>, st: bool) -> nat {
    if tris.len() == 0 {
        0
    } else {
        fit_from(seq_max_c(prepped_seq(tris, st)), 0)
    }
}

/// Voxelizes a mesh: translates it to the grid corner, applies the brick
/// family's vertical stretch, sizes a volume to fit, and rasterizes every
/// triangle that passes the material filter, in mesh order. The contract
/// pins every cell: it holds the sampled color of the last triangle whose
/// rasterization covers it, and is empty if none does. An empty mesh yields
/// an empty volume.
#[verifier::loop_isolation(false)]
#[verifier::rlimit(100)]
pub fn voxelize(
    models: &Vec<Triangle>,
    material_images: &Vec<MaterialImage>,
    bricktype: BrickType,
    material_filter: Option<usize>,
) -> (tree: VoxelTree)
    requires
        forall|i: int| 0 <= i < models@.len() ==> tri_in_range(#[trigger] models@[i]),
        forall|i: int|
            0 <= i < models@.len() ==> (#[trigger] models@[i]).material_id
                < material_images@.len(),
        forall|i: int| 0 <= i < material_images@.len() ==> img_wf(#[trigger] material_images@[i]),
    ensures
        tree.wf(),
        tree.size as nat == voxel_grid_size(models@, stretched(bricktype)),
        forall|cx: int, cy: int, cz: int|
            tree.in_bounds(cx, cy, cz) ==> #[trigger] tree.cell(cx, cy, cz) == cell_after(
                prepped_seq(models@, stretched(bricktype)),
                material_images@,
                material_filter,
                tree.side_spec(),
                cx,
                cy,
                cz,
            ),
        models@.len() == 0 ==> forall|cx: int, cy: int, cz: int|
            tree.in_bounds(cx, cy, cz) ==> (#[trigger] tree.cell(cx, cy, cz)) is None,
{
    let st = !(bricktype == BrickType::Microbricks);
    let n = models.len();
    if n == 0 {
        let tree = VoxelTree::new(0);
        return tree;
    }
    let t0 = models[0];
    let mut ox: i64 = min3e(t0.v0.x, t0.v1.x, t0.v2.x);
    let mut oy: i64 = min3e(t0.v0.y, t0.v1.y, t0.v2.y);
    let mut oz: i64 = min3e(t0.v0.z, t0.v1.z, t0.v2.z);
    let mut i: usize = 1;
    proof {
        assert(models@.take(1)[0] == models@[0]);
        assert(models@.take(1).len() == 1);
    }
    while i < n
        invariant
            1 <= i <= n,
            n == models@.len(),
            ox == seq_min_x(models@.take(i as int)),
            oy == seq_min_y(models@.take(i as int)),
            oz == seq_min_z(models@.take(i as int)),
            -0x200_0000 <= ox <= 0x200_0000,
            -0x200_0000 <= oy <= 0x200_0000,
            -0x200_0000 <= oz <= 0x200_0000,
            forall|j: int|
                0 <= j < i ==> ox as int <= tri_min_x(#[trigger] models@[j]) && oy as int
                    <= tri_min_y(models@[j]) && oz as int <= tri_min_z(models@[j]),
        decreases n - i,
    {
        proof {
            assert(models@.take(i + 1).drop_last() =~= models@.take(i as int));
            assert(models@.take(i + 1).last() == models@[i as int]);
        }
        let t = models[i];
        let tx = min3e(t.v0.x, t.v1.x, t.v2.x);
        let ty = min3e(t.v0.y, t.v1.y, t.v2.y);
        let tz = min3e(t.v0.z, t.v1.z, t.v2.z);
        if tx < ox {
            ox = tx;
        }
        if ty < oy {
            oy = ty;
        }
        if tz < oz {
            oz = tz;
        }
        i = i + 1;
    }
    proof {
        assert(models@.take(n as int) =~= models@);
    }
    let mut prepped: Vec<Triangle> = Vec::new();
    let mut k: usize = 0;
    while k < n
        invariant
            k <= n,
            n == models@.len(),
            ox == seq_min_x(models@),
            oy == seq_min_y(models@),
            oz == seq_min_z(models@),
            -0x200_0000 <= ox <= 0x200_0000,
            -0x200_0000 <= oy <= 0x200_0000,
            -0x200_0000 <= oz <= 0x200_0000,
            forall|j: int|
                0 <= j < n ==> ox as int <= tri_min_x(#[trigger] models@[j]) && oy as int
                    <= tri_min_y(models@[j]) && oz as int <= tri_min_z(models@[j]),
            st == stretched(bricktype),
            prepped@.len() == k,
            forall|j: int|
                0 <= j < k ==> #[trigger] prepped@[j] == prep_tri(
                    models@[j],
                    ox as int,
                    oy as int,
                    oz as int,
                    st,
                ),
            forall|j: int| 0 <= j < k ==> tri_prepared(#[trigger] prepped@[j]),
            forall|j: int|
                0 <= j < k ==> (#[trigger] prepped@[j]).material_id < material_images@.len(),
        decreases n - k,
    {
        let t = models[k];
        let pv0 = prep_vertex_exec(t.v0, ox, oy, oz, st);
        let pv1 = prep_vertex_exec(t.v1, ox, oy, oz, st);
        let pv2 = prep_vertex_exec(t.v2, ox, oy, oz, st);
        prepped.push(Triangle { v0: pv0, v1: pv1, v2: pv2, material_id: t.material_id });
        k = k + 1;
    }
    proof {
        assert(prepped@ =~= prepped_seq(models@, stretched(bricktype)));
    }
    let tp0 = prepped[0];
    let mut maxc: i64 = max3e(
        max3e(tp0.v0.x, tp0.v0.y, tp0.v0.z),
        max3e(tp0.v1.x, tp0.v1.y, tp0.v1.z),
        max3e(tp0.v2.x, tp0.v2.y, tp0.v2.z),
    );
    let mut m: usize = 1;
    proof {
        assert(prepped@.take(1)[0] == prepped@[0]);
        assert(prepped@.take(1).len() == 1);
    }
    while m < n
        invariant
            1 <= m <= n,
            n == prepped@.len(),
            maxc == seq_max_c(prepped@.take(m as int)),
            forall|j: int| 0 <= j < n ==> tri_prepared(#[trigger] prepped@[j]),
            0 <= maxc < 0x1000_0000,
        decreases n - m,
    {
        proof {
            assert(prepped@.take(m + 1).drop_last() =~= prepped@.take(m as int));
            assert(prepped@.take(m + 1).last() == prepped@[m as int]);
        }
        let t = prepped[m];
        let tm = max3e(
            max3e(t.v0.x, t.v0.y, t.v0.z),
            max3e(t.v1.x, t.v1.y, t.v1.z),
            max3e(t.v2.x, t.v2.y, t.v2.z),
        );
        if tm > maxc {
            maxc = tm;
        }
        m = m + 1;
    }
    proof {
        assert(prepped@.take(n as int) =~= prepped@);
    }
    let mut size: u32 = 0;
    let mut cur: i64 = 1;
    while size < 20 && cur * 256 <= maxc
        invariant
            size <= 20,
            cur == crate::octree::side_of_log(size as nat),
            1 <= cur <= 0x100000,
            fit_from(maxc as int, 0) == fit_from(maxc as int, size as nat),
        decreases 20 - size,
    {
        proof {
            crate::octree::lemma_side_of_log_le((size + 1) as nat, 20);
            crate::octree::lemma_side_of_log_20();
        }
        cur = cur * 2;
        size = size + 1;
    }
    proof {
        assert(size as nat == fit_from(maxc as int, 0));
        assert(size as nat == voxel_grid_size(models@, stretched(bricktype)));
    }
    let mut tree = VoxelTree::new(size);
    let ghost gside = tree.side_spec();
    let ghost pseq = prepped_seq(models@, stretched(bricktype));
    let mut r: usize = 0;
    while r < n
        invariant
            r <= n,
            n == prepped@.len(),
            tree.wf(),
            tree.size == size,
            gside == tree.side_spec(),
            pseq == prepped@,
            forall|j: int| 0 <= j < n ==> tri_prepared(#[trigger] prepped@[j]),
            forall|j: int|
                0 <= j < n ==> (#[trigger] prepped@[j]).material_id < material_images@.len(),
            forall|i2: int|
                0 <= i2 < material_images@.len() ==> img_wf(#[trigger] material_images@[i2]),
            forall|cx: int, cy: int, cz: int|
                tree.in_bounds(cx, cy, cz) ==> #[trigger] tree.cell(cx, cy, cz) == cell_after(
                    pseq.take(r as int),
                    material_images@,
                    material_filter,
                    gside,
                    cx,
                    cy,
                    cz,
                ),
        decreases n - r,
    {
        proof {
            assert(pseq.take(r + 1).drop_last() =~= pseq.take(r as int));
            assert(pseq.take(r + 1).last() == prepped@[r as int]);
        }
        let keep = match material_filter {
            None => true,
            Some(mf) => prepped[r].material_id == mf,
        };
        if keep {
            let ghost before = tree;
            rasterize_triangle(&mut tree, &prepped[r], material_images);
            proof {
                assert forall|cx: int, cy: int, cz: int|
                    tree.in_bounds(cx, cy, cz) implies #[trigger] tree.cell(cx, cy, cz)
                    == cell_after(
                    pseq.take(r + 1),
                    material_images@,
                    material_filter,
                    gside,
                    cx,
                    cy,
                    cz,
                ) by {
                    assert(selected(prepped@[r as int], material_filter));
                }
            }
        } else {
            proof {
                assert forall|cx: int, cy: int, cz: int|
                    tree.in_bounds(cx, cy, cz) implies #[trigger] tree.cell(cx, cy, cz)
                    == cell_after(
                    pseq.take(r + 1),
                    material_images@,
                    material_filter,
                    gside,
                    cx,
                    cy,
                    cz,
                ) by {
                    assert(!selected(prepped@[r as int], material_filter));
                }
            }
        }
        r = r + 1;
    }
    proof {
        assert(pseq.take(n as int) =~= pseq);
    }
    tree
}

/// Voxelization is deterministic: the volume's cells are a function of the
/// mesh, the textures, the brick family and the material filter alone, so
/// two volumes built by `voxelize` from identical inputs agree on every
/// cell. The merger reads a volume only through its cells and its seed
/// scan, so identical inputs drive the whole pipeline identically.
pub proof fn lemma_voxelize_deterministic(
    t1: VoxelTree,
    t2: VoxelTree,
    tris: Seq<Triangle>,
    imgs: Seq<MaterialImage>,
    bt: BrickType,
    filter: Option<usize>,
)
    requires
        t1.size as nat == voxel_grid_size(tris, stretched(bt)),
        t2.size as nat == voxel_grid_size(tris, stretched(bt)),
        forall|cx: int, cy: int, cz: int|
            t1.in_bounds(cx, cy, cz) ==> #[trigger] t1.cell(cx, cy, cz) == cell_after(
                prepped_seq(tris, stretched(bt)),
                imgs,
                filter,
                t1.side_spec(),
                cx,
                cy,
                cz,
            ),
        forall|cx: int, cy: int, cz: int|
            t2.in_bounds(cx, cy, cz) ==> #[trigger] t2.cell(cx, cy, cz) == cell_after(
                prepped_seq(tris, stretched(bt)),
                imgs,
                filter,
                t2.side_spec(),
                cx,
                cy,
                cz,
            ),
    ensures
        t1.size == t2.size,
        forall|cx: int, cy: int, cz: int|
            t1.in_bounds(cx, cy, cz) ==> #[trigger] t1.cell(cx, cy, cz) == t2.cell(cx, cy, cz),
{
    assert forall|cx: int, cy: int, cz: int|
        t1.in_bounds(cx, cy, cz) implies #[trigger] t1.cell(cx, cy, cz) == t2.cell(
        cx,
        cy,
        cz,
    ) by {
        assert(t2.in_bounds(cx, cy, cz));
    }
}

/// The smallest of three machine integers.
fn min3e(a: i64, b: i64, c: i64) -> (r: i64)
    ensures
        r == min3i(a as int, b as int, c as int),
{
    if a <= b && a <= c {
        a
    } else if b <= c {
        b
    } else {
        c
    }
}

/// The largest of three machine integers.
fn max3e(a: i64, b: i64, c: i64) -> (r: i64)
    ensures
        r == max3i(a as int, b as int, c as int),
{
    if a >= b && a >= c {
        a
    } else if b >= c {
        b
    } else {
        c
    }
}

/// Translates and stretches one vertex.
fn prep_vertex_exec(v: Vertex, ox: i64, oy: i64, oz: i64, st: bool) -> (r: Vertex)
    requires
        vert_in_range(v),
        -0x200_0000 <= ox <= v.x,
        -0x200_0000 <= oy <= v.y,
        -0x200_0000 <= oz <= v.z,
    ensures
        r == prep_vertex(v, ox as int, oy as int, oz as int, st),
        vert_prepared(r),
{
    let y0 = v.y - oy;
    let y = if st {
        y0 * 5 / 2
    } else {
        y0
    };
    Vertex { x: v.x - ox, y, z: v.z - oz, u: v.u, v: v.v }
}

} // verus!
