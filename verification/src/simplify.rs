//! Greedy run-merging: consumes a populated voxel volume destructively and
//! produces a flat list of merged cuboid regions. Growth from each seed cell
//! is along positive Z, then Y, then X; a slab is accepted only if every cell
//! in it passes the acceptance test. In lossless mode a cell is accepted only
//! when its palette-matched index equals the seed's; in lossy mode any
//! occupied cell is accepted and the region's colors are averaged afterwards.

use vstd::prelude::*;

verus! {

use crate::color::{
    Hsv,
    Rgba,
    hsv_wf,
    is_first_argmin,
    rgb_to_hsv_spec,
    rgb2hsv,
    match_hsv_to_colorset,
    lemma_first_argmin_unique,
};
use crate::octree::{VoxelTree, morton, lemma_tree_morton_range};
use crate::color::{hsv_average, hsv_average_spec, hsv_to_rgb_spec, hsv2rgb};

/// One merged axis-aligned box: origin, extent, the palette index its color
/// matches to, and its resolved color before gamma correction.
pub struct MergedRegion {
    pub x: usize,
    pub y: usize,
    pub z: usize,
    pub w: usize,
    pub h: usize,
    pub d: usize,
    pub palette_index: usize,
    pub color: Rgba,
}

/// Whether the cell `(qx, qy, qz)` lies in the region's box.
pub open spec fn region_contains(r: MergedRegion, qx: int, qy: int, qz: int) -> bool {
    &&& r.x <= qx < r.x + r.w
    &&& r.y <= qy < r.y + r.h
    &&& r.z <= qz < r.z + r.d
}

/// The merger's acceptance test at one cell: the cell is occupied, and in
/// lossless mode its color's nearest palette index is the seed's index `m`.
pub open spec fn accepts(
    t: VoxelTree,
    cs: Seq<Hsv>,
    lossless: bool,
    m: int,
    qx: int,
    qy: int,
    qz: int,
) -> bool {
    &&& t.cell(qx, qy, qz) is Some
    &&& (lossless ==> is_first_argmin(cs, rgb_to_hsv_spec(t.cell(qx, qy, qz)->Some_0), m))
}

/// Well-formed palette argument for the merger.
pub open spec fn colorset_wf(cs: Seq<Hsv>) -> bool {
    cs.len() >= 1 && forall|i: int| 0 <= i < cs.len() ==> hsv_wf(#[trigger] cs[i])
}

fn accept_cell(
    t: &VoxelTree,
    colorset: &Vec<Hsv>,
    lossless: bool,
    m: usize,
    qx: usize,
    qy: usize,
    qz: usize,
) -> (ok: bool)
    requires
        t.wf(),
        t.in_bounds(qx as int, qy as int, qz as int),
        colorset_wf(colorset@),
    ensures
        ok == accepts(*t, colorset@, lossless, m as int, qx as int, qy as int, qz as int),
{
    match t.get(qx, qy, qz) {
        None => false,
        Some(c) => {
            if !lossless {
                true
            } else {
                let h = rgb2hsv(c);
                let idx = match_hsv_to_colorset(colorset, &h);
                proof {
                    if idx != m && is_first_argmin(colorset@, h, m as int) {
                        lemma_first_argmin_unique(colorset@, h, idx as int, m as int);
                    }
                }
                idx == m
            }
        },
    }
}

/// Checks a z-run of cells at fixed `(x, yy)`.
fn check_col(
    t: &VoxelTree,
    colorset: &Vec<Hsv>,
    lossless: bool,
    m: usize,
    x: usize,
    yy: usize,
    z0: usize,
    z1: usize,
) -> (ok: bool)
    requires
        t.wf(),
        x < t.side_spec(),
        yy < t.side_spec(),
        z0 <= z1 <= t.side_spec(),
        colorset_wf(colorset@),
    ensures
        ok == forall|qz: int|
            z0 <= qz < z1 ==> accepts(*t, colorset@, lossless, m as int, x as int, yy as int, qz),
{
    let mut zz = z0;
    while zz < z1
        invariant
            z0 <= zz <= z1 <= t.side_spec(),
            t.wf(),
            x < t.side_spec(),
            yy < t.side_spec(),
            colorset_wf(colorset@),
            forall|qz: int|
                z0 <= qz < zz ==> accepts(
                    *t,
                    colorset@,
                    lossless,
                    m as int,
                    x as int,
                    yy as int,
                    qz,
                ),
        decreases z1 - zz,
    {
        if !accept_cell(t, colorset, lossless, m, x, yy, zz) {
            return false;
        }
        zz = zz + 1;
    }
    true
}

/// Checks a full yz-slab of cells at fixed `xx`.
fn check_plane(
    t: &VoxelTree,
    colorset: &Vec<Hsv>,
    lossless: bool,
    m: usize,
    xx: usize,
    y0: usize,
    y1: usize,
    z0: usize,
    z1: usize,
) -> (ok: bool)
    requires
        t.wf(),
        xx < t.side_spec(),
        y0 <= y1 <= t.side_spec(),
        z0 <= z1 <= t.side_spec(),
        colorset_wf(colorset@),
    ensures
        ok == forall|qy: int, qz: int|
            y0 <= qy < y1 && z0 <= qz < z1 ==> accepts(
                *t,
                colorset@,
                lossless,
                m as int,
                xx as int,
                qy,
                qz,
            ),
{
    let mut yy = y0;
    while yy < y1
        invariant
            y0 <= yy <= y1 <= t.side_spec(),
            z0 <= z1 <= t.side_spec(),
            t.wf(),
            xx < t.side_spec(),
            colorset_wf(colorset@),
            forall|qy: int, qz: int|
                y0 <= qy < yy && z0 <= qz < z1 ==> accepts(
                    *t,
                    colorset@,
                    lossless,
                    m as int,
                    xx as int,
                    qy,
                    qz,
                ),
        decreases y1 - yy,
    {
        if !check_col(t, colorset, lossless, m, xx, yy, z0, z1) {
            return false;
        }
        yy = yy + 1;
    }
    true
}

/// The colors of one z-run of occupied cells at fixed `(x, y)`, in
/// increasing z order.
pub open spec fn col_colors(t: VoxelTree, x: int, y: int, z0: int, z1: int) -> Seq<Rgba>
    decreases z1 - z0,
{
    if z1 <= z0 {
        Seq::empty()
    } else {
        seq![t.cell(x, y, z0)->Some_0] + col_colors(t, x, y, z0 + 1, z1)
    }
}

/// The colors of one yz-slab of occupied cells at fixed `x`: its z-runs in
/// increasing y order.
pub open spec fn slab_colors(t: VoxelTree, x: int, y0: int, y1: int, z0: int, z1: int) -> Seq<
    Rgba,
>
    decreases y1 - y0,
{
    if y1 <= y0 {
        Seq::empty()
    } else {
        col_colors(t, x, y0, z0, z1) + slab_colors(t, x, y0 + 1, y1, z0, z1)
    }
}

/// The colors of a box of occupied cells: its slabs in increasing x order,
/// so the first color is the cell at the box's origin.
pub open spec fn box_colors(
    t: VoxelTree,
    x0: int,
    x1: int,
    y0: int,
    y1: int,
    z0: int,
    z1: int,
) -> Seq<Rgba>
    decreases x1 - x0,
{
    if x1 <= x0 {
        Seq::empty()
    } else {
        slab_colors(t, x0, y0, y1, z0, z1) + box_colors(t, x0 + 1, x1, y0, y1, z0, z1)
    }
}

proof fn lemma_col_snoc(t: VoxelTree, x: int, y: int, z0: int, z1: int)
    requires
        z0 <= z1,
    ensures
        col_colors(t, x, y, z0, z1 + 1) == col_colors(t, x, y, z0, z1) + seq![
            t.cell(x, y, z1)->Some_0,
        ],
    decreases z1 - z0,
{
    if z0 == z1 {
        assert(col_colors(t, x, y, z0 + 1, z1 + 1) =~= Seq::<Rgba>::empty());
        assert(col_colors(t, x, y, z0, z1) =~= Seq::<Rgba>::empty());
        assert(col_colors(t, x, y, z0, z1 + 1) =~= seq![t.cell(x, y, z0)->Some_0] + col_colors(
            t,
            x,
            y,
            z0 + 1,
            z1 + 1,
        ));
        assert(col_colors(t, x, y, z0, z1 + 1) =~= col_colors(t, x, y, z0, z1) + seq![
            t.cell(x, y, z1)->Some_0,
        ]);
    } else {
        lemma_col_snoc(t, x, y, z0 + 1, z1);
        assert(col_colors(t, x, y, z0, z1 + 1) =~= seq![t.cell(x, y, z0)->Some_0] + col_colors(
            t,
            x,
            y,
            z0 + 1,
            z1 + 1,
        ));
        assert(col_colors(t, x, y, z0, z1) =~= seq![t.cell(x, y, z0)->Some_0] + col_colors(
            t,
            x,
            y,
            z0 + 1,
            z1,
        ));
        assert(col_colors(t, x, y, z0, z1 + 1) =~= col_colors(t, x, y, z0, z1) + seq![
            t.cell(x, y, z1)->Some_0,
        ]);
    }
}

proof fn lemma_slab_snoc(t: VoxelTree, x: int, y0: int, y1: int, z0: int, z1: int)
    requires
        y0 <= y1,
    ensures
        slab_colors(t, x, y0, y1 + 1, z0, z1) == slab_colors(t, x, y0, y1, z0, z1) + col_colors(
            t,
            x,
            y1,
            z0,
            z1,
        ),
    decreases y1 - y0,
{
    if y0 == y1 {
        assert(slab_colors(t, x, y0 + 1, y1 + 1, z0, z1) =~= Seq::<Rgba>::empty());
        assert(slab_colors(t, x, y0, y1, z0, z1) =~= Seq::<Rgba>::empty());
        assert(slab_colors(t, x, y0, y1 + 1, z0, z1) =~= col_colors(t, x, y0, z0, z1)
            + slab_colors(t, x, y0 + 1, y1 + 1, z0, z1));
        assert(slab_colors(t, x, y0, y1 + 1, z0, z1) =~= slab_colors(t, x, y0, y1, z0, z1)
            + col_colors(t, x, y1, z0, z1));
    } else {
        lemma_slab_snoc(t, x, y0 + 1, y1, z0, z1);
        assert(slab_colors(t, x, y0, y1 + 1, z0, z1) =~= col_colors(t, x, y0, z0, z1)
            + slab_colors(t, x, y0 + 1, y1 + 1, z0, z1));
        assert(slab_colors(t, x, y0, y1, z0, z1) =~= col_colors(t, x, y0, z0, z1) + slab_colors(
            t,
            x,
            y0 + 1,
            y1,
            z0,
            z1,
        ));
        assert(slab_colors(t, x, y0, y1 + 1, z0, z1) =~= slab_colors(t, x, y0, y1, z0, z1)
            + col_colors(t, x, y1, z0, z1));
    }
}

proof fn lemma_box_snoc(t: VoxelTree, x0: int, x1: int, y0: int, y1: int, z0: int, z1: int)
    requires
        x0 <= x1,
    ensures
        box_colors(t, x0, x1 + 1, y0, y1, z0, z1) == box_colors(t, x0, x1, y0, y1, z0, z1)
            + slab_colors(t, x1, y0, y1, z0, z1),
    decreases x1 - x0,
{
    if x0 == x1 {
        assert(box_colors(t, x0 + 1, x1 + 1, y0, y1, z0, z1) =~= Seq::<Rgba>::empty());
        assert(box_colors(t, x0, x1, y0, y1, z0, z1) =~= Seq::<Rgba>::empty());
        assert(box_colors(t, x0, x1 + 1, y0, y1, z0, z1) =~= slab_colors(t, x0, y0, y1, z0, z1)
            + box_colors(t, x0 + 1, x1 + 1, y0, y1, z0, z1));
        assert(box_colors(t, x0, x1 + 1, y0, y1, z0, z1) =~= box_colors(t, x0, x1, y0, y1, z0, z1)
            + slab_colors(t, x1, y0, y1, z0, z1));
    } else {
        lemma_box_snoc(t, x0 + 1, x1, y0, y1, z0, z1);
        assert(box_colors(t, x0, x1 + 1, y0, y1, z0, z1) =~= slab_colors(t, x0, y0, y1, z0, z1)
            + box_colors(t, x0 + 1, x1 + 1, y0, y1, z0, z1));
        assert(box_colors(t, x0, x1, y0, y1, z0, z1) =~= slab_colors(t, x0, y0, y1, z0, z1)
            + box_colors(t, x0 + 1, x1, y0, y1, z0, z1));
        assert(box_colors(t, x0, x1 + 1, y0, y1, z0, z1) =~= box_colors(t, x0, x1, y0, y1, z0, z1)
            + slab_colors(t, x1, y0, y1, z0, z1));
    }
}

/// The colors of a box depend only on the cells inside it.
proof fn lemma_box_colors_agree(
    t1: VoxelTree,
    t2: VoxelTree,
    x0: int,
    x1: int,
    y0: int,
    y1: int,
    z0: int,
    z1: int,
)
    requires
        forall|qx: int, qy: int, qz: int|
            x0 <= qx < x1 && y0 <= qy < y1 && z0 <= qz < z1 ==> #[trigger] t1.cell(qx, qy, qz)
                == t2.cell(qx, qy, qz),
    ensures
        box_colors(t1, x0, x1, y0, y1, z0, z1) == box_colors(t2, x0, x1, y0, y1, z0, z1),
    decreases x1 - x0,
{
    if x0 < x1 {
        lemma_box_colors_agree(t1, t2, x0 + 1, x1, y0, y1, z0, z1);
        lemma_slab_colors_agree(t1, t2, x0, y0, y1, z0, z1);
    } else {
        assert(box_colors(t1, x0, x1, y0, y1, z0, z1) =~= box_colors(t2, x0, x1, y0, y1, z0, z1));
    }
}

proof fn lemma_slab_colors_agree(
    t1: VoxelTree,
    t2: VoxelTree,
    x: int,
    y0: int,
    y1: int,
    z0: int,
    z1: int,
)
    requires
        forall|qy: int, qz: int|
            y0 <= qy < y1 && z0 <= qz < z1 ==> #[trigger] t1.cell(x, qy, qz) == t2.cell(x, qy, qz),
    ensures
        slab_colors(t1, x, y0, y1, z0, z1) == slab_colors(t2, x, y0, y1, z0, z1),
    decreases y1 - y0,
{
    if y0 < y1 {
        lemma_slab_colors_agree(t1, t2, x, y0 + 1, y1, z0, z1);
        lemma_col_colors_agree(t1, t2, x, y0, z0, z1);
    } else {
        assert(slab_colors(t1, x, y0, y1, z0, z1) =~= slab_colors(t2, x, y0, y1, z0, z1));
    }
}

proof fn lemma_col_colors_agree(t1: VoxelTree, t2: VoxelTree, x: int, y: int, z0: int, z1: int)
    requires
        forall|qz: int| z0 <= qz < z1 ==> #[trigger] t1.cell(x, y, qz) == t2.cell(x, y, qz),
    ensures
        col_colors(t1, x, y, z0, z1) == col_colors(t2, x, y, z0, z1),
    decreases z1 - z0,
{
    if z0 < z1 {
        lemma_col_colors_agree(t1, t2, x, y, z0 + 1, z1);
        assert(col_colors(t1, x, y, z0, z1) =~= col_colors(t2, x, y, z0, z1));
    } else {
        assert(col_colors(t1, x, y, z0, z1) =~= col_colors(t2, x, y, z0, z1));
    }
}

/// Collects the colors of a fully-occupied box, in the order of `box_colors`.
#[verifier::loop_isolation(false)]
fn collect_colors(
    t: &VoxelTree,
    x0: usize,
    x1: usize,
    y0: usize,
    y1: usize,
    z0: usize,
    z1: usize,
) -> (cs: Vec<Rgba>)
    requires
        t.wf(),
        x0 < x1 <= t.side_spec(),
        y0 < y1 <= t.side_spec(),
        z0 < z1 <= t.side_spec(),
        x1 - x0 <= 512,
        y1 - y0 <= 512,
        z1 - z0 <= 512,
        forall|qx: int, qy: int, qz: int|
            x0 <= qx < x1 && y0 <= qy < y1 && z0 <= qz < z1 ==> (#[trigger] t.cell(
                qx,
                qy,
                qz,
            )) is Some,
    ensures
        cs@ == box_colors(*t, x0 as int, x1 as int, y0 as int, y1 as int, z0 as int, z1 as int),
        1 <= cs@.len() <= 0x2000_0000,
{
    let mut cs: Vec<Rgba> = Vec::new();
    let ghost gx1 = x1 as int;
    let ghost gy1 = y1 as int;
    let ghost gz1 = z1 as int;
    let mut sx = x0;
    while sx < x1
        invariant
            x0 <= sx <= x1,
            t.wf(),
            x0 < x1 <= t.side_spec(),
            y0 < y1 <= t.side_spec(),
            z0 < z1 <= t.side_spec(),
            x1 - x0 <= 512,
            y1 - y0 <= 512,
            z1 - z0 <= 512,
            forall|qx: int, qy: int, qz: int|
                x0 <= qx < x1 && y0 <= qy < y1 && z0 <= qz < z1 ==> (#[trigger] t.cell(
                    qx,
                    qy,
                    qz,
                )) is Some,
            cs@ == box_colors(*t, x0 as int, sx as int, y0 as int, gy1, z0 as int, gz1),
            cs@.len() <= (sx - x0) * 0x40000,
        decreases x1 - sx,
    {
        let ghost cs_plane0 = cs@;
        let mut sy = y0;
        while sy < y1
            invariant
                x0 <= sx < x1,
                y0 <= sy <= y1,
                t.wf(),
                x0 < x1 <= t.side_spec(),
                y0 < y1 <= t.side_spec(),
                z0 < z1 <= t.side_spec(),
                y1 - y0 <= 512,
                z1 - z0 <= 512,
                forall|qx: int, qy: int, qz: int|
                    x0 <= qx < x1 && y0 <= qy < y1 && z0 <= qz < z1 ==> (#[trigger] t.cell(
                        qx,
                        qy,
                        qz,
                    )) is Some,
                cs@ == cs_plane0 + slab_colors(*t, sx as int, y0 as int, sy as int, z0 as int, gz1),
                cs@.len() <= cs_plane0.len() + (sy - y0) * 512,
            decreases y1 - sy,
        {
            let ghost cs_col0 = cs@;
            let mut sz = z0;
            while sz < z1
                invariant
                    x0 <= sx < x1,
                    y0 <= sy < y1,
                    z0 <= sz <= z1,
                    t.wf(),
                    x0 < x1 <= t.side_spec(),
                    y0 < y1 <= t.side_spec(),
                    z0 < z1 <= t.side_spec(),
                    z1 - z0 <= 512,
                    forall|qx: int, qy: int, qz: int|
                        x0 <= qx < x1 && y0 <= qy < y1 && z0 <= qz < z1 ==> (#[trigger] t.cell(
                            qx,
                            qy,
                            qz,
                        )) is Some,
                    cs@ == cs_col0 + col_colors(*t, sx as int, sy as int, z0 as int, sz as int),
                    cs@.len() <= cs_col0.len() + (sz - z0),
                decreases z1 - sz,
            {
                let c = t.get(sx, sy, sz);
                match c {
                    Some(cc) => {
                        cs.push(cc);
                    },
                    None => {
                        proof {
                            assert(false);
                        }
                    },
                }
                proof {
                    lemma_col_snoc(*t, sx as int, sy as int, z0 as int, sz as int);
                    assert(cs@ =~= cs_col0 + col_colors(
                        *t,
                        sx as int,
                        sy as int,
                        z0 as int,
                        sz + 1,
                    ));
                }
                sz = sz + 1;
            }
            proof {
                lemma_slab_snoc(*t, sx as int, y0 as int, sy as int, z0 as int, gz1);
                assert(cs@ =~= cs_plane0 + slab_colors(
                    *t,
                    sx as int,
                    y0 as int,
                    sy + 1,
                    z0 as int,
                    gz1,
                ));
            }
            sy = sy + 1;
        }
        proof {
            lemma_box_snoc(*t, x0 as int, sx as int, y0 as int, gy1, z0 as int, gz1);
            assert(cs@ =~= box_colors(*t, x0 as int, sx + 1, y0 as int, gy1, z0 as int, gz1));
            assert(cs@.len() <= cs_plane0.len() + 512 * 512);
            assert((sx - x0) * 0x40000 + 0x40000 == (sx + 1 - x0) * 0x40000) by (nonlinear_arith);
        }
        sx = sx + 1;
    }
    proof {
        assert(cs@.len() >= 1) by {
            assert(box_colors(*t, x0 as int, gx1, y0 as int, gy1, z0 as int, gz1).len() >= slab_colors(
                *t,
                x0 as int,
                y0 as int,
                gy1,
                z0 as int,
                gz1,
            ).len());
            assert(slab_colors(*t, x0 as int, y0 as int, gy1, z0 as int, gz1).len() >= col_colors(
                *t,
                x0 as int,
                y0 as int,
                z0 as int,
                gz1,
            ).len());
            assert(col_colors(*t, x0 as int, y0 as int, z0 as int, gz1).len() >= 1);
        }
        assert((x1 - x0) * 0x40000 <= 512 * 0x40000) by (nonlinear_arith)
            requires x1 - x0 <= 512;
    }
    cs
}

/// Clears every cell of the box `[x0, x1) x [y0, y1) x [z0, z1)` to empty,
/// one plain write per cell; all cells outside the box are untouched.
fn clear_region(t: &mut VoxelTree, x0: usize, x1: usize, y0: usize, y1: usize, z0: usize, z1: usize)
    requires
        old(t).wf(),
        x0 <= x1 <= old(t).side_spec(),
        y0 <= y1 <= old(t).side_spec(),
        z0 <= z1 <= old(t).side_spec(),
    ensures
        final(t).wf(),
        final(t).size == old(t).size,
        forall|qx: int, qy: int, qz: int|
            old(t).in_bounds(qx, qy, qz) ==> #[trigger] final(t).cell(qx, qy, qz) == if x0 <= qx
                < x1 && y0 <= qy < y1 && z0 <= qz < z1 {
                None::<Rgba>
            } else {
                old(t).cell(qx, qy, qz)
            },
{
    let mut sx = x0;
    while sx < x1
        invariant
            x0 <= sx <= x1 <= old(t).side_spec(),
            y0 <= y1 <= old(t).side_spec(),
            z0 <= z1 <= old(t).side_spec(),
            t.wf(),
            t.size == old(t).size,
            forall|qx: int, qy: int, qz: int|
                old(t).in_bounds(qx, qy, qz) ==> #[trigger] t.cell(qx, qy, qz) == if x0 <= qx < sx
                    && y0 <= qy < y1 && z0 <= qz < z1 {
                    None::<Rgba>
                } else {
                    old(t).cell(qx, qy, qz)
                },
        decreases x1 - sx,
    {
        let mut sy = y0;
        while sy < y1
            invariant
                x0 <= sx < x1 <= old(t).side_spec(),
                y0 <= sy <= y1 <= old(t).side_spec(),
                z0 <= z1 <= old(t).side_spec(),
                t.wf(),
                t.size == old(t).size,
                forall|qx: int, qy: int, qz: int|
                    old(t).in_bounds(qx, qy, qz) ==> #[trigger] t.cell(qx, qy, qz) == if (x0 <= qx
                        < sx && y0 <= qy < y1 && z0 <= qz < z1) || (qx == sx && y0 <= qy < sy && z0
                        <= qz < z1) {
                        None::<Rgba>
                    } else {
                        old(t).cell(qx, qy, qz)
                    },
            decreases y1 - sy,
        {
            let mut sz = z0;
            while sz < z1
                invariant
                    x0 <= sx < x1 <= old(t).side_spec(),
                    y0 <= sy < y1 <= old(t).side_spec(),
                    z0 <= sz <= z1 <= old(t).side_spec(),
                    t.wf(),
                    t.size == old(t).size,
                    forall|qx: int, qy: int, qz: int|
                        old(t).in_bounds(qx, qy, qz) ==> #[trigger] t.cell(qx, qy, qz) == if (x0
                            <= qx < sx && y0 <= qy < y1 && z0 <= qz < z1) || (qx == sx && y0 <= qy
                            < sy && z0 <= qz < z1) || (qx == sx && qy == sy && z0 <= qz < sz) {
                            None::<Rgba>
                        } else {
                            old(t).cell(qx, qy, qz)
                        },
                decreases z1 - sz,
            {
                t.set(sx, sy, sz, None);
                sz = sz + 1;
            }
            sy = sy + 1;
        }
        sx = sx + 1;
    }
}

/// The complete contract between a volume's initial state and the merger's
/// output: the emitted boxes exactly partition the initially occupied cells
/// (each box cell was occupied, each occupied cell lies in exactly one box),
/// every box is non-degenerate, capped and in bounds, and each region's
/// color is resolved as the mode prescribes: in lossless mode the seed's
/// color and its palette index, which every cell of the box also matches to;
/// in lossy mode the circular HSV average of the box's colors and its
/// nearest palette index.
/// The regions cover exactly the initially occupied cells, without overlap:
/// every box cell was occupied, every occupied cell lies in some box, and no
/// two boxes share a cell.
pub open spec fn merge_covers(init: VoxelTree, regions: Seq<MergedRegion>) -> bool {
    &&& forall|i: int, qx: int, qy: int, qz: int|
        0 <= i < regions.len() && #[trigger] region_contains(regions[i], qx, qy, qz)
            ==> init.in_bounds(qx, qy, qz) && init.cell(qx, qy, qz) is Some
    &&& forall|qx: int, qy: int, qz: int|
        init.in_bounds(qx, qy, qz) && (#[trigger] init.cell(qx, qy, qz)) is Some ==> exists|
        i: int,
    |
        0 <= i < regions.len() && region_contains(regions[i], qx, qy, qz)
    &&& forall|i1: int, i2: int, qx: int, qy: int, qz: int|
        #![trigger region_contains(regions[i1], qx, qy, qz), region_contains(regions[i2], qx, qy, qz)]
        0 <= i1 < i2 < regions.len() && region_contains(regions[i1], qx, qy, qz)
            ==> !region_contains(regions[i2], qx, qy, qz)
}

/// Every region is non-degenerate, fits in the volume, and no extent
/// exceeds the run cap.
pub open spec fn merge_geometry(init: VoxelTree, max_run: int, regions: Seq<MergedRegion>) -> bool {
    forall|i: int|
        0 <= i < regions.len() ==> {
            let r = #[trigger] regions[i];
            &&& 1 <= r.w <= max_run
            &&& 1 <= r.h <= max_run
            &&& 1 <= r.d <= max_run
            &&& r.x + r.w <= init.side_spec()
            &&& r.y + r.h <= init.side_spec()
            &&& r.z + r.d <= init.side_spec()
        }
}

/// Lossless color resolution: every cell of a region palette-matches to the
/// region's reported index, and the region's color is its seed cell's.
pub open spec fn merge_colors_lossless(
    init: VoxelTree,
    cs: Seq<Hsv>,
    regions: Seq<MergedRegion>,
) -> bool {
    &&& forall|i: int, qx: int, qy: int, qz: int|
        0 <= i < regions.len() && #[trigger] region_contains(regions[i], qx, qy, qz)
            ==> is_first_argmin(
            cs,
            rgb_to_hsv_spec(init.cell(qx, qy, qz)->Some_0),
            regions[i].palette_index as int,
        )
    &&& forall|i: int|
        0 <= i < regions.len() ==> init.cell(
            (#[trigger] regions[i]).x as int,
            regions[i].y as int,
            regions[i].z as int,
        ) == Some(regions[i].color)
}

/// Lossy color resolution: each region's color is the circular HSV average
/// of the colors its box held, and its index is that average's nearest
/// palette entry.
pub open spec fn merge_colors_lossy(
    init: VoxelTree,
    cs: Seq<Hsv>,
    regions: Seq<MergedRegion>,
) -> bool {
    forall|i: int|
        0 <= i < regions.len() ==> {
            let r = #[trigger] regions[i];
            let avg = hsv_average_spec(
                box_colors(init, r.x as int, r.x + r.w, r.y as int, r.y + r.h, r.z as int, r.z + r.d),
            );
            &&& r.color == hsv_to_rgb_spec(avg)
            &&& is_first_argmin(cs, avg, r.palette_index as int)
        }
}

pub open spec fn merge_output(
    init: VoxelTree,
    cs: Seq<Hsv>,
    lossless: bool,
    max_run: int,
    regions: Seq<MergedRegion>,
) -> bool {
    &&& merge_covers(init, regions)
    &&& merge_geometry(init, max_run, regions)
    &&& lossless ==> merge_colors_lossless(init, cs, regions)
    &&& !lossless ==> merge_colors_lossy(init, cs, regions)
    &&& merge_maximal(init, cs, lossless, max_run, regions)
}


/// Whether the cell lies in one of the first `k` regions of the list.
pub open spec fn in_some_region(
    rs: Seq<MergedRegion>,
    k: int,
    qx: int,
    qy: int,
    qz: int,
) -> bool {
    exists|j: int| 0 <= j < k && region_contains(#[trigger] rs[j], qx, qy, qz)
}

/// The acceptance test as it stood when region `i` was grown: the cell is
/// occupied in the initial volume, was not consumed by an earlier region,
/// and in lossless mode palette-matches to index `m`.
pub open spec fn accepted_at(
    init: VoxelTree,
    cs: Seq<Hsv>,
    lossless: bool,
    rs: Seq<MergedRegion>,
    i: int,
    m: int,
    qx: int,
    qy: int,
    qz: int,
) -> bool {
    &&& init.in_bounds(qx, qy, qz)
    &&& init.cell(qx, qy, qz) is Some
    &&& !in_some_region(rs, i, qx, qy, qz)
    &&& (lossless ==> is_first_argmin(cs, rgb_to_hsv_spec(init.cell(qx, qy, qz)->Some_0), m))
}

/// The greedy growth discipline for one region of the list: its seed is
/// the first still-available occupied cell in traversal order, and each
/// axis run is maximal — it stops only at the volume's edge, at the run
/// cap, or at a slab with a cell that fails the acceptance test.
#[verifier::opaque]
pub open spec fn region_maximal(
    init: VoxelTree,
    cs: Seq<Hsv>,
    lossless: bool,
    max_run: int,
    rs: Seq<MergedRegion>,
    i: int,
) -> bool {
    let r = rs[i];
    let m = r.palette_index as int;
    &&& forall|qx: int, qy: int, qz: int|
        init.in_bounds(qx, qy, qz) && (#[trigger] init.cell(qx, qy, qz)) is Some
            && !in_some_region(rs, i, qx, qy, qz) && !(qx == r.x && qy == r.y && qz == r.z)
            ==> morton(init.side_spec(), qx, qy, qz) > morton(
            init.side_spec(),
            r.x as int,
            r.y as int,
            r.z as int,
        )
    &&& (r.z + r.d == init.side_spec() || r.d == max_run || !accepted_at(
        init,
        cs,
        lossless,
        rs,
        i,
        m,
        r.x as int,
        r.y as int,
        r.z + r.d,
    ))
    &&& (r.y + r.h == init.side_spec() || r.h == max_run || exists|qz: int|
        r.z <= qz < r.z + r.d && !(#[trigger] accepted_at(
            init,
            cs,
            lossless,
            rs,
            i,
            m,
            r.x as int,
            r.y + r.h,
            qz,
        )))
    &&& (r.x + r.w == init.side_spec() || r.w == max_run || exists|qy: int, qz: int|
        r.y <= qy < r.y + r.h && r.z <= qz < r.z + r.d && !(#[trigger] accepted_at(
            init,
            cs,
            lossless,
            rs,
            i,
            m,
            r.x + r.w,
            qy,
            qz,
        )))
    &&& (lossless ==> is_first_argmin(
        cs,
        rgb_to_hsv_spec(init.cell(r.x as int, r.y as int, r.z as int)->Some_0),
        m,
    ))
}

/// The greedy growth discipline for the whole list. Together with
/// coverage, geometry and the color clauses this pins the merger's result:
/// the seed of each region and the point where each axis run stops are
/// determined by the initial volume and the regions before it.
pub open spec fn merge_maximal(
    init: VoxelTree,
    cs: Seq<Hsv>,
    lossless: bool,
    max_run: int,
    rs: Seq<MergedRegion>,
) -> bool {
    forall|i: int|
        0 <= i < rs.len() ==> #[trigger] region_maximal(init, cs, lossless, max_run, rs, i)
}

/// A region's growth clauses look only at the list up to and including its
/// own index, so extending the list does not disturb them.
proof fn lemma_region_maximal_prefix(
    init: VoxelTree,
    cs: Seq<Hsv>,
    lossless: bool,
    max_run: int,
    rs1: Seq<MergedRegion>,
    rs2: Seq<MergedRegion>,
    i: int,
)
    requires
        0 <= i < rs1.len(),
        i < rs2.len(),
        forall|j: int| 0 <= j <= i ==> rs1[j] == rs2[j],
        region_maximal(init, cs, lossless, max_run, rs1, i),
    ensures
        region_maximal(init, cs, lossless, max_run, rs2, i),
{
    reveal(region_maximal);
    assert forall|qx: int, qy: int, qz: int|
        in_some_region(rs1, i, qx, qy, qz) == in_some_region(rs2, i, qx, qy, qz) by {
        if in_some_region(rs1, i, qx, qy, qz) {
            let j = choose|j: int| 0 <= j < i && region_contains(#[trigger] rs1[j], qx, qy, qz);
            assert(region_contains(rs2[j], qx, qy, qz));
        }
        if in_some_region(rs2, i, qx, qy, qz) {
            let j = choose|j: int| 0 <= j < i && region_contains(#[trigger] rs2[j], qx, qy, qz);
            assert(region_contains(rs1[j], qx, qy, qz));
        }
    }
    let r = rs1[i];
    let m = r.palette_index as int;
    assert forall|qx: int, qy: int, qz: int|
        accepted_at(init, cs, lossless, rs1, i, m, qx, qy, qz) == #[trigger] accepted_at(
            init,
            cs,
            lossless,
            rs2,
            i,
            m,
            qx,
            qy,
            qz,
        ) by {
    }
    if !(r.y + r.h == init.side_spec() || r.h == max_run) {
        let qz = choose|qz: int|
            r.z <= qz < r.z + r.d && !(#[trigger] accepted_at(
                init,
                cs,
                lossless,
                rs1,
                i,
                m,
                r.x as int,
                r.y + r.h,
                qz,
            ));
        assert(!accepted_at(init, cs, lossless, rs2, i, m, r.x as int, r.y + r.h, qz));
    }
    if !(r.x + r.w == init.side_spec() || r.w == max_run) {
        let (qy, qz) = choose|qy: int, qz: int|
            r.y <= qy < r.y + r.h && r.z <= qz < r.z + r.d && !(#[trigger] accepted_at(
                init,
                cs,
                lossless,
                rs1,
                i,
                m,
                r.x + r.w,
                qy,
                qz,
            ));
        assert(!accepted_at(init, cs, lossless, rs2, i, m, r.x + r.w, qy, qz));
    }
}

/// Everything one merge iteration knows when it finalizes a region: how the
/// working volume relates to the initial one, the seed's minimality, and
/// why each growth loop stopped.
#[verifier::opaque]
pub open spec fn growth_facts(
    init: VoxelTree,
    iter0: VoxelTree,
    regs0: Seq<MergedRegion>,
    cs: Seq<Hsv>,
    lossless: bool,
    max_run: int,
    x: int,
    y: int,
    z: int,
    zp: int,
    yp: int,
    xp: int,
    m: int,
) -> bool {
    let gside = init.side_spec();
    &&& forall|qx: int, qy: int, qz: int|
        init.in_bounds(qx, qy, qz) ==> ((#[trigger] iter0.cell(qx, qy, qz)) is Some <==> (
        init.cell(qx, qy, qz) is Some && !in_some_region(regs0, regs0.len() as int, qx, qy, qz)))
    &&& forall|qx: int, qy: int, qz: int|
        init.in_bounds(qx, qy, qz) && (#[trigger] iter0.cell(qx, qy, qz)) is Some ==> iter0.cell(
            qx,
            qy,
            qz,
        ) == init.cell(qx, qy, qz)
    &&& init.in_bounds(x, y, z)
    &&& iter0.cell(x, y, z) is Some
    &&& forall|qx: int, qy: int, qz: int|
        init.in_bounds(qx, qy, qz) && (#[trigger] iter0.cell(qx, qy, qz)) is Some && !(qx == x
            && qy == y && qz == z) ==> morton(gside, qx, qy, qz) > morton(gside, x, y, z)
    &&& (lossless ==> is_first_argmin(cs, rgb_to_hsv_spec(iter0.cell(x, y, z)->Some_0), m))
    &&& z < zp <= gside && zp - z <= max_run
    &&& y < yp <= gside && yp - y <= max_run
    &&& x < xp <= gside && xp - x <= max_run
    &&& (zp < gside && zp - z < max_run ==> !accepts(iter0, cs, lossless, m, x, y, zp))
    &&& (yp < gside && yp - y < max_run ==> exists|qz: int|
        z <= qz < zp && !(#[trigger] accepts(iter0, cs, lossless, m, x, yp, qz)))
    &&& (xp < gside && xp - x < max_run ==> exists|qy: int, qz: int|
        y <= qy < yp && z <= qz < zp && !(#[trigger] accepts(iter0, cs, lossless, m, xp, qy, qz)))
}

/// A finalized region satisfies the greedy growth discipline.
#[verifier::rlimit(100)]
#[verifier::spinoff_prover]
proof fn lemma_growth_maximal(
    init: VoxelTree,
    iter0: VoxelTree,
    regs0: Seq<MergedRegion>,
    rs: Seq<MergedRegion>,
    region: MergedRegion,
    cs: Seq<Hsv>,
    lossless: bool,
    max_run: int,
    m: int,
)
    requires
        growth_facts(
            init,
            iter0,
            regs0,
            cs,
            lossless,
            max_run,
            region.x as int,
            region.y as int,
            region.z as int,
            region.z + region.d,
            region.y + region.h,
            region.x + region.w,
            m,
        ),
        rs == regs0.push(region),
        lossless ==> region.palette_index == m,
    ensures
        region_maximal(init, cs, lossless, max_run, rs, regs0.len() as int),
{
    reveal(region_maximal);
    reveal(growth_facts);
    let n = regs0.len() as int;
    let gside = init.side_spec();
    let pal = region.palette_index as int;
    let x = region.x as int;
    let y = region.y as int;
    let z = region.z as int;
    let zp = region.z + region.d;
    let yp = region.y + region.h;
    let xp = region.x + region.w;
    assert(rs[n] == region);
    assert(forall|j: int| 0 <= j < n ==> rs[j] == regs0[j]);
    assert forall|qx: int, qy: int, qz: int|
        in_some_region(rs, n, qx, qy, qz) == in_some_region(regs0, n, qx, qy, qz) by {
        if in_some_region(rs, n, qx, qy, qz) {
            let j = choose|j: int| 0 <= j < n && region_contains(#[trigger] rs[j], qx, qy, qz);
            assert(region_contains(regs0[j], qx, qy, qz));
        }
        if in_some_region(regs0, n, qx, qy, qz) {
            let j = choose|j: int| 0 <= j < n && region_contains(#[trigger] regs0[j], qx, qy, qz);
            assert(region_contains(rs[j], qx, qy, qz));
        }
    }
    assert forall|qx: int, qy: int, qz: int|
        init.in_bounds(qx, qy, qz) && #[trigger] accepted_at(
            init,
            cs,
            lossless,
            rs,
            n,
            pal,
            qx,
            qy,
            qz,
        ) implies accepts(iter0, cs, lossless, m, qx, qy, qz) by {
        assert(iter0.cell(qx, qy, qz) is Some);
        assert(iter0.cell(qx, qy, qz) == init.cell(qx, qy, qz));
        if lossless {
            assert(pal == m);
        }
    }
    assert forall|qx: int, qy: int, qz: int|
        init.in_bounds(qx, qy, qz) && (#[trigger] init.cell(qx, qy, qz)) is Some
            && !in_some_region(rs, n, qx, qy, qz) && !(qx == x && qy == y && qz == z) implies
        morton(gside, qx, qy, qz) > morton(gside, x, y, z) by {
        assert(iter0.cell(qx, qy, qz) is Some);
    }
    if zp < gside && zp - z < max_run {
        assert(!accepted_at(init, cs, lossless, rs, n, pal, x, y, zp));
    }
    if yp < gside && yp - y < max_run {
        let qz0 = choose|qz: int|
            z <= qz < zp && !(#[trigger] accepts(iter0, cs, lossless, m, x, yp, qz));
        assert(!accepted_at(init, cs, lossless, rs, n, pal, x, yp, qz0));
        assert(region.z <= qz0 < region.z + region.d && !(accepted_at(
            init,
            cs,
            lossless,
            rs,
            n,
            pal,
            region.x as int,
            region.y + region.h,
            qz0,
        )));
    }
    if xp < gside && xp - x < max_run {
        let (qy0, qz0) = choose|qy: int, qz: int|
            y <= qy < yp && z <= qz < zp && !(#[trigger] accepts(
                iter0,
                cs,
                lossless,
                m,
                xp,
                qy,
                qz,
            ));
        assert(!accepted_at(init, cs, lossless, rs, n, pal, xp, qy0, qz0));
        assert(region.y <= qy0 < region.y + region.h && region.z <= qz0 < region.z + region.d
            && !(accepted_at(init, cs, lossless, rs, n, pal, region.x + region.w, qy0, qz0)));
    }
    if lossless {
        assert(iter0.cell(x, y, z) == init.cell(x, y, z));
    }
    assert(region_maximal(init, cs, lossless, max_run, rs, n));
}


/// One merge iteration preserves every invariant of the main loop: given
/// the volume and region list at the start of an iteration, a grown region
/// and the volume after clearing it, the extended list still covers
/// exactly the consumed cells, stays disjoint, in bounds and correctly
/// colored, obeys the growth discipline, and every remaining occupied cell
/// lies past the new seed in traversal order.
#[verifier::rlimit(100)]
#[verifier::spinoff_prover]
proof fn lemma_step_invariants(
    init: VoxelTree,
    iter0: VoxelTree,
    t2: VoxelTree,
    regs0: Seq<MergedRegion>,
    rs: Seq<MergedRegion>,
    region: MergedRegion,
    cs: Seq<Hsv>,
    lossless: bool,
    max_run: int,
    prev0: int,
    m: int,
)
    requires
        init.wf(),
        iter0.size == init.size,
        t2.size == init.size,
        forall|qx: int, qy: int, qz: int|
            init.in_bounds(qx, qy, qz) && (#[trigger] iter0.cell(qx, qy, qz)) is Some
                ==> iter0.cell(qx, qy, qz) == init.cell(qx, qy, qz) && morton(
                init.side_spec(),
                qx,
                qy,
                qz,
            ) > prev0,
        forall|i: int, qx: int, qy: int, qz: int|
            0 <= i < regs0.len() && #[trigger] region_contains(regs0[i], qx, qy, qz)
                ==> init.in_bounds(qx, qy, qz) && init.cell(qx, qy, qz) is Some && iter0.cell(
                qx,
                qy,
                qz,
            ) is None,
        forall|qx: int, qy: int, qz: int|
            init.in_bounds(qx, qy, qz) && (#[trigger] init.cell(qx, qy, qz)) is Some
                ==> iter0.cell(qx, qy, qz) is Some || in_some_region(
                regs0,
                regs0.len() as int,
                qx,
                qy,
                qz,
            ),
        forall|i1: int, i2: int, qx: int, qy: int, qz: int|
            #![trigger region_contains(regs0[i1], qx, qy, qz), region_contains(regs0[i2], qx, qy, qz)]
            0 <= i1 < i2 < regs0.len() && region_contains(regs0[i1], qx, qy, qz)
                ==> !region_contains(regs0[i2], qx, qy, qz),
        merge_geometry(init, max_run, regs0),
        lossless ==> merge_colors_lossless(init, cs, regs0),
        !lossless ==> merge_colors_lossy(init, cs, regs0),
        merge_maximal(init, cs, lossless, max_run, regs0),
        rs == regs0.push(region),
        growth_facts(
            init,
            iter0,
            regs0,
            cs,
            lossless,
            max_run,
            region.x as int,
            region.y as int,
            region.z as int,
            region.z + region.d,
            region.y + region.h,
            region.x + region.w,
            m,
        ),
        forall|qx: int, qy: int, qz: int|
            #[trigger] region_contains(region, qx, qy, qz) ==> accepts(
                iter0,
                cs,
                lossless,
                m,
                qx,
                qy,
                qz,
            ),
        forall|qx: int, qy: int, qz: int|
            init.in_bounds(qx, qy, qz) ==> #[trigger] t2.cell(qx, qy, qz) == (
            if region_contains(region, qx, qy, qz) {
                None::<crate::color::Rgba>
            } else {
                iter0.cell(qx, qy, qz)
            }),
        lossless ==> region.palette_index == m && iter0.cell(
            region.x as int,
            region.y as int,
            region.z as int,
        ) == Some(region.color),
        !lossless ==> {
            let avg = hsv_average_spec(
                box_colors(
                    init,
                    region.x as int,
                    region.x + region.w,
                    region.y as int,
                    region.y + region.h,
                    region.z as int,
                    region.z + region.d,
                ),
            );
            region.color == hsv_to_rgb_spec(avg) && is_first_argmin(
                cs,
                avg,
                region.palette_index as int,
            )
        },
    ensures
        forall|qx: int, qy: int, qz: int|
            init.in_bounds(qx, qy, qz) && (#[trigger] t2.cell(qx, qy, qz)) is Some ==> t2.cell(
                qx,
                qy,
                qz,
            ) == init.cell(qx, qy, qz) && morton(init.side_spec(), qx, qy, qz) > morton(
                init.side_spec(),
                region.x as int,
                region.y as int,
                region.z as int,
            ),
        forall|i: int, qx: int, qy: int, qz: int|
            0 <= i < rs.len() && #[trigger] region_contains(rs[i], qx, qy, qz)
                ==> init.in_bounds(qx, qy, qz) && init.cell(qx, qy, qz) is Some && t2.cell(
                qx,
                qy,
                qz,
            ) is None,
        forall|qx: int, qy: int, qz: int|
            init.in_bounds(qx, qy, qz) && (#[trigger] init.cell(qx, qy, qz)) is Some ==> t2.cell(
                qx,
                qy,
                qz,
            ) is Some || in_some_region(rs, rs.len() as int, qx, qy, qz),
        forall|i1: int, i2: int, qx: int, qy: int, qz: int|
            #![trigger region_contains(rs[i1], qx, qy, qz), region_contains(rs[i2], qx, qy, qz)]
            0 <= i1 < i2 < rs.len() && region_contains(rs[i1], qx, qy, qz)
                ==> !region_contains(rs[i2], qx, qy, qz),
        merge_geometry(init, max_run, rs),
        lossless ==> merge_colors_lossless(init, cs, rs),
        !lossless ==> merge_colors_lossy(init, cs, rs),
        merge_maximal(init, cs, lossless, max_run, rs),
        -1 <= morton(init.side_spec(), region.x as int, region.y as int, region.z as int)
            < init.side_spec() * init.side_spec() * init.side_spec(),
        morton(init.side_spec(), region.x as int, region.y as int, region.z as int) > prev0,
{
    reveal(growth_facts);
    let n = regs0.len() as int;
    let gside = init.side_spec();
    let x = region.x as int;
    let y = region.y as int;
    let z = region.z as int;
    assert(rs[n] == region);
    assert(forall|j: int| 0 <= j < n ==> rs[j] == regs0[j]);
    lemma_tree_morton_range(init, x, y, z);
    assert(iter0.cell(x, y, z) is Some);
    assert(region_contains(region, x, y, z));
    // Remaining occupied cells sit past the new seed.
    assert forall|qx: int, qy: int, qz: int|
        init.in_bounds(qx, qy, qz) && (#[trigger] t2.cell(qx, qy, qz)) is Some implies t2.cell(
        qx,
        qy,
        qz,
    ) == init.cell(qx, qy, qz) && morton(gside, qx, qy, qz) > morton(gside, x, y, z) by {
        assert(!region_contains(region, qx, qy, qz));
        assert(iter0.cell(qx, qy, qz) is Some);
        assert(!(qx == x && qy == y && qz == z));
    }
    // Every region cell was occupied and is now cleared.
    assert forall|i: int, qx: int, qy: int, qz: int|
        0 <= i < rs.len() && #[trigger] region_contains(rs[i], qx, qy, qz) implies init.in_bounds(
        qx,
        qy,
        qz,
    ) && init.cell(qx, qy, qz) is Some && t2.cell(qx, qy, qz) is None by {
        if i == n {
            assert(accepts(iter0, cs, lossless, m, qx, qy, qz));
            assert(iter0.cell(qx, qy, qz) is Some);
        } else {
            assert(region_contains(regs0[i], qx, qy, qz));
        }
    }
    // Every occupied cell is still occupied or lands in some region.
    assert forall|qx: int, qy: int, qz: int|
        init.in_bounds(qx, qy, qz) && (#[trigger] init.cell(qx, qy, qz)) is Some implies t2.cell(
        qx,
        qy,
        qz,
    ) is Some || in_some_region(rs, rs.len() as int, qx, qy, qz) by {
        if iter0.cell(qx, qy, qz) is Some {
            if region_contains(region, qx, qy, qz) {
                assert(region_contains(rs[n], qx, qy, qz));
            } else {
                assert(t2.cell(qx, qy, qz) == iter0.cell(qx, qy, qz));
            }
        } else {
            let i = choose|i: int|
                0 <= i < regs0.len() && region_contains(#[trigger] regs0[i], qx, qy, qz);
            assert(region_contains(rs[i], qx, qy, qz));
        }
    }
    // Disjointness.
    assert forall|i1: int, i2: int, qx: int, qy: int, qz: int|
        #![trigger region_contains(rs[i1], qx, qy, qz), region_contains(rs[i2], qx, qy, qz)]
        0 <= i1 < i2 < rs.len() && region_contains(rs[i1], qx, qy, qz) implies !region_contains(
        rs[i2],
        qx,
        qy,
        qz,
    ) by {
        if i2 == n {
            assert(region_contains(regs0[i1], qx, qy, qz));
            if region_contains(region, qx, qy, qz) {
                assert(accepts(iter0, cs, lossless, m, qx, qy, qz));
                assert(iter0.cell(qx, qy, qz) is Some);
                assert(iter0.cell(qx, qy, qz) is None);
            }
        } else {
            assert(region_contains(regs0[i1], qx, qy, qz));
        }
    }
    // Geometry.
    assert forall|i: int|
        0 <= i < rs.len() implies {
        let r = #[trigger] rs[i];
        &&& 1 <= r.w <= max_run
        &&& 1 <= r.h <= max_run
        &&& 1 <= r.d <= max_run
        &&& r.x + r.w <= gside
        &&& r.y + r.h <= gside
        &&& r.z + r.d <= gside
    } by {
        if i < n {
            assert(rs[i] == regs0[i]);
        }
    }
    // Colors.
    if lossless {
        assert forall|i: int, qx: int, qy: int, qz: int|
            0 <= i < rs.len() && #[trigger] region_contains(rs[i], qx, qy, qz) implies
            is_first_argmin(
            cs,
            rgb_to_hsv_spec(init.cell(qx, qy, qz)->Some_0),
            rs[i].palette_index as int,
        ) by {
            if i == n {
                assert(accepts(iter0, cs, lossless, m, qx, qy, qz));
                assert(iter0.cell(qx, qy, qz) == init.cell(qx, qy, qz));
            } else {
                assert(region_contains(regs0[i], qx, qy, qz));
            }
        }
        assert forall|i: int|
            0 <= i < rs.len() implies init.cell(
            (#[trigger] rs[i]).x as int,
            rs[i].y as int,
            rs[i].z as int,
        ) == Some(rs[i].color) by {
            if i == n {
                assert(iter0.cell(x, y, z) == init.cell(x, y, z));
            } else {
                assert(rs[i] == regs0[i]);
            }
        }
        assert(merge_colors_lossless(init, cs, rs));
    } else {
        assert forall|i: int|
            0 <= i < rs.len() implies {
            let r = #[trigger] rs[i];
            let avg = hsv_average_spec(
                box_colors(init, r.x as int, r.x + r.w, r.y as int, r.y + r.h, r.z as int, r.z + r.d),
            );
            &&& r.color == hsv_to_rgb_spec(avg)
            &&& is_first_argmin(cs, avg, r.palette_index as int)
        } by {
            if i < n {
                assert(rs[i] == regs0[i]);
            }
        }
        assert(merge_colors_lossy(init, cs, rs));
    }
    // Growth discipline.
    lemma_growth_maximal(init, iter0, regs0, rs, region, cs, lossless, max_run, m);
    assert forall|i: int|
        0 <= i < rs.len() implies #[trigger] region_maximal(
        init,
        cs,
        lossless,
        max_run,
        rs,
        i,
    ) by {
        if i < n {
            lemma_region_maximal_prefix(init, cs, lossless, max_run, regs0, rs, i);
        }
    }
}


/// Resolves a lossy region's color: collects the box's colors, averages
/// them in HSV, and matches the average to the palette. The contract
/// speaks over the initial volume, with which the working volume agrees on
/// the box.
fn resolve_lossy_color(
    t: &VoxelTree,
    colorset: &Vec<Hsv>,
    Ghost(init): Ghost<VoxelTree>,
    x: usize,
    xp: usize,
    y: usize,
    yp: usize,
    z: usize,
    zp: usize,
) -> (r: (Rgba, usize))
    requires
        t.wf(),
        colorset_wf(colorset@),
        x < xp <= t.side_spec(),
        y < yp <= t.side_spec(),
        z < zp <= t.side_spec(),
        xp - x <= 512,
        yp - y <= 512,
        zp - z <= 512,
        forall|qx: int, qy: int, qz: int|
            x <= qx < xp && y <= qy < yp && z <= qz < zp ==> (#[trigger] t.cell(
                qx,
                qy,
                qz,
            )) is Some,
        forall|qx: int, qy: int, qz: int|
            x <= qx < xp && y <= qy < yp && z <= qz < zp ==> #[trigger] t.cell(qx, qy, qz)
                == init.cell(qx, qy, qz),
    ensures
        ({
            let avg = hsv_average_spec(
                box_colors(init, x as int, xp as int, y as int, yp as int, z as int, zp as int),
            );
            r.0 == hsv_to_rgb_spec(avg) && is_first_argmin(colorset@, avg, r.1 as int) && r.1
                < colorset@.len()
        }),
{
    let colors = collect_colors(t, x, xp, y, yp, z, zp);
    proof {
        lemma_box_colors_agree(
            *t,
            init,
            x as int,
            xp as int,
            y as int,
            yp as int,
            z as int,
            zp as int,
        );
    }
    let avg = hsv_average(&colors);
    let pal = match_hsv_to_colorset(colorset, &avg);
    (hsv2rgb(avg), pal)
}


/// The result of one growth pass: the seed cell, the grown box, the seed's
/// color and its matched palette index.
struct Grown {
    x: usize,
    y: usize,
    z: usize,
    xp: usize,
    yp: usize,
    zp: usize,
    color: Rgba,
    m_idx: usize,
}

/// Seeds at the first occupied cell in traversal order and grows a box
/// along +Z, then +Y, then +X as far as every new slab passes the
/// acceptance test and the run cap allows. Read-only: clearing is a
/// separate pass. Returns `None` when the volume is empty.
#[verifier::rlimit(100)]
fn grow_region(
    octree: &VoxelTree,
    colorset: &Vec<Hsv>,
    lossless: bool,
    max_run: usize,
    side: usize,
    Ghost(init): Ghost<VoxelTree>,
    Ghost(regs): Ghost<Seq<MergedRegion>>,
) -> (res: Option<Grown>)
    requires
        octree.wf(),
        octree.size == init.size,
        init.wf(),
        side == init.side_spec(),
        colorset_wf(colorset@),
        1 <= max_run,
        forall|qx: int, qy: int, qz: int|
            init.in_bounds(qx, qy, qz) && (#[trigger] octree.cell(qx, qy, qz)) is Some
                ==> octree.cell(qx, qy, qz) == init.cell(qx, qy, qz),
        forall|i: int, qx: int, qy: int, qz: int|
            0 <= i < regs.len() && #[trigger] region_contains(regs[i], qx, qy, qz)
                ==> octree.cell(qx, qy, qz) is None,
        forall|qx: int, qy: int, qz: int|
            init.in_bounds(qx, qy, qz) && (#[trigger] init.cell(qx, qy, qz)) is Some
                ==> octree.cell(qx, qy, qz) is Some || in_some_region(
                regs,
                regs.len() as int,
                qx,
                qy,
                qz,
            ),
    ensures
        match res {
            None => forall|qx: int, qy: int, qz: int|
                init.in_bounds(qx, qy, qz) ==> (#[trigger] octree.cell(qx, qy, qz)) is None,
            Some(g) => {
                &&& growth_facts(
                    init,
                    *octree,
                    regs,
                    colorset@,
                    lossless,
                    max_run as int,
                    g.x as int,
                    g.y as int,
                    g.z as int,
                    g.zp as int,
                    g.yp as int,
                    g.xp as int,
                    g.m_idx as int,
                )
                &&& g.x < g.xp <= side && g.y < g.yp <= side && g.z < g.zp <= side
                &&& g.xp - g.x <= max_run && g.yp - g.y <= max_run && g.zp - g.z <= max_run
                &&& forall|qx: int, qy: int, qz: int|
                    g.x <= qx < g.xp && g.y <= qy < g.yp && g.z <= qz < g.zp ==> #[trigger] accepts(
                        *octree,
                        colorset@,
                        lossless,
                        g.m_idx as int,
                        qx,
                        qy,
                        qz,
                    )
                &&& octree.cell(g.x as int, g.y as int, g.z as int) == Some(g.color)
                &&& (lossless ==> is_first_argmin(
                    colorset@,
                    rgb_to_hsv_spec(g.color),
                    g.m_idx as int,
                ))
            },
        },
{
    let found = octree.find_any_occupied();
    match found {
        None => None,
        Some(f) => {
            let (x, y, z, c) = f;
            let seed_hsv = rgb2hsv(c);
            let m_idx = match_hsv_to_colorset(colorset, &seed_hsv);
            proof {
                assert(accepts(
                    *octree,
                    colorset@,
                    lossless,
                    m_idx as int,
                    x as int,
                    y as int,
                    z as int,
                ));
            }
            let mut zp = z + 1;
            while zp < side && zp - z < max_run && accept_cell(
                octree,
                colorset,
                lossless,
                m_idx,
                x,
                y,
                zp,
            )
                invariant
                    octree.wf(),
                    side == octree.side_spec(),
                    colorset_wf(colorset@),
                    x < side && y < side && z < side,
                    z < zp <= side,
                    zp - z <= max_run,
                    forall|qz: int|
                        z <= qz < zp ==> accepts(
                            *octree,
                            colorset@,
                            lossless,
                            m_idx as int,
                            x as int,
                            y as int,
                            qz,
                        ),
                decreases side - zp,
            {
                zp = zp + 1;
            }
            let mut yp = y + 1;
            while yp < side && yp - y < max_run && check_col(
                octree,
                colorset,
                lossless,
                m_idx,
                x,
                yp,
                z,
                zp,
            )
                invariant
                    octree.wf(),
                    side == octree.side_spec(),
                    colorset_wf(colorset@),
                    x < side && y < side && z < zp <= side,
                    y < yp <= side,
                    yp - y <= max_run,
                    forall|qy: int, qz: int|
                        y <= qy < yp && z <= qz < zp ==> accepts(
                            *octree,
                            colorset@,
                            lossless,
                            m_idx as int,
                            x as int,
                            qy,
                            qz,
                        ),
                decreases side - yp,
            {
                yp = yp + 1;
            }
            let mut xp = x + 1;
            while xp < side && xp - x < max_run && check_plane(
                octree,
                colorset,
                lossless,
                m_idx,
                xp,
                y,
                yp,
                z,
                zp,
            )
                invariant
                    octree.wf(),
                    side == octree.side_spec(),
                    colorset_wf(colorset@),
                    x < side && y < yp <= side && z < zp <= side,
                    x < xp <= side,
                    xp - x <= max_run,
                    forall|qx: int, qy: int, qz: int|
                        x <= qx < xp && y <= qy < yp && z <= qz < zp ==> accepts(
                            *octree,
                            colorset@,
                            lossless,
                            m_idx as int,
                            qx,
                            qy,
                            qz,
                        ),
                decreases side - xp,
            {
                xp = xp + 1;
            }
            proof {
                reveal(growth_facts);
                let n = regs.len() as int;
                assert forall|qx: int, qy: int, qz: int|
                    init.in_bounds(qx, qy, qz) implies ((#[trigger] octree.cell(
                    qx,
                    qy,
                    qz,
                )) is Some <==> (init.cell(qx, qy, qz) is Some && !in_some_region(
                    regs,
                    n,
                    qx,
                    qy,
                    qz,
                ))) by {
                    if octree.cell(qx, qy, qz) is Some && in_some_region(regs, n, qx, qy, qz) {
                        let j = choose|j: int|
                            0 <= j < n && region_contains(#[trigger] regs[j], qx, qy, qz);
                        assert(false);
                    }
                }
                assert(growth_facts(
                    init,
                    *octree,
                    regs,
                    colorset@,
                    lossless,
                    max_run as int,
                    x as int,
                    y as int,
                    z as int,
                    zp as int,
                    yp as int,
                    xp as int,
                    m_idx as int,
                ));

            }
            Some(Grown { x, y, z, xp, yp, zp, color: c, m_idx })
        },
    }
}

/// Greedy merge of a whole volume into cuboid regions.
///
/// Repeatedly seeds at the first occupied cell in traversal order, grows the
/// region along +Z, then +Y, then +X as far as every cell of each new slab
/// passes the acceptance test (and the run cap allows), resolves the
/// region's color, clears the region, and continues until the volume is
/// empty. The contract states that the emitted boxes exactly partition the
/// initially occupied cells: every box cell was occupied, every occupied
/// cell lands in a box, and no two boxes overlap.
#[verifier::rlimit(100)]
pub fn merge_volume(
    octree: &mut VoxelTree,
    colorset: &Vec<Hsv>,
    lossless: bool,
    max_run: usize,
) -> (regions: Vec<MergedRegion>)
    requires
        old(octree).wf(),
        colorset_wf(colorset@),
        1 <= max_run,
        !lossless ==> max_run <= 512,
    ensures
        final(octree).wf(),
        final(octree).size == old(octree).size,
        forall|qx: int, qy: int, qz: int|
            old(octree).in_bounds(qx, qy, qz) ==> (#[trigger] final(octree).cell(
                qx,
                qy,
                qz,
            )) is None,
        merge_output(*old(octree), colorset@, lossless, max_run as int, regions@),
{
    let side = octree.side();
    let ghost init = *octree;
    let ghost gside = init.side_spec();
    let mut regions: Vec<MergedRegion> = Vec::new();
    let ghost mut prev_m: int = -1int;
    let mut done = false;
    proof {
        assert forall|qx: int, qy: int, qz: int|
            init.in_bounds(qx, qy, qz) && (#[trigger] octree.cell(qx, qy, qz)) is Some implies
            octree.cell(qx, qy, qz) == init.cell(qx, qy, qz) && morton(gside, qx, qy, qz)
            > prev_m by {
            lemma_tree_morton_range(init, qx, qy, qz);
        }
    }
    while !done
        invariant
            done ==> forall|qx: int, qy: int, qz: int|
                init.in_bounds(qx, qy, qz) ==> (#[trigger] octree.cell(qx, qy, qz)) is None,
            init.wf(),
            gside == init.side_spec(),
            side == gside,
            colorset_wf(colorset@),
            1 <= max_run,
            !lossless ==> max_run <= 512,
            merge_maximal(init, colorset@, lossless, max_run as int, regions@),
            octree.wf(),
            octree.size == init.size,
            -1 <= prev_m < gside * gside * gside,
            forall|qx: int, qy: int, qz: int|
                init.in_bounds(qx, qy, qz) && (#[trigger] octree.cell(qx, qy, qz)) is Some
                    ==> octree.cell(qx, qy, qz) == init.cell(qx, qy, qz) && morton(
                    gside,
                    qx,
                    qy,
                    qz,
                ) > prev_m,
            forall|i: int, qx: int, qy: int, qz: int|
                0 <= i < regions@.len() && #[trigger] region_contains(regions@[i], qx, qy, qz)
                    ==> init.in_bounds(qx, qy, qz) && init.cell(qx, qy, qz) is Some && octree.cell(
                    qx,
                    qy,
                    qz,
                ) is None,
            forall|qx: int, qy: int, qz: int|
                init.in_bounds(qx, qy, qz) && (#[trigger] init.cell(qx, qy, qz)) is Some
                    ==> octree.cell(qx, qy, qz) is Some || in_some_region(
                    regions@,
                    regions@.len() as int,
                    qx,
                    qy,
                    qz,
                ),
            forall|i1: int, i2: int, qx: int, qy: int, qz: int|
                #![trigger region_contains(regions@[i1], qx, qy, qz), region_contains(regions@[i2], qx, qy, qz)]
                0 <= i1 < i2 < regions@.len() && region_contains(regions@[i1], qx, qy, qz)
                    ==> !region_contains(regions@[i2], qx, qy, qz),
            forall|i: int|
                0 <= i < regions@.len() ==> {
                    let r = #[trigger] regions@[i];
                    &&& 1 <= r.w <= max_run
                    &&& 1 <= r.h <= max_run
                    &&& 1 <= r.d <= max_run
                    &&& r.x + r.w <= gside
                    &&& r.y + r.h <= gside
                    &&& r.z + r.d <= gside
                },
            lossless ==> forall|i: int, qx: int, qy: int, qz: int|
                0 <= i < regions@.len() && #[trigger] region_contains(regions@[i], qx, qy, qz)
                    ==> is_first_argmin(
                    colorset@,
                    rgb_to_hsv_spec(init.cell(qx, qy, qz)->Some_0),
                    regions@[i].palette_index as int,
                ),
            lossless ==> forall|i: int|
                0 <= i < regions@.len() ==> init.cell(
                    (#[trigger] regions@[i]).x as int,
                    regions@[i].y as int,
                    regions@[i].z as int,
                ) == Some(regions@[i].color),
            !lossless ==> forall|i: int|
                0 <= i < regions@.len() ==> {
                    let r = #[trigger] regions@[i];
                    let avg = hsv_average_spec(
                        box_colors(
                            init,
                            r.x as int,
                            r.x + r.w,
                            r.y as int,
                            r.y + r.h,
                            r.z as int,
                            r.z + r.d,
                        ),
                    );
                    &&& r.color == hsv_to_rgb_spec(avg)
                    &&& is_first_argmin(colorset@, avg, r.palette_index as int)
                },
        decreases gside * gside * gside - prev_m, if done {
            0int
        } else {
            1int
        },
    {
        let found = grow_region(
            octree,
            colorset,
            lossless,
            max_run,
            side,
            Ghost(init),
            Ghost(regions@),
        );
        match found {
            None => {
                done = true;
            },
            Some(g) => {
                let ghost iter0 = *octree;
                let x = g.x;
                let y = g.y;
                let z = g.z;
                let xp = g.xp;
                let yp = g.yp;
                let zp = g.zp;
                let m_idx = g.m_idx;
                let c = g.color;
                let ghost seed_m = morton(gside, x as int, y as int, z as int);
                let w = xp - x;
                let hy = yp - y;
                let d = zp - z;
                let pal: usize;
                let colr: Rgba;
                if lossless {
                    pal = m_idx;
                    colr = c;
                } else {
                    proof {
                        assert forall|qx: int, qy: int, qz: int|
                            x <= qx < xp && y <= qy < yp && z <= qz < zp implies (
                        #[trigger] octree.cell(qx, qy, qz)) is Some && octree.cell(qx, qy, qz)
                            == init.cell(qx, qy, qz) by {
                            assert(accepts(
                                iter0,
                                colorset@,
                                lossless,
                                m_idx as int,
                                qx,
                                qy,
                                qz,
                            ));
                        }
                    }
                    let rc = resolve_lossy_color(
                        octree,
                        colorset,
                        Ghost(init),
                        x,
                        xp,
                        y,
                        yp,
                        z,
                        zp,
                    );
                    colr = rc.0;
                    pal = rc.1;
                }
                clear_region(octree, x, xp, y, yp, z, zp);
                let region = MergedRegion { x, y, z, w, h: hy, d, palette_index: pal, color: colr };
                let ghost regs0 = regions@;
                regions.push(region);
                proof {
                    assert forall|qx: int, qy: int, qz: int|
                        #[trigger] region_contains(region, qx, qy, qz) implies accepts(
                        iter0,
                        colorset@,
                        lossless,
                        m_idx as int,
                        qx,
                        qy,
                        qz,
                    ) by {
                        assert(accepts(iter0, colorset@, lossless, m_idx as int, qx, qy, qz));
                    }
                    lemma_step_invariants(
                        init,
                        iter0,
                        *octree,
                        regs0,
                        regions@,
                        region,
                        colorset@,
                        lossless,
                        max_run as int,
                        prev_m,
                        m_idx as int,
                    );
                    prev_m = seed_m;
                }
            },
        }
    }
    proof {
        assert forall|qx: int, qy: int, qz: int|
            init.in_bounds(qx, qy, qz) && (#[trigger] init.cell(qx, qy, qz)) is Some implies exists|
            i: int,
        |
            0 <= i < regions@.len() && region_contains(regions@[i], qx, qy, qz) by {
            assert(octree.cell(qx, qy, qz) is None);
            assert(in_some_region(regions@, regions@.len() as int, qx, qy, qz));
            let j = choose|j: int|
                0 <= j < regions@.len() && region_contains(#[trigger] regions@[j], qx, qy, qz);
            assert(0 <= j < regions@.len() && region_contains(regions@[j], qx, qy, qz));
        }
    }
    regions
}

} // verus!
