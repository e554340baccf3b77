//! Brick assembly and the in-memory model of one conversion's output: the
//! final brick records, the palette used, and the owner identity, ready for
//! an external serializer. A merged region becomes one brick: sizes and
//! positions are the region's box scaled to game studs, with the fixed
//! upright orientation.

use vstd::prelude::*;

verus! {

use crate::color::{Rgba, gamma_correct, gamma_correct_spec, colorset_hsv, convert_colorset_to_hsv};
use crate::simplify::{MergedRegion, merge_output, merge_volume, region_contains};
use crate::octree::{VoxelTree, lemma_side_bound};
use crate::palette::{default_palette, default_palette_spec};

/// Which brick asset family the output uses.
#[derive(Clone, Copy, Debug, PartialEq, Eq, Structural)]
pub enum BrickType {
    Microbricks,
    Default,
    Tiles,
}

/// The in-game material of the output bricks.
#[derive(Clone, Copy, Debug, PartialEq, Eq, Structural)]
pub enum Material {
    Plastic,
    Glass,
    Glow,
    Metallic,
    Hologram,
    Ghostly,
}

/// A brick's color: an index into the save's palette, or an explicit color.
#[derive(Clone, Copy, Debug, PartialEq, Eq, Structural)]
pub enum ColorMode {
    Index(u32),
    Custom(Rgba),
}

/// A brick's facing direction in the save format.
#[derive(Clone, Copy, Debug, PartialEq, Eq, Structural)]
pub enum Direction {
    XPositive,
    XNegative,
    YPositive,
    YNegative,
    ZPositive,
    ZNegative,
}

/// A brick's rotation about its facing axis.
#[derive(Clone, Copy, Debug, PartialEq, Eq, Structural)]
pub enum Rotation {
    Deg0,
    Deg90,
    Deg180,
    Deg270,
}

/// One final output brick record.
#[derive(Clone, Copy, Debug)]
pub struct Brick {
    pub asset_name_index: u32,
    pub size: (u32, u32, u32),
    pub position: (i32, i32, i32),
    pub direction: Direction,
    pub rotation: Rotation,
    pub collision: bool,
    pub visibility: bool,
    pub material_index: u32,
    pub material_intensity: u32,
    pub color: ColorMode,
    pub owner_index: Option<u32>,
}

/// Everything one conversion produces, for an external serializer: the owner
/// identity, the asset and material names, the palette used, and the bricks.
pub struct SaveData {
    pub author_name: String,
    pub author_id: String,
    pub brick_assets: Vec<String>,
    pub materials: Vec<String>,
    pub colors: Vec<Rgba>,
    pub bricks: Vec<Brick>,
}

/// The options the conversion pipeline consumes.
pub struct ConversionOptions {
    pub bricktype: BrickType,
    pub material: Material,
    pub material_intensity: u32,
    pub match_brickadia_colorset: bool,
    pub simplify: bool,
    pub raise: bool,
    pub save_owner_name: String,
    pub save_owner_id: String,
}

/// Per-axis stud size of one voxel for the active brick family.
pub open spec fn scale_of(bt: BrickType) -> (int, int, int) {
    if bt == BrickType::Microbricks {
        (1int, 1int, 1int)
    } else {
        (5int, 5int, 2int)
    }
}

/// Largest merge run per axis: the fixed merge budget divided by the largest
/// per-axis stud scale, so coarse brick families merge fewer voxels.
pub open spec fn merge_cap_of(bt: BrickType) -> int {
    if bt == BrickType::Microbricks {
        500int
    } else {
        100int
    }
}

/// The fixed merge budget in studs.
pub const MAX_MERGE_BUDGET: u32 = 500;

/// Computes the per-axis voxel scale of a brick family.
pub fn brick_scale(bt: BrickType) -> (s: (u32, u32, u32))
    ensures
        s.0 == scale_of(bt).0,
        s.1 == scale_of(bt).1,
        s.2 == scale_of(bt).2,
{
    match bt {
        BrickType::Microbricks => (1, 1, 1),
        _ => (5, 5, 2),
    }
}

/// Computes the largest merge run for a brick family:
/// `MAX_MERGE_BUDGET / max(scale.x, scale.y, scale.z)`.
pub fn merge_cap(bt: BrickType) -> (cap: usize)
    ensures
        cap == merge_cap_of(bt),
        1 <= cap <= 500,
{
    let s = brick_scale(bt);
    let mx = if s.0 >= s.1 && s.0 >= s.2 {
        s.0
    } else if s.1 >= s.2 {
        s.1
    } else {
        s.2
    };
    (MAX_MERGE_BUDGET / mx) as usize
}

/// `b` is the brick assembled from region `r` under the given options:
/// sizes are the box extents in studs (the save format stores them in
/// x-extent, z-extent, y-extent order), each position coordinate is the
/// scaled extent plus twice the scaled origin, the orientation is fixed
/// upright, and the color is the region's palette index or its explicit
/// gamma-corrected color.
pub open spec fn assembled(
    b: Brick,
    r: MergedRegion,
    bt: BrickType,
    material_intensity: u32,
    match_to_colorset: bool,
) -> bool {
    let s = scale_of(bt);
    &&& b.asset_name_index == if bt == BrickType::Microbricks {
        0int
    } else {
        1int
    }
    &&& b.size.0 == s.0 * r.w
    &&& b.size.1 == s.1 * r.d
    &&& b.size.2 == s.2 * r.h
    &&& b.position.0 == s.0 * r.w + 2 * s.0 * r.x
    &&& b.position.1 == s.1 * r.d + 2 * s.1 * r.z
    &&& b.position.2 == s.2 * r.h + 2 * s.2 * r.y
    &&& b.direction == Direction::ZPositive
    &&& b.rotation == Rotation::Deg0
    &&& b.collision
    &&& b.visibility
    &&& b.material_index == 0
    &&& b.material_intensity == material_intensity
    &&& b.owner_index is None
    &&& if match_to_colorset {
        b.color == ColorMode::Index(r.palette_index as u32)
    } else {
        b.color is Custom && gamma_correct_spec(r.color, b.color->Custom_0)
    }
}

/// Every brick of `bs` is assembled from the region of `rs` at its index.
pub open spec fn bricks_assembled(
    bs: Seq<Brick>,
    rs: Seq<MergedRegion>,
    bt: BrickType,
    material_intensity: u32,
    match_to_colorset: bool,
) -> bool {
    &&& bs.len() == rs.len()
    &&& forall|i: int|
        0 <= i < bs.len() ==> assembled(
            #[trigger] bs[i],
            rs[i],
            bt,
            material_intensity,
            match_to_colorset,
        )
}

/// Maps one merged region to its final brick record.
pub fn assemble_brick(
    r: &MergedRegion,
    bt: BrickType,
    material_intensity: u32,
    match_to_colorset: bool,
) -> (b: Brick)
    requires
        r.palette_index <= 0xFFFF,
        r.x + r.w <= 0x100000,
        r.y + r.h <= 0x100000,
        r.z + r.d <= 0x100000,
    ensures
        assembled(b, *r, bt, material_intensity, match_to_colorset),
{
    let asset: u32 = match bt {
        BrickType::Microbricks => 0,
        _ => 1,
    };
    let color = if match_to_colorset {
        ColorMode::Index(r.palette_index as u32)
    } else {
        ColorMode::Custom(gamma_correct(r.color))
    };
    let w = r.w as u32;
    let hy = r.h as u32;
    let d = r.d as u32;
    let x = r.x as u32;
    let y = r.y as u32;
    let z = r.z as u32;
    let (size, position): ((u32, u32, u32), (i32, i32, i32)) = match bt {
        BrickType::Microbricks => (
            (w, d, hy),
            ((w + 2 * x) as i32, (d + 2 * z) as i32, (hy + 2 * y) as i32),
        ),
        _ => (
            (5 * w, 5 * d, 2 * hy),
            ((5 * w + 10 * x) as i32, (5 * d + 10 * z) as i32, (2 * hy + 4 * y) as i32),
        ),
    };
    proof {
        if bt == BrickType::Microbricks {
            assert(scale_of(bt).0 == 1 && scale_of(bt).1 == 1 && scale_of(bt).2 == 1);
        } else {
            assert(scale_of(bt).0 == 5 && scale_of(bt).1 == 5 && scale_of(bt).2 == 2);
        }
    }
    Brick {
        asset_name_index: asset,
        size,
        position,
        direction: Direction::ZPositive,
        rotation: Rotation::Deg0,
        collision: true,
        visibility: true,
        material_index: 0,
        material_intensity,
        color,
        owner_index: None,
    }
}

/// The in-game material name of a material choice.
pub open spec fn material_name_spec(m: Material) -> Seq<char> {
    match m {
        Material::Plastic => "BMC_Plastic"@,
        Material::Glass => "BMC_Glass"@,
        Material::Glow => "BMC_Glow"@,
        Material::Metallic => "BMC_Metallic"@,
        Material::Hologram => "BMC_Hologram"@,
        Material::Ghostly => "BMC_Ghost"@,
    }
}

pub fn material_name(m: Material) -> (s: String)
    ensures
        s@ == material_name_spec(m),
{
    match m {
        Material::Plastic => "BMC_Plastic".to_owned(),
        Material::Glass => "BMC_Glass".to_owned(),
        Material::Glow => "BMC_Glow".to_owned(),
        Material::Metallic => "BMC_Metallic".to_owned(),
        Material::Hologram => "BMC_Hologram".to_owned(),
        Material::Ghostly => "BMC_Ghost".to_owned(),
    }
}

/// The five brick asset names of a save; the standard slot holds the tile
/// asset when the tile family is selected.
pub fn brick_assets(bt: BrickType) -> (v: Vec<String>)
    ensures
        v@.len() == 5,
        v@[0]@ == "PB_DefaultMicroBrick"@,
        v@[1]@ == if bt == BrickType::Tiles {
            "PB_DefaultTile"@
        } else {
            "PB_DefaultBrick"@
        },
        v@[2]@ == "PB_DefaultRamp"@,
        v@[3]@ == "PB_DefaultWedge"@,
        v@[4]@ == "PB_DefaultTile"@,
{
    let mut v: Vec<String> = Vec::new();
    v.push("PB_DefaultMicroBrick".to_owned());
    if bt == BrickType::Tiles {
        v.push("PB_DefaultTile".to_owned());
    } else {
        v.push("PB_DefaultBrick".to_owned());
    }
    v.push("PB_DefaultRamp".to_owned());
    v.push("PB_DefaultWedge".to_owned());
    v.push("PB_DefaultTile".to_owned());
    v
}

/// A brick's lowest z game coordinate: its position minus its height.
pub open spec fn brick_bottom(b: Brick) -> int {
    b.position.2 - b.size.2
}

/// The raise offset of a brick list: the smallest brick bottom, capped at
/// zero. Subtracting it from every z position lifts the build so that
/// nothing lies below the ground plane.
pub open spec fn raise_offset(bs: Seq<Brick>) -> int
    decreases bs.len(),
{
    if bs.len() == 0 {
        0
    } else {
        let rest = raise_offset(bs.drop_last());
        if brick_bottom(bs.last()) < rest {
            brick_bottom(bs.last())
        } else {
            rest
        }
    }
}

pub open spec fn raised_brick(b: Brick, off: int) -> Brick {
    Brick { position: (b.position.0, b.position.1, (b.position.2 - off) as i32), ..b }
}

/// The brick list with every z position lifted by the list's raise offset.
pub open spec fn raise_applied(bs: Seq<Brick>) -> Seq<Brick> {
    Seq::new(bs.len(), |i: int| raised_brick(bs[i], raise_offset(bs)))
}

proof fn lemma_raise_offset_range(bs: Seq<Brick>)
    requires
        forall|i: int|
            0 <= i < bs.len() ==> -0x400_0000 <= (#[trigger] bs[i]).position.2 <= 0x400_0000
                && bs[i].size.2 <= 0x400_0000,
    ensures
        -0x800_0000 <= raise_offset(bs) <= 0,
    decreases bs.len(),
{
    if bs.len() > 0 {
        lemma_raise_offset_range(bs.drop_last());
    }
}

/// Lifts a brick list so no brick lies below the ground plane, preserving
/// every other field and all relative positions.
#[verifier::loop_isolation(false)]
pub fn raise_bricks(bricks: &mut Vec<Brick>)
    requires
        forall|i: int|
            0 <= i < old(bricks)@.len() ==> -0x400_0000 <= (#[trigger] old(bricks)@[i]).position.2
                <= 0x400_0000 && old(bricks)@[i].size.2 <= 0x400_0000,
    ensures
        final(bricks)@ == raise_applied(old(bricks)@),
{
    let ghost bs0 = bricks@;
    let n = bricks.len();
    let mut min_z: i32 = 0;
    let mut i: usize = 0;
    while i < n
        invariant
            i <= n,
            bricks@ == bs0,
            min_z == raise_offset(bs0.take(i as int)),
            -0x800_0000 <= min_z <= 0,
        decreases n - i,
    {
        proof {
            assert(bs0.take(i + 1).drop_last() =~= bs0.take(i as int));
            assert(bs0.take(i + 1).last() == bs0[i as int]);
        }
        let b = bricks[i];
        let bottom = b.position.2 - (b.size.2 as i32);
        if bottom < min_z {
            min_z = bottom;
        }
        i = i + 1;
    }
    proof {
        assert(bs0.take(n as int) =~= bs0);
    }
    let mut j: usize = 0;
    while j < n
        invariant
            j <= n,
            bricks@.len() == n,
            min_z == raise_offset(bs0),
            -0x800_0000 <= min_z <= 0,
            forall|k: int| 0 <= k < j ==> bricks@[k] == raised_brick(bs0[k], min_z as int),
            forall|k: int| j <= k < n ==> bricks@[k] == bs0[k],
        decreases n - j,
    {
        let mut b = bricks[j];
        b.position.2 = b.position.2 - min_z;
        bricks[j] = b;
        j = j + 1;
    }
    proof {
        assert(bricks@ =~= raise_applied(bs0));
    }
}

/// Lossy simplification: merges the volume with color averaging and the
/// merge cap of the active brick family, and appends one brick per merged
/// region to the save.
#[verifier::loop_isolation(false)]
pub fn simplify(octree: &mut VoxelTree, write_data: &mut SaveData, opts: &ConversionOptions)
    requires
        old(octree).wf(),
        1 <= old(write_data).colors@.len() <= 0x10000,
    ensures
        final(octree).wf(),
        final(octree).size == old(octree).size,
        forall|qx: int, qy: int, qz: int|
            old(octree).in_bounds(qx, qy, qz) ==> (#[trigger] final(octree).cell(
                qx,
                qy,
                qz,
            )) is None,
        final(write_data).author_name == old(write_data).author_name,
        final(write_data).author_id == old(write_data).author_id,
        final(write_data).brick_assets == old(write_data).brick_assets,
        final(write_data).materials == old(write_data).materials,
        final(write_data).colors == old(write_data).colors,
        final(write_data).bricks@.len() >= old(write_data).bricks@.len(),
        final(write_data).bricks@.take(old(write_data).bricks@.len() as int) == old(
            write_data,
        ).bricks@,
        exists|rs: Seq<MergedRegion>|
            merge_output(
                *old(octree),
                colorset_hsv(old(write_data).colors@),
                false,
                merge_cap_of(opts.bricktype),
                rs,
            ) && bricks_assembled(
                final(write_data).bricks@.skip(old(write_data).bricks@.len() as int),
                rs,
                opts.bricktype,
                opts.material_intensity,
                opts.match_brickadia_colorset,
            ),
{
    let colorset = convert_colorset_to_hsv(&write_data.colors);
    let cap = merge_cap(opts.bricktype);
    let regions = merge_volume(octree, &colorset, false, cap);
    proof {
        lemma_side_bound(*old(octree));
    }
    let ghost base = write_data.bricks@;
    let n = regions.len();
    let mut i: usize = 0;
    while i < n
        invariant
            i <= n,
            write_data.bricks@.len() == base.len() + i,
            write_data.bricks@.take(base.len() as int) == base,
            write_data.author_name == old(write_data).author_name,
            write_data.author_id == old(write_data).author_id,
            write_data.brick_assets == old(write_data).brick_assets,
            write_data.materials == old(write_data).materials,
            write_data.colors == old(write_data).colors,
            forall|k: int|
                0 <= k < i ==> assembled(
                    #[trigger] write_data.bricks@[base.len() + k],
                    regions@[k],
                    opts.bricktype,
                    opts.material_intensity,
                    opts.match_brickadia_colorset,
                ),
        decreases n - i,
    {
        proof {
            let rr = regions@[i as int];
            assert(rr.x + rr.w <= old(octree).side_spec() && rr.y + rr.h <= old(
                octree,
            ).side_spec() && rr.z + rr.d <= old(octree).side_spec());
            assert(rr.palette_index < colorset@.len());
        }
        let b = assemble_brick(
            &regions[i],
            opts.bricktype,
            opts.material_intensity,
            opts.match_brickadia_colorset,
        );
        write_data.bricks.push(b);
        proof {
            assert(write_data.bricks@.take(base.len() as int) =~= base);
        }
        i = i + 1;
    }
    proof {
        let tail = write_data.bricks@.skip(base.len() as int);
        assert(tail.len() == regions@.len());
        assert forall|k: int| 0 <= k < tail.len() implies assembled(
            #[trigger] tail[k],
            regions@[k],
            opts.bricktype,
            opts.material_intensity,
            opts.match_brickadia_colorset,
        ) by {
            assert(tail[k] == write_data.bricks@[base.len() + k]);
        }
        assert(bricks_assembled(
            tail,
            regions@,
            opts.bricktype,
            opts.material_intensity,
            opts.match_brickadia_colorset,
        ));
    }
}

/// Lossless simplification: merges the volume so that every region is
/// uniform in palette-matched color, and appends one brick per merged region
/// to the save. Growth is bounded only by the volume's edge.
#[verifier::loop_isolation(false)]
#[verifier::rlimit(100)]
pub fn simplify_lossless(
    octree: &mut VoxelTree,
    write_data: &mut SaveData,
    opts: &ConversionOptions,
)
    requires
        old(octree).wf(),
        1 <= old(write_data).colors@.len() <= 0x10000,
    ensures
        final(octree).wf(),
        final(octree).size == old(octree).size,
        forall|qx: int, qy: int, qz: int|
            old(octree).in_bounds(qx, qy, qz) ==> (#[trigger] final(octree).cell(
                qx,
                qy,
                qz,
            )) is None,
        final(write_data).author_name == old(write_data).author_name,
        final(write_data).author_id == old(write_data).author_id,
        final(write_data).brick_assets == old(write_data).brick_assets,
        final(write_data).materials == old(write_data).materials,
        final(write_data).colors == old(write_data).colors,
        final(write_data).bricks@.len() >= old(write_data).bricks@.len(),
        final(write_data).bricks@.take(old(write_data).bricks@.len() as int) == old(
            write_data,
        ).bricks@,
        exists|rs: Seq<MergedRegion>|
            merge_output(
                *old(octree),
                colorset_hsv(old(write_data).colors@),
                true,
                old(octree).side_spec(),
                rs,
            ) && bricks_assembled(
                final(write_data).bricks@.skip(old(write_data).bricks@.len() as int),
                rs,
                opts.bricktype,
                opts.material_intensity,
                opts.match_brickadia_colorset,
            ),
{
    let colorset = convert_colorset_to_hsv(&write_data.colors);
    proof {
        lemma_side_bound(*octree);
    }
    let side = octree.side();
    let regions = merge_volume(octree, &colorset, true, side);
    let ghost base = write_data.bricks@;
    let n = regions.len();
    let mut i: usize = 0;
    while i < n
        invariant
            i <= n,
            write_data.bricks@.len() == base.len() + i,
            write_data.bricks@.take(base.len() as int) == base,
            write_data.author_name == old(write_data).author_name,
            write_data.author_id == old(write_data).author_id,
            write_data.brick_assets == old(write_data).brick_assets,
            write_data.materials == old(write_data).materials,
            write_data.colors == old(write_data).colors,
            forall|k: int|
                0 <= k < i ==> assembled(
                    #[trigger] write_data.bricks@[base.len() + k],
                    regions@[k],
                    opts.bricktype,
                    opts.material_intensity,
                    opts.match_brickadia_colorset,
                ),
        decreases n - i,
    {
        proof {
            let rr = regions@[i as int];
            assert(rr.x + rr.w <= old(octree).side_spec() && rr.y + rr.h <= old(
                octree,
            ).side_spec() && rr.z + rr.d <= old(octree).side_spec());
            assert(region_contains(rr, rr.x as int, rr.y as int, rr.z as int));
            assert(rr.palette_index < colorset@.len());
        }
        let b = assemble_brick(
            &regions[i],
            opts.bricktype,
            opts.material_intensity,
            opts.match_brickadia_colorset,
        );
        write_data.bricks.push(b);
        proof {
            assert(write_data.bricks@.take(base.len() as int) =~= base);
        }
        i = i + 1;
    }
    proof {
        let tail = write_data.bricks@.skip(base.len() as int);
        assert(tail.len() == regions@.len());
        assert forall|k: int| 0 <= k < tail.len() implies assembled(
            #[trigger] tail[k],
            regions@[k],
            opts.bricktype,
            opts.material_intensity,
            opts.match_brickadia_colorset,
        ) by {
            assert(tail[k] == write_data.bricks@[base.len() + k]);
        }
        assert(bricks_assembled(
            tail,
            regions@,
            opts.bricktype,
            opts.material_intensity,
            opts.match_brickadia_colorset,
        ));
    }
}

/// The merge cap in force for one conversion: the family's budget cap in
/// lossy mode, the volume's own side (no cap) in lossless mode.
pub open spec fn cap_in_force(init: VoxelTree, opts: ConversionOptions) -> int {
    if opts.simplify {
        merge_cap_of(opts.bricktype)
    } else {
        init.side_spec()
    }
}

/// One conversion's merge-and-assemble result before raising: the regions
/// `rs` are a valid merge of the initial volume against the default palette
/// in the configured mode, and `mid` is their brick list.
pub open spec fn conversion_output(
    init: VoxelTree,
    opts: ConversionOptions,
    rs: Seq<MergedRegion>,
    mid: Seq<Brick>,
) -> bool {
    &&& merge_output(
        init,
        colorset_hsv(default_palette_spec()),
        !opts.simplify,
        cap_in_force(init, opts),
        rs,
    )
    &&& bricks_assembled(mid, rs, opts.bricktype, opts.material_intensity,
        opts.match_brickadia_colorset)
}

/// Bricks assembled from in-bounds regions have bounded heights and
/// positions, so the raise pass cannot overflow.
#[verifier::rlimit(100)]
#[verifier::spinoff_prover]
proof fn lemma_assembled_bounds(
    init: VoxelTree,
    opts: ConversionOptions,
    rs: Seq<MergedRegion>,
    mid: Seq<Brick>,
)
    requires
        init.wf(),
        conversion_output(init, opts, rs, mid),
    ensures
        forall|i: int|
            0 <= i < mid.len() ==> 0 <= (#[trigger] mid[i]).position.2 <= 0x400_0000
                && mid[i].size.2 <= 0x400_0000,
{
    lemma_side_bound(init);
    assert forall|i: int|
        0 <= i < mid.len() implies 0 <= (#[trigger] mid[i]).position.2 <= 0x400_0000
        && mid[i].size.2 <= 0x400_0000 by {
        assert(assembled(
            mid[i],
            rs[i],
            opts.bricktype,
            opts.material_intensity,
            opts.match_brickadia_colorset,
        ));
        let r = rs[i];
        assert(1 <= r.h && r.y + r.h <= init.side_spec());
        let s2 = scale_of(opts.bricktype).2;
        assert(1 <= s2 <= 2);
        assert(0 <= s2 * r.h <= 0x200000 && 0 <= s2 * r.h + 2 * s2 * r.y <= 0x400_0000)
            by (nonlinear_arith)
            requires 1 <= s2 <= 2, 1 <= r.h as int <= 0x100000, 0 <= r.y as int <= 0x100000;
    }
}

/// Runs one whole conversion's back half: builds the save headers for the
/// configured owner, material and brick family, merges the volume in the
/// chosen mode against the default palette, assembles the bricks, and
/// optionally raises the build above the ground plane.
#[verifier::rlimit(100)]
pub fn write_brs_data(octree: &mut VoxelTree, opts: &ConversionOptions) -> (save: SaveData)
    requires
        old(octree).wf(),
    ensures
        final(octree).wf(),
        forall|qx: int, qy: int, qz: int|
            old(octree).in_bounds(qx, qy, qz) ==> (#[trigger] final(octree).cell(
                qx,
                qy,
                qz,
            )) is None,
        save.author_name@ == opts.save_owner_name@,
        save.author_id@ == opts.save_owner_id@,
        save.colors@ == default_palette_spec(),
        save.materials@.len() == 1,
        save.materials@[0]@ == material_name_spec(opts.material),
        save.brick_assets@.len() == 5,
        exists|rs: Seq<MergedRegion>, mid: Seq<Brick>|
            conversion_output(*old(octree), *opts, rs, mid) && save.bricks@ == if opts.raise {
                raise_applied(mid)
            } else {
                mid
            },
{
    let colors = default_palette();
    let mut materials: Vec<String> = Vec::new();
    materials.push(material_name(opts.material));
    let mut save = SaveData {
        author_name: opts.save_owner_name.clone(),
        author_id: opts.save_owner_id.clone(),
        brick_assets: brick_assets(opts.bricktype),
        materials,
        colors,
        bricks: Vec::new(),
    };
    let ghost mut rs: Seq<MergedRegion> = Seq::empty();
    if opts.simplify {
        simplify(octree, &mut save, opts);
        proof {
            assert(save.bricks@.skip(0) =~= save.bricks@);
            rs = choose|rs: Seq<MergedRegion>|
                merge_output(
                    *old(octree),
                    colorset_hsv(save.colors@),
                    false,
                    merge_cap_of(opts.bricktype),
                    rs,
                ) && bricks_assembled(
                    save.bricks@.skip(0),
                    rs,
                    opts.bricktype,
                    opts.material_intensity,
                    opts.match_brickadia_colorset,
                );
            assert(save.colors@ == default_palette_spec());
            assert(conversion_output(*old(octree), *opts, rs, save.bricks@));
        }
    } else {
        simplify_lossless(octree, &mut save, opts);
        proof {
            assert(save.bricks@.skip(0) =~= save.bricks@);
            rs = choose|rs: Seq<MergedRegion>|
                merge_output(
                    *old(octree),
                    colorset_hsv(save.colors@),
                    true,
                    old(octree).side_spec(),
                    rs,
                ) && bricks_assembled(
                    save.bricks@.skip(0),
                    rs,
                    opts.bricktype,
                    opts.material_intensity,
                    opts.match_brickadia_colorset,
                );
            assert(save.colors@ == default_palette_spec());
            assert(conversion_output(*old(octree), *opts, rs, save.bricks@));
        }
    }
    let ghost mid = save.bricks@;
    if opts.raise {
        proof {
            lemma_assembled_bounds(*old(octree), *opts, rs, mid);
        }
        raise_bricks(&mut save.bricks);
    }
    save
}

} // verus!
