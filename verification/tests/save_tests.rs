use obj2brs::color::Rgba;
use obj2brs::octree::VoxelTree;
use obj2brs::save::{
    assemble_brick, brick_assets, brick_scale, material_name, merge_cap, raise_bricks, Brick,
    BrickType, ColorMode, ConversionOptions, Direction, Material, Rotation, write_brs_data,
};
use obj2brs::simplify::MergedRegion;

fn options(simplify: bool, raise: bool, match_colorset: bool, bt: BrickType) -> ConversionOptions {
    ConversionOptions {
        bricktype: bt,
        material: Material::Plastic,
        material_intensity: 5,
        match_brickadia_colorset: match_colorset,
        simplify,
        raise,
        save_owner_name: String::from("tester"),
        save_owner_id: String::from("d66c4ad5-59fc-4a9b-80b8-08dedc25bff9"),
    }
}

#[test]
fn scales_and_caps() {
    assert_eq!(brick_scale(BrickType::Microbricks), (1, 1, 1));
    assert_eq!(brick_scale(BrickType::Default), (5, 5, 2));
    assert_eq!(brick_scale(BrickType::Tiles), (5, 5, 2));
    assert_eq!(merge_cap(BrickType::Microbricks), 500);
    assert_eq!(merge_cap(BrickType::Default), 100);
}

#[test]
fn material_names() {
    assert_eq!(material_name(Material::Plastic), "BMC_Plastic");
    assert_eq!(material_name(Material::Glow), "BMC_Glow");
    assert_eq!(material_name(Material::Ghostly), "BMC_Ghost");
}

#[test]
fn asset_lists() {
    let a = brick_assets(BrickType::Default);
    assert_eq!(a, vec![
        "PB_DefaultMicroBrick",
        "PB_DefaultBrick",
        "PB_DefaultRamp",
        "PB_DefaultWedge",
        "PB_DefaultTile",
    ]);
    let t = brick_assets(BrickType::Tiles);
    assert_eq!(t[1], "PB_DefaultTile");
}

#[test]
fn assemble_brick_formulas() {
    let r = MergedRegion {
        x: 3,
        y: 4,
        z: 5,
        w: 2,
        h: 6,
        d: 7,
        palette_index: 11,
        color: Rgba { r: 64, g: 0, b: 255, a: 255 },
    };
    // Standard bricks: scale (5, 5, 2); sizes store (x, z, y) extents.
    let b = assemble_brick(&r, BrickType::Default, 8, true);
    assert_eq!(b.asset_name_index, 1);
    assert_eq!(b.size, (5 * 2, 5 * 7, 2 * 6));
    assert_eq!(b.position, (5 * 2 + 10 * 3, 5 * 7 + 10 * 5, 2 * 6 + 4 * 4));
    assert_eq!(b.direction, Direction::ZPositive);
    assert_eq!(b.rotation, Rotation::Deg0);
    assert!(b.collision && b.visibility);
    assert_eq!(b.material_index, 0);
    assert_eq!(b.material_intensity, 8);
    assert_eq!(b.color, ColorMode::Index(11));
    assert_eq!(b.owner_index, None);

    // Microbricks: unit scale, explicit gamma-corrected color.
    let m = assemble_brick(&r, BrickType::Microbricks, 5, false);
    assert_eq!(m.asset_name_index, 0);
    assert_eq!(m.size, (2, 7, 6));
    assert_eq!(m.position, (2 + 2 * 3, 7 + 2 * 5, 6 + 2 * 4));
    // gamma(64) = 127, gamma(0) = 0, gamma(255) = 255.
    assert_eq!(m.color, ColorMode::Custom(Rgba { r: 127, g: 0, b: 255, a: 255 }));
}

fn brick_eq(a: &Brick, b: &Brick) -> bool {
    a.asset_name_index == b.asset_name_index
        && a.size == b.size
        && a.position == b.position
        && a.direction == b.direction
        && a.rotation == b.rotation
        && a.collision == b.collision
        && a.visibility == b.visibility
        && a.material_index == b.material_index
        && a.material_intensity == b.material_intensity
        && a.color == b.color
        && a.owner_index == b.owner_index
}

#[test]
fn raise_lifts_lowest_brick_to_ground() {
    let r = MergedRegion {
        x: 0,
        y: 0,
        z: 0,
        w: 1,
        h: 1,
        d: 1,
        palette_index: 0,
        color: Rgba { r: 0, g: 0, b: 0, a: 255 },
    };
    let mut low = assemble_brick(&r, BrickType::Default, 5, true);
    low.position.2 = -10;
    let mut high = assemble_brick(&r, BrickType::Default, 5, true);
    high.position.2 = 40;
    let heights = (low.size.2 as i32, high.size.2 as i32);
    let mut bricks = vec![low, high];
    raise_bricks(&mut bricks);
    // The offset is min(position.z - height) = -10 - 2 = -12, so everything
    // moves up by 12.
    assert_eq!(heights.0, 2);
    assert_eq!(bricks[0].position.2, 2);
    assert_eq!(bricks[1].position.2, 52);
}

#[test]
fn raise_does_nothing_when_already_above_ground() {
    let r = MergedRegion {
        x: 1,
        y: 1,
        z: 1,
        w: 1,
        h: 1,
        d: 1,
        palette_index: 0,
        color: Rgba { r: 0, g: 0, b: 0, a: 255 },
    };
    let b = assemble_brick(&r, BrickType::Microbricks, 5, true);
    let mut bricks = vec![b];
    let before = bricks[0].position;
    raise_bricks(&mut bricks);
    assert_eq!(bricks[0].position, before);
}

#[test]
fn empty_volume_yields_empty_brick_list() {
    let mut t = VoxelTree::new(0);
    let opts = options(false, true, false, BrickType::Default);
    let save = write_brs_data(&mut t, &opts);
    assert!(save.bricks.is_empty());
    assert_eq!(save.author_name, "tester");
    assert_eq!(save.colors.len(), 32);
    assert_eq!(save.materials, vec!["BMC_Plastic"]);
    assert_eq!(save.brick_assets.len(), 5);
}

#[test]
fn pipeline_is_deterministic() {
    // Identical input and configuration give byte-identical brick lists.
    let mk = || {
        let mut t = VoxelTree::new(2);
        for x in 0..4 {
            for y in 0..4 {
                for z in 0..4 {
                    if (x + y + z) % 3 != 1 {
                        let c = Rgba { r: (40 * x) as u8, g: (60 * y) as u8, b: (80 * z) as u8, a: 255 };
                        t.set(x, y, z, Some(c));
                    }
                }
            }
        }
        t
    };
    for simplify in [false, true] {
        for match_colorset in [false, true] {
            let opts = options(simplify, true, match_colorset, BrickType::Default);
            let mut t1 = mk();
            let mut t2 = mk();
            let s1 = write_brs_data(&mut t1, &opts);
            let s2 = write_brs_data(&mut t2, &opts);
            assert_eq!(s1.bricks.len(), s2.bricks.len());
            for (a, b) in s1.bricks.iter().zip(s2.bricks.iter()) {
                assert!(brick_eq(a, b));
            }
        }
    }
}

#[test]
fn lossless_conversion_covers_all_voxels() {
    let mut t = VoxelTree::new(2);
    for x in 0..4 {
        t.set(x, 0, 0, Some(Rgba { r: 255, g: 0, b: 0, a: 255 }));
    }
    let opts = options(false, false, true, BrickType::Microbricks);
    let save = write_brs_data(&mut t, &opts);
    // One uniform run along X becomes a single microbrick of size 4 studs.
    assert_eq!(save.bricks.len(), 1);
    assert_eq!(save.bricks[0].size, (4, 1, 1));
    assert_eq!(save.bricks[0].position, (4, 1, 1));
}
