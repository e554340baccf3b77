use obj2brs::color::{convert_colorset_to_hsv, Rgba};
use obj2brs::octree::VoxelTree;
use obj2brs::palette::default_palette;
use obj2brs::simplify::{merge_volume, MergedRegion};

fn palette_hsv() -> Vec<obj2brs::color::Hsv> {
    convert_colorset_to_hsv(&default_palette())
}

fn region_contains(r: &MergedRegion, x: usize, y: usize, z: usize) -> bool {
    r.x <= x && x < r.x + r.w && r.y <= y && y < r.y + r.h && r.z <= z && z < r.z + r.d
}

const RED: Rgba = Rgba { r: 255, g: 0, b: 0, a: 255 };
const BLUE: Rgba = Rgba { r: 0, g: 0, b: 255, a: 255 };

#[test]
fn uniform_cube_merges_to_one_region() {
    // A fully-occupied cube of side 4 with one uniform color, lossless mode:
    // exactly one region of extent (4, 4, 4).
    let mut t = VoxelTree::new(2);
    for x in 0..4 {
        for y in 0..4 {
            for z in 0..4 {
                t.set(x, y, z, Some(RED));
            }
        }
    }
    let cs = palette_hsv();
    let side = t.side();
    let regions = merge_volume(&mut t, &cs, true, side);
    assert_eq!(regions.len(), 1);
    let r = &regions[0];
    assert_eq!((r.x, r.y, r.z), (0, 0, 0));
    assert_eq!((r.w, r.h, r.d), (4, 4, 4));
    assert_eq!(r.color, RED);
}

#[test]
fn different_palette_indices_never_merge() {
    // Two voxels of different palette indices adjacent along X, lossless
    // mode: two separate single-voxel regions.
    let mut t = VoxelTree::new(2);
    t.set(0, 0, 0, Some(RED));
    t.set(1, 0, 0, Some(BLUE));
    let cs = palette_hsv();
    let side = t.side();
    let regions = merge_volume(&mut t, &cs, true, side);
    assert_eq!(regions.len(), 2);
    for r in &regions {
        assert_eq!((r.w, r.h, r.d), (1, 1, 1));
    }
    assert_ne!(regions[0].palette_index, regions[1].palette_index);
}

#[test]
fn coverage_partitions_initial_voxels() {
    // After merging, no occupied cell remains, every initially occupied
    // cell lies in exactly one region, and no region cell was unoccupied.
    let mut t = VoxelTree::new(3);
    let mut placed: Vec<(usize, usize, usize)> = Vec::new();
    for x in 0..8 {
        for y in 0..8 {
            for z in 0..8 {
                if (x + 2 * y + 3 * z) % 5 == 0 && x * y <= 20 {
                    t.set(x, y, z, Some(RED));
                    placed.push((x, y, z));
                }
            }
        }
    }
    let cs = palette_hsv();
    let side = t.side();
    let regions = merge_volume(&mut t, &cs, true, side);
    for x in 0..8 {
        for y in 0..8 {
            for z in 0..8 {
                assert!(t.get(x, y, z).is_none());
            }
        }
    }
    let mut covered = 0usize;
    for &(x, y, z) in &placed {
        let n = regions.iter().filter(|r| region_contains(r, x, y, z)).count();
        assert_eq!(n, 1, "cell ({}, {}, {}) lies in {} regions", x, y, z, n);
        covered += 1;
    }
    let total: usize = regions.iter().map(|r| r.w * r.h * r.d).sum();
    assert_eq!(total, covered, "regions hold cells that were never occupied");
}

#[test]
fn lossy_mode_merges_across_colors() {
    let mut t = VoxelTree::new(1);
    t.set(0, 0, 0, Some(RED));
    t.set(0, 0, 1, Some(BLUE));
    let cs = palette_hsv();
    let regions = merge_volume(&mut t, &cs, false, 500);
    assert_eq!(regions.len(), 1);
    assert_eq!((regions[0].w, regions[0].h, regions[0].d), (1, 1, 2));
}

#[test]
fn lossy_cap_bounds_run_length() {
    // With the fixed budget of 500 and the standard brick scale (5, 5, 2),
    // the cap is 500 / 5 = 100 voxels per axis: a z-run of 128 voxels must
    // split, and no region may exceed 100 along X or Y, or 250 along Z.
    let mut t = VoxelTree::new(8);
    for z in 0..128 {
        t.set(0, 0, z, Some(RED));
    }
    let cs = palette_hsv();
    let cap = obj2brs::save::merge_cap(obj2brs::save::BrickType::Default);
    assert_eq!(cap, 100);
    let regions = merge_volume(&mut t, &cs, false, cap);
    assert_eq!(regions.len(), 2);
    let total: usize = regions.iter().map(|r| r.w * r.h * r.d).sum();
    assert_eq!(total, 128);
    for r in &regions {
        assert!(r.w <= 100 && r.h <= 100);
        assert!(r.d <= 250);
    }
}

#[test]
fn lossless_region_color_is_seed_color() {
    let mut t = VoxelTree::new(1);
    t.set(1, 1, 1, Some(BLUE));
    let cs = palette_hsv();
    let side = t.side();
    let regions = merge_volume(&mut t, &cs, true, side);
    assert_eq!(regions.len(), 1);
    assert_eq!(regions[0].color, BLUE);
    assert_eq!((regions[0].x, regions[0].y, regions[0].z), (1, 1, 1));
}
