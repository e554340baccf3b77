use obj2brs::color::Rgba;
use obj2brs::save::BrickType;
use obj2brs::voxelize::{voxelize, MaterialImage, Triangle, Vertex};

fn vert(x: i64, y: i64, z: i64, u: i64, v: i64) -> Vertex {
    Vertex { x, y, z, u, v }
}

fn solid(c: Rgba) -> MaterialImage {
    MaterialImage { width: 1, height: 1, pixels: vec![c] }
}

const RED: Rgba = Rgba { r: 255, g: 0, b: 0, a: 255 };
const BLUE: Rgba = Rgba { r: 0, g: 0, b: 255, a: 255 };

#[test]
fn empty_mesh_yields_empty_volume() {
    let tree = voxelize(&Vec::new(), &Vec::new(), BrickType::Microbricks, None);
    assert_eq!(tree.size, 0);
    assert!(tree.get(0, 0, 0).is_none());
}

#[test]
fn flat_triangle_rasterizes_expected_cells() {
    // A right triangle in the z = 128 plane spanning four cells each way.
    let tri = Triangle {
        v0: vert(0, 0, 128, 0, 0),
        v1: vert(1024, 0, 128, 256, 0),
        v2: vert(0, 1024, 128, 0, 256),
        material_id: 0,
    };
    let tree = voxelize(&vec![tri], &vec![solid(RED)], BrickType::Microbricks, None);
    // The mesh is translated so its lowest corner sits at the origin; the
    // extent of 1024 fixed-point units needs a cube of side 8.
    assert_eq!(tree.size, 3);
    let expected = [
        (0, 0),
        (1, 0),
        (2, 0),
        (3, 0),
        (0, 1),
        (1, 1),
        (2, 1),
        (0, 2),
        (1, 2),
        (0, 3),
    ];
    for x in 0..8 {
        for y in 0..8 {
            for z in 0..8 {
                let want = z == 0 && expected.contains(&(x, y));
                let got = tree.get(x, y, z);
                assert_eq!(got.is_some(), want, "cell ({}, {}, {})", x, y, z);
                if want {
                    assert_eq!(got.unwrap(), RED);
                }
            }
        }
    }
}

#[test]
fn degenerate_triangle_contributes_nothing() {
    let tri = Triangle {
        v0: vert(0, 0, 0, 0, 0),
        v1: vert(512, 512, 512, 0, 0),
        v2: vert(1024, 1024, 1024, 0, 0),
        material_id: 0,
    };
    let tree = voxelize(&vec![tri], &vec![solid(RED)], BrickType::Microbricks, None);
    let side = tree.side();
    for x in 0..side {
        for y in 0..side {
            for z in 0..side {
                assert!(tree.get(x, y, z).is_none());
            }
        }
    }
}

#[test]
fn material_filter_selects_triangles() {
    let t0 = Triangle {
        v0: vert(0, 0, 128, 0, 0),
        v1: vert(1024, 0, 128, 0, 0),
        v2: vert(0, 1024, 128, 0, 0),
        material_id: 0,
    };
    let mut t1 = t0;
    t1.material_id = 1;
    let imgs = vec![solid(RED), solid(BLUE)];
    let tris = vec![t0, t1];
    let only1 = voxelize(&tris, &imgs, BrickType::Microbricks, Some(1));
    assert_eq!(only1.get(0, 0, 0), Some(BLUE));
    let both = voxelize(&tris, &imgs, BrickType::Microbricks, None);
    // Later triangles win at shared cells.
    assert_eq!(both.get(0, 0, 0), Some(BLUE));
    let only0 = voxelize(&tris, &imgs, BrickType::Microbricks, Some(0));
    assert_eq!(only0.get(0, 0, 0), Some(RED));
}

#[test]
fn standard_bricks_stretch_the_vertical_axis() {
    // A triangle one cell tall for microbricks spans two and a half cells
    // after the standard-brick stretch, so the volume must grow.
    let tri = Triangle {
        v0: vert(0, 0, 128, 0, 0),
        v1: vert(0, 1024, 128, 0, 0),
        v2: vert(1024, 1024, 128, 0, 0),
        material_id: 0,
    };
    let micro = voxelize(&vec![tri], &vec![solid(RED)], BrickType::Microbricks, None);
    assert_eq!(micro.size, 3);
    let standard = voxelize(&vec![tri], &vec![solid(RED)], BrickType::Default, None);
    // 1024 * 5 / 2 = 2560 fixed-point units need a cube of side 16.
    assert_eq!(standard.size, 4);
}

#[test]
fn texture_sampling_picks_the_nearest_texel() {
    // A two-texel-wide texture: u below one half samples the left texel.
    let img = MaterialImage { width: 2, height: 1, pixels: vec![RED, BLUE] };
    let tri = Triangle {
        v0: vert(0, 0, 128, 0, 0),
        v1: vert(1024, 0, 128, 256, 0),
        v2: vert(0, 1024, 128, 0, 0),
        material_id: 0,
    };
    let tree = voxelize(&vec![tri], &vec![img], BrickType::Microbricks, None);
    // Cell (0, 0) interpolates u near 0.125 -> left texel; cell (3, 0)
    // interpolates u near 0.875 -> right texel.
    assert_eq!(tree.get(0, 0, 0), Some(RED));
    assert_eq!(tree.get(3, 0, 0), Some(BLUE));
}
