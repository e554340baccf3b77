use obj2brs::color::Rgba;
use obj2brs::octree::VoxelTree;

fn color(r: u8) -> Rgba {
    Rgba { r, g: 0, b: 0, a: 255 }
}

#[test]
fn new_volume_is_empty() {
    let t = VoxelTree::new(3);
    assert_eq!(t.side(), 8);
    for x in 0..8 {
        for y in 0..8 {
            for z in 0..8 {
                assert!(t.get(x, y, z).is_none());
            }
        }
    }
    assert!(t.find_any_occupied().is_none());
}

#[test]
fn set_then_get() {
    let mut t = VoxelTree::new(2);
    t.set(1, 2, 3, Some(color(9)));
    assert_eq!(t.get(1, 2, 3), Some(color(9)));
    assert!(t.get(1, 2, 2).is_none());
    assert!(t.get(0, 0, 0).is_none());
    t.set(1, 2, 3, None);
    assert!(t.get(1, 2, 3).is_none());
    assert!(t.find_any_occupied().is_none());
}

#[test]
fn overwrite_keeps_last_value() {
    let mut t = VoxelTree::new(1);
    t.set(0, 1, 0, Some(color(1)));
    t.set(0, 1, 0, Some(color(2)));
    assert_eq!(t.get(0, 1, 0), Some(color(2)));
}

#[test]
fn find_any_returns_scan_order_minimum() {
    let mut t = VoxelTree::new(2);
    t.set(3, 3, 3, Some(color(1)));
    t.set(0, 2, 1, Some(color(2)));
    t.set(0, 2, 0, Some(color(3)));
    // The scan descends octants in x-major, then y, then z bit order, so
    // (0, 2, 0) comes before (0, 2, 1) and long before (3, 3, 3).
    let (x, y, z, c) = t.find_any_occupied().unwrap();
    assert_eq!((x, y, z), (0, 2, 0));
    assert_eq!(c, color(3));
    t.set(0, 2, 0, None);
    let (x2, y2, z2, _) = t.find_any_occupied().unwrap();
    assert_eq!((x2, y2, z2), (0, 2, 1));
}

#[test]
fn side_of_zero_depth_is_one() {
    let mut t = VoxelTree::new(0);
    assert_eq!(t.side(), 1);
    t.set(0, 0, 0, Some(color(5)));
    let f = t.find_any_occupied().unwrap();
    assert_eq!((f.0, f.1, f.2, f.3), (0, 0, 0, color(5)));
}
