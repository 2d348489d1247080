use voxelrender::geometry::{Cube, Point};
use voxelrender::material::VoxelMaterial;
use voxelrender::octree::Octree;

fn world() -> Octree<VoxelMaterial> {
    Octree::new(Cube::new(-64, -64, -64, 128))
}

#[test]
fn inserted_voxel_is_found_at_its_own_cell() {
    let mut tree = world();
    let p = Point::new(5, 5, 10);
    let m = VoxelMaterial::rough([200, 200, 200], 150);
    tree.insert(p, m);
    let (found, cell) = tree.find_closest(&p);
    assert_eq!(found, Some(&m));
    assert_eq!(cell, Cube::new(5, 5, 10, 1));
}

#[test]
fn empty_tree_skips_whole_root() {
    let tree = world();
    let (found, cell) = tree.find_closest(&Point::new(3, -7, 12));
    assert!(found.is_none());
    assert_eq!(cell, Cube::new(-64, -64, -64, 128));
}

#[test]
fn empty_octant_is_returned_as_skippable_region() {
    let mut tree = world();
    tree.insert(Point::new(5, 5, 10), VoxelMaterial::rough([1, 2, 3], 255));
    let (found, cell) = tree.find_closest(&Point::new(-60, -60, -60));
    assert!(found.is_none());
    assert_eq!(cell, Cube::new(-64, -64, -64, 64));
    let (found, cell) = tree.find_closest(&Point::new(5, 5, 11));
    assert!(found.is_none());
    assert_eq!(cell, Cube::new(5, 5, 11, 1));
    let (found, cell) = tree.find_closest(&Point::new(40, 40, 40));
    assert!(found.is_none());
    assert_eq!(cell, Cube::new(32, 32, 32, 32));
}

#[test]
fn out_of_bounds_insert_is_ignored() {
    let mut tree = world();
    tree.insert(Point::new(64, 0, 0), VoxelMaterial::emissive([255, 255, 255], 50));
    tree.insert(Point::new(0, -65, 0), VoxelMaterial::emissive([255, 255, 255], 50));
    let (found, cell) = tree.find_closest(&Point::new(63, 0, 0));
    assert!(found.is_none());
    assert_eq!(cell, Cube::new(-64, -64, -64, 128));
}

#[test]
fn last_insert_wins() {
    let mut tree = world();
    let p = Point::new(-1, -1, -1);
    tree.insert(p, VoxelMaterial::rough([240, 130, 130], 254));
    tree.insert(p, VoxelMaterial::emissive([100, 200, 100], 30));
    let (found, _) = tree.find_closest(&p);
    assert_eq!(found, Some(&VoxelMaterial::emissive([100, 200, 100], 30)));
}

#[test]
fn reinserting_same_pair_keeps_lookups() {
    let mut once = world();
    let mut twice = world();
    let p = Point::new(5, 3, -1);
    let m = VoxelMaterial::emissive([100, 200, 255], 30);
    once.insert(p, m);
    twice.insert(p, m);
    twice.insert(p, m);
    for q in [p, Point::new(5, 3, 0), Point::new(-64, -64, -64), Point::new(63, 63, 63)] {
        assert_eq!(once.find_closest(&q), twice.find_closest(&q));
    }
}

#[test]
fn neighbours_do_not_disturb_each_other() {
    let mut tree = world();
    tree.insert(Point::new(5, 5, 10), VoxelMaterial::rough([10, 10, 10], 1));
    tree.insert(Point::new(5, 4, 10), VoxelMaterial::rough([20, 20, 20], 2));
    tree.insert(Point::new(5, 5, 9), VoxelMaterial::rough([30, 30, 30], 3));
    let r = |x, y, z| tree.find_closest(&Point::new(x, y, z)).0.copied();
    assert_eq!(r(5, 5, 10), Some(VoxelMaterial::rough([10, 10, 10], 1)));
    assert_eq!(r(5, 4, 10), Some(VoxelMaterial::rough([20, 20, 20], 2)));
    assert_eq!(r(5, 5, 9), Some(VoxelMaterial::rough([30, 30, 30], 3)));
    assert_eq!(r(5, 4, 9), None);
    assert_eq!(r(4, 5, 10), None);
}

#[test]
fn unit_world_holds_one_voxel() {
    let mut tree: Octree<u8> = Octree::new(Cube::new(7, 7, 7, 1));
    tree.insert(Point::new(7, 7, 7), 9);
    assert_eq!(tree.find_closest(&Point::new(7, 7, 7)), (Some(&9), Cube::new(7, 7, 7, 1)));
}

#[test]
fn range_query_lists_voxels_within_radius_once() {
    let mut tree = world();
    let m = VoxelMaterial::rough([255, 255, 255], 250);
    for x in -3..4 {
        tree.insert(Point::new(x, 0, 0), m);
    }
    tree.insert(Point::new(0, 5, 0), m);
    let mut got = tree.query(&Point::new(0, 0, 0), 4 * 4);
    got.sort_by_key(|p| (p.x, p.y, p.z));
    let want: Vec<Point> = (-2..3).map(|x| Point::new(x, 0, 0)).collect();
    assert_eq!(got, want);
    let got = tree.query(&Point::new(0, 0, 0), 0);
    assert_eq!(got, vec![Point::new(0, 0, 0)]);
    let mut got = tree.query(&Point::new(0, 3, 0), 25);
    assert_eq!(tree.query(&Point::new(0, 3, 0), 24), vec![Point::new(0, 5, 0)]);
    got.sort_by_key(|p| (p.x, p.y, p.z));
    assert_eq!(got, vec![Point::new(0, 0, 0), Point::new(0, 5, 0)]);
}

#[test]
fn range_query_on_empty_tree_is_empty() {
    let tree = world();
    assert!(tree.query(&Point::new(0, 0, 0), u64::MAX).is_empty());
}

#[test]
fn skipped_region_is_the_largest_empty_octant() {
    let mut tree: Octree<VoxelMaterial> = Octree::new(Cube::new(0, 0, 0, 8));
    assert_eq!(tree.find_closest(&Point::new(1, 2, 3)), (None, Cube::new(0, 0, 0, 8)));
    tree.insert(Point::new(7, 7, 7), VoxelMaterial::rough([1, 1, 1], 255));
    assert_eq!(tree.find_closest(&Point::new(1, 2, 3)), (None, Cube::new(0, 0, 0, 4)));
    assert_eq!(tree.find_closest(&Point::new(6, 7, 7)), (None, Cube::new(6, 7, 7, 1)));
    assert_eq!(tree.find_closest(&Point::new(4, 4, 4)), (None, Cube::new(4, 4, 4, 2)));
}
