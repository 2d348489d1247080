use voxelrender::geometry::{Cube, Point};
use voxelrender::material::{row_band, VoxelMaterial};

#[test]
fn containment_is_closed_open() {
    let c = Cube::new(-1, -1, -1, 4);
    assert!(c.contains(&Point::new(-1, -1, -1)));
    assert!(c.contains(&Point::new(2, 2, 2)));
    assert!(!c.contains(&Point::new(3, 0, 0)));
    assert!(!c.contains(&Point::new(0, -2, 0)));
}

#[test]
fn octants_follow_x_y_z_bits() {
    let c = Cube::new(0, 0, 0, 8);
    assert_eq!(c.octant(&Point::new(0, 0, 0)), 0);
    assert_eq!(c.octant(&Point::new(4, 0, 0)), 4);
    assert_eq!(c.octant(&Point::new(0, 4, 0)), 2);
    assert_eq!(c.octant(&Point::new(0, 0, 4)), 1);
    assert_eq!(c.octant(&Point::new(7, 7, 7)), 7);
    assert_eq!(c.sub_cube(5), Cube::new(4, 0, 4, 4));
    assert_eq!(c.sub_cube(2), Cube::new(0, 4, 0, 4));
}

#[test]
fn row_bands_partition_rows() {
    assert_eq!(row_band(1080, 12, 0), (0, 90));
    assert_eq!(row_band(1080, 12, 11), (990, 1080));
    assert_eq!(row_band(10, 3, 2), (6, 9));
}

#[test]
fn material_constructors() {
    assert_eq!(
        VoxelMaterial::rough([1, 2, 3], 4),
        VoxelMaterial::Rough { color: [1, 2, 3], roughness: 4 }
    );
    assert_eq!(
        VoxelMaterial::emissive([5, 6, 7], 8),
        VoxelMaterial::Emission { color: [5, 6, 7], emission: 8 }
    );
}

#[test]
fn squared_distance_bounds_are_exact() {
    let c = Cube::new(0, 0, 0, 4);
    let l = Point::new(1, 1, 1);
    // far corner (4, 4, 4) from center (1.5, 1.5, 1.5): 4 * 3 * 2.5² = 75
    assert!(!c.far4_below(&l, 75));
    assert!(c.far4_below(&l, 76));
    let side = Cube::new(2, 0, 0, 2);
    let o = Point::new(0, 0, 0);
    // nearest face x = 2 from center x = 0.5: 4 * 1.5² = 9
    assert!(!side.near4_below(&o, 9));
    assert!(side.near4_below(&o, 10));
    assert!(side.near4_within(&o, 9));
    assert!(!side.near4_within(&o, 8));
    assert!(c.near4_within(&l, 0));
    let far = Point::new(i64::MAX - 1, i64::MIN, 0);
    assert!(!c.far4_below(&far, u64::MAX));
    assert!(!c.near4_within(&far, u64::MAX));
}
