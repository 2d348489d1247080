use voxelrender::geometry::{Cube, Point};
use voxelrender::lights::{LightReach, LightingTree};

fn small() -> LightingTree {
    LightingTree::new(Cube::new(0, 0, 0, 4))
}

#[test]
fn strong_light_is_recorded_once_at_the_root() {
    let mut t = small();
    let l = Point::new(1, 1, 1);
    t.insert(l, LightReach { useful: 1_000_000, relevant: 1_000_000 });
    for q in [Point::new(0, 0, 0), Point::new(3, 3, 3), Point::new(2, 0, 1)] {
        assert_eq!(t.query(&q), vec![l]);
    }
}

#[test]
fn hopeless_light_is_pruned_everywhere() {
    let mut t = small();
    t.insert(Point::new(100, 100, 100), LightReach { useful: 0, relevant: 0 });
    assert!(t.query(&Point::new(0, 0, 0)).is_empty());
    assert!(t.query(&Point::new(3, 3, 3)).is_empty());
}

#[test]
fn light_inside_the_world_is_never_pruned_where_it_sits() {
    let mut t = small();
    let l = Point::new(2, 1, 3);
    t.insert(l, LightReach { useful: 0, relevant: 0 });
    assert_eq!(t.query(&l), vec![l]);
    assert!(t.query(&Point::new(0, 0, 0)).is_empty());
}

#[test]
fn marginal_light_reaches_every_unit_voxel_once() {
    let mut t = small();
    let l = Point::new(0, 0, 0);
    t.insert(l, LightReach { useful: 28, relevant: 1_000_000 });
    for x in 0..4 {
        for y in 0..4 {
            for z in 0..4 {
                assert_eq!(t.query(&Point::new(x, y, z)), vec![l]);
            }
        }
    }
}

#[test]
fn useful_threshold_boundary_decides_both_sides() {
    let l = Point::new(0, 0, 0);
    let q = Point::new(1, 1, 1);
    let mut above = small();
    above.insert(l, LightReach { useful: 28, relevant: 1 });
    assert_eq!(above.query(&q), vec![l]);
    assert!(above.query(&Point::new(3, 3, 3)).is_empty());
    let mut at = small();
    at.insert(l, LightReach { useful: 27, relevant: 1 });
    assert!(at.query(&q).is_empty());
    assert_eq!(at.query(&l), vec![l]);
}

#[test]
fn lights_accumulate_along_the_path() {
    let mut t = small();
    let a = Point::new(1, 1, 1);
    let b = Point::new(3, 3, 3);
    t.insert(a, LightReach { useful: 1_000_000, relevant: 1_000_000 });
    t.insert(b, LightReach { useful: 28, relevant: 1 });
    let mut got = t.query(&Point::new(3, 3, 2));
    got.sort_by_key(|p| (p.x, p.y, p.z));
    assert_eq!(got, vec![a, b]);
    assert_eq!(t.query(&Point::new(0, 0, 0)), vec![a]);
}
