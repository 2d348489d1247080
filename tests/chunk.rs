use voxelrender::chunk::{Chunk, Color, Material, MaterialType};

#[test]
fn packed_material_round_trips() {
    let m = Material::new(Color::new(200, 100, 50), MaterialType::Rough(255));
    assert!(m.is_present());
    assert_eq!(m.material_type(), MaterialType::Rough(63));
    assert_eq!(m.color(), Color::new(200, 100, 50));
    let e = Material::new(Color::new(200, 200, 200), MaterialType::Emissive(50));
    assert_eq!(e.material_type(), MaterialType::Emissive(12));
    let o = Material::new(Color::new(1, 2, 3), MaterialType::Opacity(7));
    assert_eq!(o.material_type(), MaterialType::Opacity(1));
}

#[test]
fn absent_material_is_not_present() {
    let a = Material::absent();
    assert!(!a.is_present());
    assert_eq!(a.material_type(), MaterialType::Absent);
    let colored = Material::new(Color::new(9, 9, 9), MaterialType::Absent);
    assert!(!colored.is_present());
    assert_eq!(colored.color(), Color::new(9, 9, 9));
}

#[test]
fn setters_keep_the_other_half() {
    let m = Material::new(Color::new(10, 20, 30), MaterialType::Rough(8));
    let t = m.set_type(MaterialType::Emissive(255));
    assert_eq!(t.color(), Color::new(10, 20, 30));
    assert_eq!(t.material_type(), MaterialType::Emissive(63));
    let c = m.set_color(Color::new(1, 2, 3));
    assert_eq!(c.material_type(), MaterialType::Rough(2));
    assert_eq!(c.color(), Color::new(1, 2, 3));
}

#[test]
fn lod_mix_averages_colors_and_attributes() {
    let a = Material::new(Color::new(100, 0, 10), MaterialType::Rough(255));
    let b = Material::new(Color::new(200, 50, 20), MaterialType::Emissive(200));
    let c = Material::new(Color::new(0, 100, 30), MaterialType::Opacity(255));
    let d = Material::absent();
    let (opaque, emissive) = Material::mix_lod_materials(a, b, c, d);
    assert_eq!(opaque.color(), Color::new(100, 50, 20));
    assert_eq!(opaque.material_type(), MaterialType::Opacity(3));
    assert_eq!(emissive.color(), Color::new(200, 50, 20));
    assert_eq!(emissive.material_type(), MaterialType::Emissive(12));
}

#[test]
fn lod_mix_of_nothing_is_black() {
    let z = Material::absent();
    let (opaque, emissive) = Material::mix_lod_materials(z, z, z, z);
    assert_eq!(opaque.color(), Color::new(0, 0, 0));
    assert_eq!(opaque.material_type(), MaterialType::Opacity(0));
    assert_eq!(emissive.color(), Color::new(0, 0, 0));
    assert_eq!(emissive.material_type(), MaterialType::Emissive(0));
}

#[test]
fn chunk_stores_materials_by_slot() {
    let mut chunk = Chunk::new(1, -2, 3);
    assert_eq!(chunk.location(), [1, -2, 3]);
    assert!(!chunk.material(3, 1, 1).is_present());
    let red = Material::new(Color::new(200, 100, 100), MaterialType::Rough(255));
    chunk.set_material(3, 1, 1, red);
    chunk.set_material(15, 15, 15, red);
    assert_eq!(chunk.material(3, 1, 1), red);
    assert_eq!(chunk.material(15, 15, 15), red);
    assert!(!chunk.material(3, 2, 1).is_present());
    assert!(!chunk.material(1, 3, 1).is_present());
}
