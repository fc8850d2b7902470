use raytracer::config::Sky;
use raytracer::materials::{find_lights, find_obstructions, MaterialKind};
use raytracer::naming::{output_name, OutputKind};

#[test]
fn test_find_lights() {
    let world = vec![MaterialKind::Light, MaterialKind::Lambertian];
    assert_eq!(find_lights(&world).len(), 1);
}

#[test]
fn lights_and_obstructions_split_the_scene() {
    let world = vec![
        MaterialKind::Metal,
        MaterialKind::Light,
        MaterialKind::Glass,
        MaterialKind::Texture,
        MaterialKind::Light,
        MaterialKind::Lambertian,
    ];
    assert_eq!(find_lights(&world), vec![1, 4]);
    assert_eq!(find_obstructions(&world), vec![0, 2, 3, 5]);
    assert!(find_lights(&vec![]).is_empty());
    assert!(MaterialKind::Light.is_light());
    assert!(!MaterialKind::Glass.is_light());
}

#[test]
fn default_sky_has_no_texture() {
    assert!(Sky::new_default_sky().texture.is_none());
}

#[test]
fn output_names_follow_pattern() {
    assert_eq!(output_name("out/map", 7, 2400, OutputKind::Data), "out/map_7_2400.data");
    assert_eq!(output_name("m", -3, 0, OutputKind::Times), "m_-3_0.times");
    assert_eq!(output_name("m", 12, 5800, OutputKind::Angles), "m_12_5800.angles");
    assert_eq!(output_name("", 0, 868, OutputKind::Png), "_0_868.png");
    // the id is taken as a 32-bit integer
    assert_eq!(output_name("m", (1i64 << 32) + 5, 1, OutputKind::Data), "m_5_1.data");
    assert_eq!(output_name("m", i64::MIN, -9, OutputKind::Data), "m_0_-9.data");
}
