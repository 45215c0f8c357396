use raytrace::material::MaterialType;
use raytrace::scene::nearest_hit;

fn key(t: f64) -> Option<u64> {
    Some(t.to_bits())
}

#[test]
fn nearest_of_several_hits() {
    let hits = vec![key(2.0), None, key(0.5), key(7.25)];
    assert_eq!(nearest_hit(&hits), Some(2));
}

#[test]
fn no_hit_anywhere() {
    assert_eq!(nearest_hit(&vec![None, None]), None);
    assert_eq!(nearest_hit(&Vec::new()), None);
}

#[test]
fn equal_distances_go_to_the_later_shape() {
    let hits = vec![key(1.5), key(3.0), key(1.5), None];
    assert_eq!(nearest_hit(&hits), Some(2));
}

#[test]
fn closer_hit_later_in_the_scene_is_not_skipped() {
    let hits = vec![key(0.002), key(0.0015), key(100.0)];
    assert_eq!(nearest_hit(&hits), Some(1));
    let far_first = vec![key(1.0e6), key(1.0e-3)];
    assert_eq!(nearest_hit(&far_first), Some(1));
}

#[test]
fn material_kinds_are_distinct() {
    assert_eq!(MaterialType::Matte, MaterialType::Matte);
    assert_ne!(MaterialType::Matte, MaterialType::Metal);
    assert_ne!(MaterialType::Metal, MaterialType::Dialectric);
}

#[test]
fn shape_order_does_not_change_the_nearest_distance() {
    let a = vec![key(4.0), None, key(0.75), key(2.5)];
    let b = vec![key(2.5), key(0.75), None, key(4.0)];
    let ia = nearest_hit(&a).unwrap();
    let ib = nearest_hit(&b).unwrap();
    assert_eq!(a[ia], key(0.75));
    assert_eq!(a[ia], b[ib]);
}
