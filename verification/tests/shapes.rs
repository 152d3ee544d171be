use libraries_rust::shape::{Area, GeometryError, Shape, ShapeRegistry};

/// Reads an exact fixed-point area as a floating-point number of square
/// units.
fn to_f64(a: Area) -> f64 {
    (a.pi_micro as f64) * std::f64::consts::PI / 1e6 + (a.micro as f64) / 1e6
}

#[test]
fn circle_area_is_pi_r_squared() {
    let c = Shape::circle(5000).unwrap();
    let a = c.area();
    assert_eq!(a.pi_micro, 25_000_000);
    assert_eq!(a.micro, 0);
    assert!((to_f64(a) - 78.5398).abs() < 1e-3);
}

#[test]
fn square_area_is_side_squared() {
    let s = Shape::square(4000).unwrap();
    let a = s.area();
    assert_eq!(a.pi_micro, 0);
    assert_eq!(a.micro, 16_000_000);
    assert!((to_f64(a) - 16.0).abs() < 1e-9);
}

#[test]
fn total_area_of_circle_and_square() {
    let mut reg = ShapeRegistry::new();
    reg.add(Shape::circle(5000).unwrap());
    reg.add(Shape::square(4000).unwrap());
    let t = reg.total_area();
    assert_eq!(t.pi_micro, 25_000_000);
    assert_eq!(t.micro, 16_000_000);
    assert!((to_f64(t) - 94.5398).abs() < 1e-3);
}

#[test]
fn total_area_of_empty_registry_is_zero() {
    let reg = ShapeRegistry::new();
    let t = reg.total_area();
    assert_eq!(
        t,
        Area {
            pi_micro: 0,
            micro: 0
        }
    );
    assert_eq!(to_f64(t), 0.0);
}

#[test]
fn zero_dimensions_are_rejected() {
    assert_eq!(Shape::circle(0), Err(GeometryError::NonPositiveDimension));
    assert_eq!(Shape::square(0), Err(GeometryError::NonPositiveDimension));
}

#[test]
fn area_of_dispatches_like_area() {
    let reg = ShapeRegistry::new();
    let c = Shape::circle(1500).unwrap();
    let s = Shape::square(2500).unwrap();
    assert_eq!(reg.area_of(&c), c.area());
    assert_eq!(reg.area_of(&s), s.area());
}

#[test]
fn insertion_order_is_preserved() {
    let mut reg = ShapeRegistry::new();
    let c = Shape::circle(1000).unwrap();
    let s = Shape::square(2000).unwrap();
    reg.add(c);
    reg.add(s);
    assert_eq!(reg.shapes, vec![c, s]);
}

#[test]
fn largest_dimension_does_not_overflow() {
    let c = Shape::circle(u32::MAX).unwrap();
    let a = c.area();
    assert_eq!(a.pi_micro, (u32::MAX as u128) * (u32::MAX as u128));
    assert_eq!(a.micro, 0);
}

#[test]
fn duplicate_shapes_both_count() {
    let mut reg = ShapeRegistry::new();
    let s = Shape::square(1000).unwrap();
    reg.add(s);
    reg.add(s);
    let t = reg.total_area();
    assert_eq!(t.micro, 2_000_000);
    assert_eq!(t.pi_micro, 0);
}
