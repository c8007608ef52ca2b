use raytracer::bounds::{AABB, OrderedPoint};
use raytracer::order_key::{order_key, INFINITY_KEY, NEG_INFINITY_KEY};

fn key(x: f32) -> u32 {
    order_key((x + 0.0).to_bits())
}

fn point(x: f32, y: f32, z: f32) -> OrderedPoint {
    OrderedPoint::new(key(x), key(y), key(z))
}

#[test]
fn from_points_is_tight() {
    let pts = vec![point(1.0, -2.0, 3.0), point(-4.0, 5.0, 0.5), point(2.0, 0.0, -6.0)];
    let b = AABB::from_points(&pts);
    assert_eq!(b.min, point(-4.0, -2.0, -6.0));
    assert_eq!(b.max, point(2.0, 5.0, 3.0));
}

#[test]
fn from_no_points_is_inverted() {
    let b = AABB::from_points(&Vec::new());
    assert_eq!(b.min, OrderedPoint::new(INFINITY_KEY, INFINITY_KEY, INFINITY_KEY));
    assert_eq!(b.max, OrderedPoint::new(NEG_INFINITY_KEY, NEG_INFINITY_KEY, NEG_INFINITY_KEY));
}

#[test]
fn union_takes_componentwise_extremes() {
    let a = AABB::new(point(-1.0, 0.0, 2.0), point(1.0, 1.0, 3.0));
    let b = AABB::new(point(0.0, -5.0, 2.5), point(4.0, 0.5, 2.75));
    let u = a.union(&b);
    assert_eq!(u.min, point(-1.0, -5.0, 2.0));
    assert_eq!(u.max, point(4.0, 1.0, 3.0));
    assert_eq!(b.union(&a), u);
}

#[test]
fn point_axis_lookup() {
    let p = OrderedPoint::new(7, 8, 9);
    assert_eq!(p.get(0), 7);
    assert_eq!(p.get(1), 8);
    assert_eq!(p.get(2), 9);
    assert_eq!(p.get(5), 9);
}
