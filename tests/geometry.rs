use raytracer_lib::bounding_box::BoundingBox;
use raytracer_lib::helpers::{Comparable, Point, Zeroable};
use raytracer_lib::ray::Ray;

fn p(x: i64, y: i64, z: i64) -> Point {
    Point::new(x, y, z)
}

fn bx(min: Point, max: Point) -> BoundingBox {
    BoundingBox::new(&min, &max)
}

#[test]
fn slab_miss() {
    let b = bx(p(0, 0, 0), p(1, 1, 1));
    let r = Ray::new(p(2, 2, -1), p(0, 0, 1));
    assert!(!b.intersect(&r));
}

#[test]
fn slab_hit_along_axis() {
    let b = bx(p(0, 0, 0), p(2, 2, 2));
    let r = Ray::new(p(1, 1, -5), p(0, 0, 1));
    assert!(b.intersect(&r));
}

#[test]
fn slab_hit_behind_origin_counts() {
    let b = bx(p(0, 0, 0), p(2, 2, 2));
    let r = Ray::new(p(1, 1, 10), p(0, 0, 1));
    assert!(b.intersect(&r));
}

#[test]
fn slab_diagonal_hit_and_miss() {
    let b = bx(p(0, 0, 0), p(2, 2, 2));
    assert!(b.intersect(&Ray::new(p(-1, -1, 1), p(1, 1, 0))));
    assert!(b.intersect(&Ray::new(p(5, 5, 1), p(-1, -1, 0))));
    assert!(!b.intersect(&Ray::new(p(-1, 4, 1), p(1, 1, 0))));
    assert!(b.intersect(&Ray::new(p(-1, 4, 1), p(-1, 1, 0))));
    assert!(!b.intersect(&Ray::new(p(-1, 4, 1), p(0, 1, 0))));
}

#[test]
fn slab_zero_direction_needs_origin_inside() {
    let b = bx(p(0, 0, 0), p(2, 2, 2));
    assert!(b.intersect(&Ray::new(p(1, 1, 1), p(0, 0, 0))));
    assert!(!b.intersect(&Ray::new(p(3, 1, 1), p(0, 0, 0))));
}

#[test]
fn empty_box_is_never_hit() {
    let e = BoundingBox::default();
    assert!(!e.intersect(&Ray::new(p(0, 0, 0), p(1, 1, 1))));
    assert!(!e.intersect(&Ray::new(p(0, 0, 0), p(0, 0, 0))));
}

#[test]
fn union_commutes_and_associates() {
    let a = bx(p(0, 0, 0), p(1, 2, 3));
    let b = bx(p(-1, 1, 2), p(0, 5, 2));
    let c = bx(p(4, -3, 0), p(6, 0, 1));
    assert_eq!(a.union(&b), b.union(&a));
    assert_eq!(a.union(&b).union(&c), a.union(&b.union(&c)));
    assert_eq!(a.union(&b), bx(p(-1, 0, 0), p(1, 5, 3)));
}

#[test]
fn union_with_empty_is_identity() {
    let a = bx(p(0, -4, 0), p(1, 2, 3));
    let e = BoundingBox::default();
    assert_eq!(e.union(&a), a);
    assert_eq!(a.union(&e), a);
}

#[test]
fn union_with_point_grows_box() {
    let e = BoundingBox::default();
    let b = e.union_with_point(&p(1, 2, 3));
    assert_eq!(b, bx(p(1, 2, 3), p(1, 2, 3)));
    let b = b.union_with_point(&p(-1, 5, 3));
    assert_eq!(b, bx(p(-1, 2, 3), p(1, 5, 3)));
}

#[test]
fn surface_area_and_extent() {
    let b = bx(p(0, 0, 0), p(1, 2, 3));
    assert_eq!(b.surface_area(), 22);
    assert_eq!(b.maximum_extent(), 2);
    assert_eq!(bx(p(0, 0, 0), p(5, 2, 3)).maximum_extent(), 0);
    assert_eq!(bx(p(0, 0, 0), p(2, 2, 2)).maximum_extent(), 2);
    assert_eq!(bx(p(0, 0, 0), p(1, 4, 2)).maximum_extent(), 1);
    assert_eq!(BoundingBox::default().surface_area(), 0);
}

#[test]
fn get_min_max_returns_corners() {
    let b = bx(p(0, 1, 2), p(3, 4, 5));
    let (min, max) = b.get_min_max();
    assert_eq!(*min, p(0, 1, 2));
    assert_eq!(*max, p(3, 4, 5));
}

#[test]
fn point_min_max_between() {
    let a = p(1, -2, 3);
    let b = p(0, 5, 3);
    assert_eq!(a.min_between(&b), p(0, -2, 3));
    assert_eq!(a.max_between(&b), p(1, 5, 3));
    assert_eq!(a.get(1), -2);
}

#[test]
fn point_is_zero() {
    assert!(p(0, 0, 0).is_zero());
    assert!(!p(0, 1, 0).is_zero());
}

#[test]
fn ray_accessors() {
    let r = Ray::new(p(1, 2, 3), p(0, -1, 0));
    assert_eq!(*r.origin(), p(1, 2, 3));
    assert_eq!(*r.direction(), p(0, -1, 0));
}

#[test]
fn slab_with_extreme_values() {
    let b = bx(p(i64::MIN, i64::MIN, i64::MIN), p(i64::MAX, i64::MAX, i64::MAX));
    assert!(b.intersect(&Ray::new(p(i64::MAX, i64::MIN, 0), p(i64::MIN, i64::MAX, 1))));
    let small = bx(p(0, 0, 0), p(1, 1, 1));
    assert!(!small.intersect(&Ray::new(p(i64::MAX, i64::MIN, 0), p(i64::MIN, i64::MIN, 0))));
    assert!(small.intersect(&Ray::new(p(i64::MAX, i64::MAX, 0), p(i64::MIN, i64::MIN, 0))));
}
