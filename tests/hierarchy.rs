use raytracer_lib::bounding_box::BoundingBox;
use raytracer_lib::bvh::{BVHNode, BVH};
use raytracer_lib::helpers::Point;
use raytracer_lib::ray::Ray;

fn p(x: i64, y: i64, z: i64) -> Point {
    Point::new(x, y, z)
}

fn unit_boxes_along_x(xs: &[i64]) -> Vec<BoundingBox> {
    xs.iter()
        .map(|&x| BoundingBox::new(&p(x, 0, 0), &p(x + 2, 2, 2)))
        .collect()
}

fn sorted(mut v: Vec<usize>) -> Vec<usize> {
    v.sort();
    v
}

fn check_covers(node: &BVHNode, ordered: &[usize], boxes: &[BoundingBox]) -> Vec<usize> {
    let ids = match node {
        BVHNode::Leaf { first_prim_offset, number_primitives, .. } => {
            ordered[*first_prim_offset..first_prim_offset + number_primitives].to_vec()
        }
        BVHNode::Interior { left, right, .. } => {
            let mut l = check_covers(left, ordered, boxes);
            l.extend(check_covers(right, ordered, boxes));
            l
        }
    };
    let b = node.get_bounds();
    for &id in &ids {
        let inner = boxes[id];
        assert!(b.min.x <= inner.min.x && b.min.y <= inner.min.y && b.min.z <= inner.min.z);
        assert!(inner.max.x <= b.max.x && inner.max.y <= b.max.y && inner.max.z <= b.max.z);
    }
    ids
}

#[test]
fn four_boxes_along_x_in_order() {
    // boxes of side one at x = 0, 2, 4, 6 on a grid of half units
    let boxes = unit_boxes_along_x(&[0, 4, 8, 12]);
    let bvh = BVH::new(&boxes);
    let ray = Ray::new(p(-2, 1, 1), p(1, 0, 0));
    assert_eq!(bvh.traverse(&ray), vec![0, 1, 2, 3]);
}

#[test]
fn four_boxes_given_out_of_order() {
    let boxes = unit_boxes_along_x(&[8, 0, 12, 4]);
    let bvh = BVH::new(&boxes);
    let ray = Ray::new(p(-2, 1, 1), p(1, 0, 0));
    assert_eq!(bvh.traverse(&ray), vec![1, 3, 0, 2]);
    let back = Ray::new(p(20, 1, 1), p(-1, 0, 0));
    assert_eq!(bvh.traverse(&back), vec![2, 0, 3, 1]);
}

#[test]
fn ray_missing_everything_has_no_candidates() {
    let boxes = unit_boxes_along_x(&[0, 4, 8, 12]);
    let bvh = BVH::new(&boxes);
    let ray = Ray::new(p(-2, 5, 1), p(1, 0, 0));
    assert!(bvh.traverse(&ray).is_empty());
}

#[test]
fn ray_across_picks_single_box() {
    let boxes = unit_boxes_along_x(&[0, 4, 8, 12]);
    let bvh = BVH::new(&boxes);
    let ray = Ray::new(p(9, 1, -3), p(0, 0, 1));
    assert_eq!(bvh.traverse(&ray), vec![2]);
}

#[test]
fn sah_build_over_many_boxes() {
    let xs: Vec<i64> = (0..40).map(|i| ((i * 7) % 40) * 3).collect();
    let boxes = unit_boxes_along_x(&xs);
    let bvh = BVH::new(&boxes);
    assert_eq!(sorted(bvh.ordered_prims.clone()), (0..40).collect::<Vec<_>>());
    let ids = check_covers(&bvh.root, &bvh.ordered_prims, &boxes);
    assert_eq!(ids, bvh.ordered_prims);
    let ray = Ray::new(p(-5, 1, 1), p(1, 0, 0));
    let hits = bvh.traverse(&ray);
    let mut by_x: Vec<usize> = (0..40).collect();
    by_x.sort_by_key(|&i| xs[i]);
    assert_eq!(hits, by_x);
}

#[test]
fn sah_build_in_three_dimensions() {
    let mut boxes = Vec::new();
    for i in 0..9i64 {
        for j in 0..9i64 {
            for k in 0..3i64 {
                let x = i * 10 + (j % 3);
                let y = j * 10 + k;
                let z = k * 10 + (i % 2);
                boxes.push(BoundingBox::new(&p(x, y, z), &p(x + 3, y + 2, z + 1)));
            }
        }
    }
    let n = boxes.len();
    let bvh = BVH::new(&boxes);
    assert_eq!(sorted(bvh.ordered_prims.clone()), (0..n).collect::<Vec<_>>());
    check_covers(&bvh.root, &bvh.ordered_prims, &boxes);
    let ray = Ray::new(p(-100, -100, -100), p(3, 3, 1));
    let hits = bvh.traverse(&ray);
    for id in 0..n {
        if boxes[id].intersect(&ray) {
            assert!(hits.contains(&id));
        }
    }
}

#[test]
fn coincident_centroids_make_one_leaf() {
    let boxes: Vec<BoundingBox> = (0..300)
        .map(|i| BoundingBox::new(&p(-i, -i, -i), &p(i, i, i)))
        .collect();
    let bvh = BVH::new(&boxes);
    match &bvh.root {
        BVHNode::Leaf { first_prim_offset, number_primitives, .. } => {
            assert_eq!(*first_prim_offset, 0);
            assert_eq!(*number_primitives, 300);
        }
        BVHNode::Interior { .. } => panic!("expected a single leaf"),
    }
    assert_eq!(bvh.ordered_prims, (0..300).collect::<Vec<usize>>());
}

#[test]
fn single_primitive_is_a_leaf() {
    let boxes = unit_boxes_along_x(&[3]);
    let bvh = BVH::new(&boxes);
    assert_eq!(bvh.ordered_prims, vec![0]);
    assert!(matches!(bvh.root, BVHNode::Leaf { number_primitives: 1, .. }));
}

#[test]
fn no_primitives_gives_empty_hierarchy() {
    let bvh = BVH::new(&Vec::new());
    assert!(bvh.ordered_prims.is_empty());
    assert!(bvh.traverse(&Ray::new(p(0, 0, 0), p(1, 0, 0))).is_empty());
}

#[test]
fn interior_node_bounds_are_union_of_children() {
    let a = BVHNode::new_leaf(BoundingBox::new(&p(0, 0, 0), &p(1, 1, 1)), 1, 0);
    let b = BVHNode::new_leaf(BoundingBox::new(&p(2, -1, 0), &p(3, 1, 4)), 1, 1);
    let n = BVHNode::new_interior(0, Box::new(a), Box::new(b));
    assert_eq!(*n.get_bounds(), BoundingBox::new(&p(0, -1, 0), &p(3, 1, 4)));
}

#[test]
fn boxes_at_the_grid_limits() {
    let l = raytracer_lib::helpers::COORD_LIMIT;
    let mut boxes = Vec::new();
    for i in 0..12i64 {
        let x = -l + i * (l / 6);
        boxes.push(BoundingBox::new(&p(x, -l, -l), &p(x + l / 12, l, l)));
    }
    boxes.push(BoundingBox::new(&p(-l, -l, -l), &p(l, l, l)));
    let bvh = BVH::new(&boxes);
    assert_eq!(sorted(bvh.ordered_prims.clone()), (0..13).collect::<Vec<_>>());
    check_covers(&bvh.root, &bvh.ordered_prims, &boxes);
    let ray = Ray::new(p(i64::MIN, 0, 0), p(i64::MAX, 0, 0));
    assert_eq!(sorted(bvh.traverse(&ray)), (0..13).collect::<Vec<_>>());
}

#[test]
fn small_node_splits_at_the_median() {
    let boxes = unit_boxes_along_x(&[8, 0, 4]);
    let bvh = BVH::new(&boxes);
    match &bvh.root {
        BVHNode::Interior { split_axis, left, right, .. } => {
            assert_eq!(*split_axis, 0);
            assert!(matches!(**left, BVHNode::Leaf { number_primitives: 1, .. }));
            assert!(matches!(**right, BVHNode::Interior { .. }));
        }
        BVHNode::Leaf { .. } => panic!("expected a split"),
    }
    assert_eq!(bvh.ordered_prims, vec![1, 2, 0]);
}

#[test]
fn split_axis_is_longest_centroid_axis() {
    let boxes: Vec<BoundingBox> = (0..4)
        .map(|i| BoundingBox::new(&p(i, 10 * i, 0), &p(i + 1, 10 * i + 1, 1)))
        .collect();
    let bvh = BVH::new(&boxes);
    match &bvh.root {
        BVHNode::Interior { split_axis, .. } => assert_eq!(*split_axis, 1),
        BVHNode::Leaf { .. } => panic!("expected a split"),
    }
}

#[test]
fn leaf_bounds_are_union_of_its_boxes() {
    let boxes: Vec<BoundingBox> = (0..3)
        .map(|i| BoundingBox::new(&p(-i, 0, -2 * i), &p(i, 1, 2 * i)))
        .collect();
    let bvh = BVH::new(&boxes);
    match &bvh.root {
        BVHNode::Leaf { bounds, first_prim_offset, number_primitives } => {
            assert_eq!(*bounds, BoundingBox::new(&p(-2, 0, -4), &p(2, 1, 4)));
            assert_eq!((*first_prim_offset, *number_primitives), (0, 3));
        }
        BVHNode::Interior { .. } => panic!("coincident centroids should make a leaf"),
    }
    assert_eq!(bvh.ordered_prims, vec![0, 1, 2]);
}
