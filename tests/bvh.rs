use rand::rngs::SmallRng;
use rand::{Rng, SeedableRng};
use spectral_rt::bvh::{sort_by_indices, Bvh, BvhHit, LinearBvhNode};
use spectral_rt::geometry::{Axis, Hittable, Point3, Ray, AABB};

/// The box around a sphere; coordinates in tenths.
fn sphere_box(x: i64, y: i64, z: i64, r: i64) -> AABB {
    AABB::new(Point3::new(x - r, y - r, z - r), Point3::new(x + r, y + r, z + r))
}

fn build_test_bvh() -> (Bvh, Vec<AABB>) {
    let sphere_0 = sphere_box(20, 0, 10, 2);
    let sphere_1 = sphere_box(20, 0, -10, 5);

    let sphere_2 = sphere_box(-20, 0, 10, 1);
    let sphere_3 = sphere_box(-20, 0, -10, 3);

    let mut primitives = vec![sphere_0, sphere_1, sphere_2, sphere_3];
    (Bvh::build(&mut primitives), primitives)
}

fn aabb(min: (i64, i64, i64), max: (i64, i64, i64)) -> AABB {
    AABB::new(Point3::new(min.0, min.1, min.2), Point3::new(max.0, max.1, max.2))
}

fn leaf_primitive(node: &LinearBvhNode) -> usize {
    node.primitive_offset_or_second_child_offset as usize
}

#[test]
fn test_bvh_build() {
    let (bvh, primitives) = build_test_bvh();
    let nodes = bvh.node_array();
    assert_eq!(nodes.len(), 7);

    // Interior nodes
    assert_eq!(nodes[0].aabb, aabb((-23, -5, -15), (25, 5, 12)));
    assert_eq!(nodes[0].split_axis, Axis::X);
    assert_eq!(nodes[0].primitive_count, 0);
    assert_eq!(nodes[0].primitive_offset_or_second_child_offset, 4);

    assert_eq!(nodes[1].aabb, aabb((-23, -3, -13), (-17, 3, 11)));
    assert_eq!(nodes[1].split_axis, Axis::Z);
    assert_eq!(nodes[1].primitive_count, 0);

    assert_eq!(nodes[4].aabb, aabb((15, -5, -15), (25, 5, 12)));
    assert_eq!(nodes[4].split_axis, Axis::Z);
    assert_eq!(nodes[4].primitive_count, 0);

    // Leaf nodes
    assert_eq!(nodes[2].aabb, aabb((-23, -3, -13), (-17, 3, -7)));
    assert_eq!(nodes[2].primitive_count, 1);
    assert_eq!(primitives[leaf_primitive(&nodes[2])].aabb(), nodes[2].aabb);

    assert_eq!(nodes[3].aabb, aabb((-21, -1, 9), (-19, 1, 11)));
    assert_eq!(nodes[3].primitive_count, 1);
    assert_eq!(primitives[leaf_primitive(&nodes[3])].aabb(), nodes[3].aabb);

    assert_eq!(nodes[5].aabb, aabb((15, -5, -15), (25, 5, -5)));
    assert_eq!(nodes[5].primitive_count, 1);
    assert_eq!(primitives[leaf_primitive(&nodes[5])].aabb(), nodes[5].aabb);

    assert_eq!(nodes[6].aabb, aabb((18, -2, 8), (22, 2, 12)));
    assert_eq!(nodes[6].primitive_count, 1);
    assert_eq!(primitives[leaf_primitive(&nodes[6])].aabb(), nodes[6].aabb);
}

fn brute_force(primitives: &[AABB], ray: &Ray, tmax: i128) -> Option<(usize, i128)> {
    let mut best: Option<(usize, i128)> = None;
    for (i, p) in primitives.iter().enumerate() {
        if let Some(t) = p.intersect(ray) {
            let limit = best.map(|b| b.1).unwrap_or(tmax);
            if t < limit {
                best = Some((i, t));
            }
        }
    }
    best
}

fn check_against_brute_force(bvh: &Bvh, primitives: &[AABB], ray: &Ray, tmax: i128) {
    let prims = primitives.to_vec();
    let bvh_hit = bvh.intersect(ray, tmax, &prims);
    match (bvh_hit, brute_force(primitives, ray, tmax)) {
        (Some(h), Some((_, t))) => {
            assert_eq!(h.t, t);
            assert_eq!(primitives[h.index].intersect(ray), Some(h.t));
        }
        (None, None) => (),
        (None, Some(_)) => panic!("missed hit"),
        (Some(_), None) => panic!("false positive"),
    }
}

#[test]
/// Tests that all intersections with the BVH match manual intersections.
fn test_bvh_intersect() {
    let (bvh, primitives) = build_test_bvh();
    let mut rng = SmallRng::seed_from_u64(7);

    let rays = 100_000;
    for _ in 0..rays {
        // A ray from just above the spheres, facing down the y axis.
        let ray_orig = Point3::new(rng.gen_range(-2..2), 10, rng.gen_range(-2..2));
        let target = Point3::new(
            rng.gen_range(-25..27),
            rng.gen_range(-7..7),
            rng.gen_range(-17..14),
        );
        let dir = Point3::new(
            target.x - ray_orig.x,
            target.y - ray_orig.y,
            target.z - ray_orig.z,
        );
        let ray = Ray::new(ray_orig, dir);
        check_against_brute_force(&bvh, &primitives, &ray, i128::MAX);
    }
}

#[test]
fn test_bvh_intersect_many_boxes() {
    let mut rng = SmallRng::seed_from_u64(11);
    let mut primitives: Vec<AABB> = (0..300)
        .map(|_| {
            let c = Point3::new(
                rng.gen_range(-1000..1000),
                rng.gen_range(-1000..1000),
                rng.gen_range(-1000..1000),
            );
            let r = rng.gen_range(0..60);
            sphere_box(c.x, c.y, c.z, r)
        })
        .collect();
    let original = primitives.clone();
    let bvh = Bvh::build(&mut primitives);
    // The build only reorders.
    let mut a: Vec<_> = original.iter().map(|b| (b.min.x, b.min.y, b.min.z, b.max.x)).collect();
    let mut b: Vec<_> = primitives.iter().map(|b| (b.min.x, b.min.y, b.min.z, b.max.x)).collect();
    a.sort();
    b.sort();
    assert_eq!(a, b);
    for _ in 0..2000 {
        let o = Point3::new(
            rng.gen_range(-1500..1500),
            rng.gen_range(-1500..1500),
            rng.gen_range(-1500..1500),
        );
        let d = Point3::new(rng.gen_range(-50..50), rng.gen_range(-50..50), rng.gen_range(-50..50));
        let ray = Ray::new(o, d);
        check_against_brute_force(&bvh, &primitives, &ray, i128::MAX);
        check_against_brute_force(&bvh, &primitives, &ray, rng.gen_range(0..1_000_000));
    }
}

#[test]
fn leaves_partition_the_primitives() {
    let mut rng = SmallRng::seed_from_u64(3);
    let mut primitives: Vec<AABB> = (0..97)
        .map(|_| {
            sphere_box(rng.gen_range(-500..500), rng.gen_range(-500..500), rng.gen_range(-5..5), rng.gen_range(1..20))
        })
        .collect();
    let n = primitives.len();
    let bvh = Bvh::build(&mut primitives);
    let nodes = bvh.node_array();
    let mut seen = vec![0usize; n];
    for (i, node) in nodes.iter().enumerate() {
        if node.primitive_count > 0 {
            let off = node.primitive_offset_or_second_child_offset as usize;
            for k in off..off + node.primitive_count as usize {
                seen[k] += 1;
                assert!(primitives[k].fits_within(node.aabb));
            }
        } else {
            let r = node.primitive_offset_or_second_child_offset as usize;
            assert_eq!(node.aabb, nodes[i + 1].aabb.union_aabb(nodes[r].aabb));
        }
    }
    assert!(seen.iter().all(|&c| c == 1));
}

#[test]
fn single_primitive_is_a_leaf_root() {
    let b = sphere_box(3, 4, 5, 2);
    let mut primitives = vec![b];
    let bvh = Bvh::build(&mut primitives);
    let nodes = bvh.node_array();
    assert_eq!(nodes.len(), 1);
    assert_eq!(nodes[0].primitive_count, 1);
    assert_eq!(nodes[0].primitive_offset_or_second_child_offset, 0);
    assert_eq!(nodes[0].aabb, b);
    let hit_ray = Ray::new(Point3::new(3, 4, -20), Point3::new(0, 0, 1));
    assert_eq!(bvh.intersect(&hit_ray, i128::MAX, &primitives), Some(BvhHit { index: 0, t: 23 }));
    assert_eq!(b.intersect(&hit_ray), Some(23));
    assert_eq!(bvh.intersect(&hit_ray, 23, &primitives), None);
    let miss_ray = Ray::new(Point3::new(3, 4, -20), Point3::new(1, 0, 0));
    assert_eq!(bvh.intersect(&miss_ray, i128::MAX, &primitives), None);
    assert_eq!(b.intersect(&miss_ray), None);
}

#[test]
fn coincident_boxes_form_one_leaf() {
    let b = sphere_box(1, 1, 1, 1);
    let mut primitives = vec![b; 9];
    let bvh = Bvh::build(&mut primitives);
    let nodes = bvh.node_array();
    assert_eq!(nodes.len(), 1);
    assert_eq!(nodes[0].primitive_count, 9);
}

#[test]
fn sort_by_indices_applies_the_permutation() {
    let mut data = vec!['a', 'b', 'c', 'd', 'e'];
    sort_by_indices(&mut data, vec![3, 0, 4, 1, 2]);
    assert_eq!(data, vec!['d', 'a', 'e', 'b', 'c']);
    let mut data = vec![10, 20, 30];
    sort_by_indices(&mut data, vec![0, 1, 2]);
    assert_eq!(data, vec![10, 20, 30]);
}

#[test]
fn root_box_and_depth_first_layout() {
    let mut rng = SmallRng::seed_from_u64(5);
    let mut primitives: Vec<AABB> = (0..57)
        .map(|_| sphere_box(rng.gen_range(-300..300), rng.gen_range(-300..300), rng.gen_range(-300..300), rng.gen_range(1..30)))
        .collect();
    let all = primitives.iter().fold(AABB::empty(), |b, p| b.union_aabb(*p));
    let bvh = Bvh::build(&mut primitives);
    let nodes = bvh.node_array();
    assert_eq!(nodes[0].aabb, all);
    let mut leaves = 0;
    for (i, node) in nodes.iter().enumerate() {
        if node.primitive_count > 0 {
            leaves += 1;
            let off = node.primitive_offset_or_second_child_offset as usize;
            let range = &primitives[off..off + node.primitive_count as usize];
            let tight = range.iter().fold(AABB::empty(), |b, p| b.union_aabb(*p));
            assert_eq!(node.aabb, tight);
            assert!(node.primitive_count as usize <= 4);
        } else {
            let r = node.primitive_offset_or_second_child_offset as usize;
            assert!(i + 1 < r && r < nodes.len());
        }
    }
    assert_eq!(nodes.len(), 2 * leaves - 1);
}

#[test]
fn occlusion_between_points() {
    let (bvh, primitives) = build_test_bvh();
    // Straight through the sphere box around (2, 0, 1).
    assert!(!bvh.is_unoccluded(Point3::new(20, 0, -30), Point3::new(20, 0, 30), &primitives));
    // Stopping short of it.
    assert!(bvh.is_unoccluded(Point3::new(20, 0, 30), Point3::new(20, 0, 13), &primitives));
    // Ending exactly on its face does not count as occluded.
    assert!(bvh.is_unoccluded(Point3::new(20, 0, 30), Point3::new(20, 0, 12), &primitives));
    // Passing above everything.
    assert!(bvh.is_unoccluded(Point3::new(-30, 20, 0), Point3::new(30, 20, 0), &primitives));
}
