use spectral_rt::geometry::{Axis, Hittable, Point3, Ray, AABB};

fn splat(v: i64) -> Point3 {
    Point3::new(v, v, v)
}

#[test]
fn test_aabb() {
    // Coordinates in tenths.
    let aabb_0 = AABB::new(splat(10), splat(-10));
    let aabb_1 = AABB::new(splat(-10), splat(10));

    assert_eq!(aabb_0, aabb_1);
    assert_eq!(aabb_0.double_center(), splat(0));
    assert_eq!(aabb_1.double_center(), splat(0));

    let aabb_2 = AABB::new(splat(0), splat(20));
    assert_eq!(aabb_2.double_center(), splat(20));

    let aabb_3 = AABB::new(Point3::new(-18, -3, 9), Point3::new(12, 17, 19));
    assert_eq!(aabb_3.area(), 2200);
}

#[test]
fn test_aabb_union() {
    let aabb = AABB::new(splat(0), splat(10));
    let union_point_0 = aabb.union_point(Point3::new(11, 12, 13));
    let union_point_1 = aabb.union_point(Point3::new(-1, -2, -3));
    assert_eq!(union_point_0, AABB::new(splat(0), Point3::new(11, 12, 13)));
    assert_eq!(union_point_1, AABB::new(Point3::new(-1, -2, -3), splat(10)));

    let aabb_intersecting_0 = AABB::new(splat(-5), splat(20));
    let aabb_intersecting_1 = AABB::new(splat(0), splat(30));
    let union_aabb = aabb_intersecting_0.union_aabb(aabb_intersecting_1);
    assert_eq!(union_aabb, AABB::new(splat(-5), splat(30)));

    let aabb_enclosing_0 = AABB::new(splat(-20), splat(20));
    let aabb_enclosing_1 = AABB::new(splat(-10), splat(10));
    let union_aabb = aabb_enclosing_0.union_aabb(aabb_enclosing_1);
    assert_eq!(union_aabb, aabb_enclosing_0);

    let aabb_disjoint_0 = AABB::new(splat(-20), splat(-10));
    let aabb_disjoint_1 = AABB::new(splat(10), splat(20));
    let union_aabb = aabb_disjoint_0.union_aabb(aabb_disjoint_1);
    assert_eq!(union_aabb, AABB::new(splat(-20), splat(20)));
}

#[test]
fn empty_box_is_the_identity_of_union() {
    let b = AABB::new(Point3::new(-3, 4, 5), Point3::new(7, 8, 9));
    assert_eq!(AABB::empty().union_aabb(b), b);
    assert_eq!(b.union_aabb(AABB::empty()), b);
    assert!(b.fits_within(b));
    assert!(b.fits_within(AABB::new(splat(-10), splat(10))));
    assert!(!AABB::new(splat(-10), splat(10)).fits_within(b));
}

#[test]
fn max_axis_and_degenerate_boxes() {
    let b = AABB::new(Point3::new(0, 0, 0), Point3::new(5, 9, 2));
    assert_eq!(b.max_axis(), Axis::Y);
    assert_eq!(b.diagonal(), Point3::new(5, 9, 2));
    let p = AABB::new(splat(3), splat(3));
    assert!(p.is_empty());
    assert_eq!(p.area(), 0);
    assert!(!b.is_empty());
    // Ties go to the later axis.
    assert_eq!(AABB::new(splat(0), splat(4)).max_axis(), Axis::Z);
}

#[test]
fn ray_box_entry_steps() {
    // A unit box around z = 10, seen from the origin along +z.
    let b = AABB::new(Point3::new(-1, -1, 9), Point3::new(1, 1, 11));
    let ray = Ray::new(splat(0), Point3::new(0, 0, 1));
    assert_eq!(ray.scale(), 1);
    assert_eq!(b.entry_param(&ray), Some(9));
    assert!(b.intersects(&ray, 10));
    assert!(!b.intersects(&ray, 9));
    assert_eq!(b.intersect(&ray), Some(9));
    // Twice as long a direction: steps are counted per half length.
    let ray = Ray::new(splat(0), Point3::new(0, 0, 2));
    assert_eq!(ray.scale(), 2);
    assert_eq!(b.entry_param(&ray), Some(9));
    // Facing away: no hit.
    let ray = Ray::new(splat(0), Point3::new(0, 0, -1));
    assert_eq!(b.entry_param(&ray), None);
    // From inside: the entry is the origin.
    let ray = Ray::new(Point3::new(0, 0, 10), Point3::new(1, 0, 0));
    assert_eq!(b.entry_param(&ray), Some(0));
    // Parallel to a slab and outside it.
    let ray = Ray::new(Point3::new(5, 0, 0), Point3::new(0, 0, 1));
    assert_eq!(b.entry_param(&ray), None);
    // Diagonal: scale is 3 * 2 = 6, the box is entered at z = 9, i.e. 9 / 2 lengths.
    let ray = Ray::new(splat(0), Point3::new(0, 3, 2));
    assert_eq!(ray.scale(), 6);
    let wide = AABB::new(Point3::new(-1, -100, 9), Point3::new(1, 100, 11));
    assert_eq!(wide.entry_param(&ray), Some(27));
}
