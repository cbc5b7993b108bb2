use vstd::prelude::*;

verus! {

/// Coordinates are fixed-point integers whose magnitude stays within this bound.
pub const COORD_LIMIT: i64 = 1073741824;

/// The lowest coordinate, the negation of `COORD_LIMIT`.
pub const COORD_MIN: i64 = -1073741824;

/// Derived values (sums of two coordinates, the empty box) stay within this bound.
pub const WIDE_LIMIT: i64 = 2147483648;

/// The negation of `WIDE_LIMIT`.
pub const WIDE_MIN: i64 = -2147483648;

#[derive(Clone, Copy, Debug, PartialEq, Eq, Structural)]
pub enum Axis {
    X,
    Y,
    Z,
}

/// A point in fixed-point coordinates.
#[derive(Clone, Copy, Debug, PartialEq, Eq, Structural)]
pub struct Point3 {
    pub x: i64,
    pub y: i64,
    pub z: i64,
}

pub open spec fn min_int(a: i64, b: i64) -> i64 {
    if a <= b {
        a
    } else {
        b
    }
}

pub open spec fn max_int(a: i64, b: i64) -> i64 {
    if a >= b {
        a
    } else {
        b
    }
}

fn min_i64(a: i64, b: i64) -> (r: i64)
    ensures
        r == min_int(a, b),
{
    if a <= b {
        a
    } else {
        b
    }
}

fn max_i64(a: i64, b: i64) -> (r: i64)
    ensures
        r == max_int(a, b),
{
    if a >= b {
        a
    } else {
        b
    }
}

pub open spec fn coord_ok(v: i64) -> bool {
    COORD_MIN <= v <= COORD_LIMIT
}

impl Point3 {
    pub fn new(x: i64, y: i64, z: i64) -> (r: Point3)
        ensures
            r == (Point3 { x, y, z }),
    {
        Point3 { x, y, z }
    }

    pub open spec fn at(self, a: Axis) -> int {
        match a {
            Axis::X => self.x as int,
            Axis::Y => self.y as int,
            Axis::Z => self.z as int,
        }
    }

    pub fn get(&self, a: Axis) -> (r: i64)
        ensures
            r == self.at(a),
    {
        match a {
            Axis::X => self.x,
            Axis::Y => self.y,
            Axis::Z => self.z,
        }
    }

    pub open spec fn in_range(self) -> bool {
        coord_ok(self.x) && coord_ok(self.y) && coord_ok(self.z)
    }

    /// Within the range of derived values.
    pub open spec fn bounded(self) -> bool {
        &&& WIDE_MIN <= self.x <= WIDE_LIMIT
        &&& WIDE_MIN <= self.y <= WIDE_LIMIT
        &&& WIDE_MIN <= self.z <= WIDE_LIMIT
    }
}

/// An axis-aligned box.
#[derive(Clone, Copy, Debug, PartialEq, Eq, Structural)]
pub struct AABB {
    pub min: Point3,
    pub max: Point3,
}

/// The componentwise minimum of two points.
pub open spec fn point_min(a: Point3, b: Point3) -> Point3 {
    Point3 { x: min_int(a.x, b.x), y: min_int(a.y, b.y), z: min_int(a.z, b.z) }
}

/// The componentwise maximum of two points.
pub open spec fn point_max(a: Point3, b: Point3) -> Point3 {
    Point3 { x: max_int(a.x, b.x), y: max_int(a.y, b.y), z: max_int(a.z, b.z) }
}

/// The identity of union over bounded boxes: the inverted box at the edge of the
/// range of derived values.
pub open spec fn empty_box() -> AABB {
    AABB {
        min: Point3 { x: WIDE_LIMIT, y: WIDE_LIMIT, z: WIDE_LIMIT },
        max: Point3 { x: WIDE_MIN, y: WIDE_MIN, z: WIDE_MIN },
    }
}

impl AABB {
    /// Both corners lie in the coordinate range.
    pub open spec fn in_range(self) -> bool {
        self.min.in_range() && self.max.in_range()
    }

    /// Both corners lie in the range of derived values.
    pub open spec fn bounded(self) -> bool {
        self.min.bounded() && self.max.bounded()
    }

    /// `min <= max` on every axis.
    pub open spec fn ordered(self) -> bool {
        &&& self.min.x <= self.max.x
        &&& self.min.y <= self.max.y
        &&& self.min.z <= self.max.z
    }

    /// In range, with `min <= max` on every axis.
    pub open spec fn valid(self) -> bool {
        self.in_range() && self.ordered()
    }

    pub open spec fn spec_union(self, b: AABB) -> AABB {
        AABB { min: point_min(self.min, b.min), max: point_max(self.max, b.max) }
    }

    /// Whether `b` lies inside this box.
    pub open spec fn contains_box(self, b: AABB) -> bool {
        &&& self.min.x <= b.min.x && self.min.y <= b.min.y && self.min.z <= b.min.z
        &&& b.max.x <= self.max.x && b.max.y <= self.max.y && b.max.z <= self.max.z
    }

    pub open spec fn extent(self, a: Axis) -> int {
        self.max.at(a) - self.min.at(a)
    }

    /// The surface area.
    pub open spec fn spec_area(self) -> int {
        let dx = self.extent(Axis::X);
        let dy = self.extent(Axis::Y);
        let dz = self.extent(Axis::Z);
        2 * (dx * dy + dx * dz + dz * dy)
    }

    /// The axis of largest extent; ties go to the later axis.
    pub open spec fn spec_max_axis(self) -> Axis {
        let dx = self.extent(Axis::X);
        let dy = self.extent(Axis::Y);
        let dz = self.extent(Axis::Z);
        if dx > dy && dx > dz {
            Axis::X
        } else if dy > dz {
            Axis::Y
        } else {
            Axis::Z
        }
    }

    /// The box spanned by two corners, in either order.
    pub fn new(a: Point3, b: Point3) -> (r: AABB)
        ensures
            r == (AABB { min: point_min(a, b), max: point_max(a, b) }),
    {
        AABB {
            min: Point3 { x: min_i64(a.x, b.x), y: min_i64(a.y, b.y), z: min_i64(a.z, b.z) },
            max: Point3 { x: max_i64(a.x, b.x), y: max_i64(a.y, b.y), z: max_i64(a.z, b.z) },
        }
    }

    /// The identity of union.
    pub fn empty() -> (r: AABB)
        ensures
            r == empty_box(),
    {
        AABB {
            min: Point3 { x: WIDE_LIMIT, y: WIDE_LIMIT, z: WIDE_LIMIT },
            max: Point3 { x: WIDE_MIN, y: WIDE_MIN, z: WIDE_MIN },
        }
    }

    pub fn union_aabb(self, b: AABB) -> (r: AABB)
        ensures
            r == self.spec_union(b),
    {
        AABB {
            min: Point3 {
                x: min_i64(self.min.x, b.min.x),
                y: min_i64(self.min.y, b.min.y),
                z: min_i64(self.min.z, b.min.z),
            },
            max: Point3 {
                x: max_i64(self.max.x, b.max.x),
                y: max_i64(self.max.y, b.max.y),
                z: max_i64(self.max.z, b.max.z),
            },
        }
    }

    pub fn union_point(self, p: Point3) -> (r: AABB)
        ensures
            r == self.spec_union(AABB { min: p, max: p }),
    {
        self.union_aabb(AABB { min: p, max: p })
    }

    /// Whether this box lies inside `other`.
    pub fn fits_within(&self, other: AABB) -> (r: bool)
        ensures
            r == other.contains_box(*self),
    {
        other.min.x <= self.min.x && other.min.y <= self.min.y && other.min.z <= self.min.z
            && self.max.x <= other.max.x && self.max.y <= other.max.y && self.max.z
            <= other.max.z
    }

    pub fn diagonal(&self) -> (r: Point3)
        requires
            self.bounded(),
        ensures
            r.x == self.extent(Axis::X),
            r.y == self.extent(Axis::Y),
            r.z == self.extent(Axis::Z),
    {
        Point3 { x: self.max.x - self.min.x, y: self.max.y - self.min.y, z: self.max.z - self.min.z }
    }

    /// The surface area; negative for an inverted box such as the empty one.
    pub fn area(&self) -> (r: i128)
        requires
            self.bounded(),
        ensures
            r == self.spec_area(),
            -110680464442257309696 <= r <= 110680464442257309696,
    {
        let d = self.diagonal();
        let dx = d.x as i128;
        let dy = d.y as i128;
        let dz = d.z as i128;
        let lim = 2 * WIDE_LIMIT as i128;
        assert(-lim <= dx <= lim && -lim <= dy <= lim && -lim <= dz <= lim);
        assert(-lim * lim <= dx * dy <= lim * lim) by (nonlinear_arith)
            requires
                -lim <= dx <= lim,
                -lim <= dy <= lim,
        ;
        assert(-lim * lim <= dx * dz <= lim * lim) by (nonlinear_arith)
            requires
                -lim <= dx <= lim,
                -lim <= dz <= lim,
        ;
        assert(-lim * lim <= dz * dy <= lim * lim) by (nonlinear_arith)
            requires
                -lim <= dz <= lim,
                -lim <= dy <= lim,
        ;
        2 * (dx * dy + dx * dz + dz * dy)
    }

    /// Twice the center: the sum of the corners, exact in integers.
    pub fn double_center(&self) -> (r: Point3)
        requires
            self.in_range(),
        ensures
            r.x == self.min.x + self.max.x,
            r.y == self.min.y + self.max.y,
            r.z == self.min.z + self.max.z,
    {
        Point3 { x: self.min.x + self.max.x, y: self.min.y + self.max.y, z: self.min.z + self.max.z }
    }

    pub fn max_axis(&self) -> (r: Axis)
        requires
            self.bounded(),
        ensures
            r == self.spec_max_axis(),
    {
        let d = self.diagonal();
        if d.x > d.y && d.x > d.z {
            Axis::X
        } else if d.y > d.z {
            Axis::Y
        } else {
            Axis::Z
        }
    }

    /// Whether the box is a single point.
    pub fn is_empty(&self) -> (r: bool)
        ensures
            r == (self.min == self.max),
    {
        self.min.x == self.max.x && self.min.y == self.max.y && self.min.z == self.max.z
    }
}

/// Direction components stay within this bound.
pub const DIR_LIMIT: i64 = 1048576;

/// A ray from `orig` along `dir`. Positions along it are counted in steps of
/// `dir / ray_scale(dir)`, so that every slab of every box starts and ends on a step.
#[derive(Clone, Copy, Debug, PartialEq, Eq, Structural)]
pub struct Ray {
    pub orig: Point3,
    pub dir: Point3,
}

/// The magnitude of a direction component, with 1 for 0.
pub open spec fn unit(d: i64) -> int {
    if d == 0 {
        1
    } else if d < 0 {
        -d
    } else {
        d as int
    }
}

/// How many steps make one length of the direction vector.
pub open spec fn ray_scale(d: Point3) -> int {
    unit(d.x) * unit(d.y) * unit(d.z)
}

/// At step `n`, coordinate `o + n * d / scale` lies in `[lo, hi]`.
pub open spec fn in_slab(o: int, d: int, lo: int, hi: int, n: int, scale: int) -> bool {
    lo * scale <= o * scale + n * d <= hi * scale
}

/// At step `n` the ray is inside `b`.
pub open spec fn in_box_at(ray: Ray, n: int, b: AABB) -> bool {
    let s = ray_scale(ray.dir);
    &&& in_slab(ray.orig.x as int, ray.dir.x as int, b.min.x as int, b.max.x as int, n, s)
    &&& in_slab(ray.orig.y as int, ray.dir.y as int, b.min.y as int, b.max.y as int, n, s)
    &&& in_slab(ray.orig.z as int, ray.dir.z as int, b.min.z as int, b.max.z as int, n, s)
}

/// The first step of a slab along one axis; `k` is the scale over `|d|`.
pub open spec fn axis_lo(o: int, d: int, lo: int, hi: int, k: int) -> int {
    if d > 0 {
        (lo - o) * k
    } else if d < 0 {
        (o - hi) * k
    } else {
        0
    }
}

/// The last step of a slab along one axis; none when the ray runs parallel to it.
pub open spec fn axis_hi(o: int, d: int, lo: int, hi: int, k: int) -> Option<int> {
    if d > 0 {
        Some((hi - o) * k)
    } else if d < 0 {
        Some((o - lo) * k)
    } else {
        None
    }
}

/// A ray parallel to a slab meets it only from inside.
pub open spec fn axis_ok(o: int, d: int, lo: int, hi: int) -> bool {
    d != 0 || (lo <= o <= hi)
}

pub open spec fn max2(a: int, b: int) -> int {
    if a >= b {
        a
    } else {
        b
    }
}

pub open spec fn below(e: int, h: Option<int>) -> bool {
    match h {
        Some(v) => e <= v,
        None => true,
    }
}

/// The first step, not before the origin, at which the ray is inside `b`.
pub open spec fn box_entry(ray: Ray, b: AABB) -> Option<int> {
    let (o, d) = (ray.orig, ray.dir);
    let kx = unit(d.y) * unit(d.z);
    let ky = unit(d.x) * unit(d.z);
    let kz = unit(d.x) * unit(d.y);
    let e = max2(
        max2(
            max2(0, axis_lo(o.x as int, d.x as int, b.min.x as int, b.max.x as int, kx)),
            axis_lo(o.y as int, d.y as int, b.min.y as int, b.max.y as int, ky),
        ),
        axis_lo(o.z as int, d.z as int, b.min.z as int, b.max.z as int, kz),
    );
    if axis_ok(o.x as int, d.x as int, b.min.x as int, b.max.x as int) && axis_ok(
        o.y as int,
        d.y as int,
        b.min.y as int,
        b.max.y as int,
    ) && axis_ok(o.z as int, d.z as int, b.min.z as int, b.max.z as int) && below(
        e,
        axis_hi(o.x as int, d.x as int, b.min.x as int, b.max.x as int, kx),
    ) && below(e, axis_hi(o.y as int, d.y as int, b.min.y as int, b.max.y as int, ky)) && below(
        e,
        axis_hi(o.z as int, d.z as int, b.min.z as int, b.max.z as int, kz),
    ) {
        Some(e)
    } else {
        None
    }
}

impl Ray {
    /// The origin is in range and the direction components within `DIR_LIMIT`.
    pub open spec fn wf(self) -> bool {
        &&& self.orig.in_range()
        &&& -DIR_LIMIT <= self.dir.x <= DIR_LIMIT
        &&& -DIR_LIMIT <= self.dir.y <= DIR_LIMIT
        &&& -DIR_LIMIT <= self.dir.z <= DIR_LIMIT
    }

    pub fn new(orig: Point3, dir: Point3) -> (r: Ray)
        ensures
            r == (Ray { orig, dir }),
    {
        Ray { orig, dir }
    }

    /// How many steps make one length of the direction vector.
    pub fn scale(&self) -> (r: i128)
        requires
            self.wf(),
        ensures
            r == ray_scale(self.dir),
    {
        let (ux, uy, uz) = (unit_of(self.dir.x), unit_of(self.dir.y), unit_of(self.dir.z));
        proof {
            lemma_unit_products(self.dir);
        }
        ux * uy * uz
    }
}

fn unit_of(d: i64) -> (r: i128)
    requires
        -DIR_LIMIT <= d <= DIR_LIMIT,
    ensures
        r == unit(d),
        1 <= r <= DIR_LIMIT,
{
    if d == 0 {
        1
    } else if d < 0 {
        -(d as i128)
    } else {
        d as i128
    }
}

proof fn lemma_unit_products(d: Point3)
    requires
        -DIR_LIMIT <= d.x <= DIR_LIMIT,
        -DIR_LIMIT <= d.y <= DIR_LIMIT,
        -DIR_LIMIT <= d.z <= DIR_LIMIT,
    ensures
        1 <= unit(d.x) * unit(d.y) <= DIR_LIMIT * DIR_LIMIT,
        1 <= unit(d.x) * unit(d.z) <= DIR_LIMIT * DIR_LIMIT,
        1 <= unit(d.y) * unit(d.z) <= DIR_LIMIT * DIR_LIMIT,
        1 <= ray_scale(d) <= DIR_LIMIT * DIR_LIMIT * DIR_LIMIT,
{
    let (a, b, c) = (unit(d.x), unit(d.y), unit(d.z));
    let l = DIR_LIMIT as int;
    assert(1 <= a * b <= l * l) by (nonlinear_arith)
        requires
            1 <= a <= l,
            1 <= b <= l,
    ;
    assert(1 <= a * c <= l * l) by (nonlinear_arith)
        requires
            1 <= a <= l,
            1 <= c <= l,
    ;
    assert(1 <= b * c <= l * l) by (nonlinear_arith)
        requires
            1 <= b <= l,
            1 <= c <= l,
    ;
    assert(1 <= a * b * c <= l * l * l) by (nonlinear_arith)
        requires
            1 <= a * b <= l * l,
            1 <= c <= l,
    ;
}

/// On one axis, step `n` lies in the slab exactly when the slab can be met at all,
/// `n` is not before its first step, and not after its last.
proof fn lemma_axis(o: int, d: int, lo: int, hi: int, k: int, n: int)
    requires
        k >= 1,
    ensures
        in_slab(o, d, lo, hi, n, k * (if d < 0 { -d } else if d == 0 { 1 } else { d })) <==> {
            &&& axis_ok(o, d, lo, hi)
            &&& axis_lo(o, d, lo, hi, k) <= n || d == 0
            &&& below(n, axis_hi(o, d, lo, hi, k))
        },
{
    let u = if d < 0 { -d } else if d == 0 { 1 } else { d };
    let s = k * u;
    if d > 0 {
        assert(lo * s <= o * s + n * d <==> (lo - o) * k <= n) by (nonlinear_arith)
            requires
                s == k * d,
                d > 0,
        ;
        assert(o * s + n * d <= hi * s <==> n <= (hi - o) * k) by (nonlinear_arith)
            requires
                s == k * d,
                d > 0,
        ;
    } else if d < 0 {
        assert(lo * s <= o * s + n * d <==> n <= (o - lo) * k) by (nonlinear_arith)
            requires
                s == k * (-d),
                d < 0,
        ;
        assert(o * s + n * d <= hi * s <==> (o - hi) * k <= n) by (nonlinear_arith)
            requires
                s == k * (-d),
                d < 0,
        ;
    } else {
        assert(lo * s <= o * s <==> lo <= o) by (nonlinear_arith)
            requires
                s == k,
                k >= 1,
        ;
        assert(o * s <= hi * s <==> o <= hi) by (nonlinear_arith)
            requires
                s == k,
                k >= 1,
        ;
    }
}

pub open spec fn opt_int(r: Option<i128>) -> Option<int> {
    match r {
        Some(v) => Some(v as int),
        None => None,
    }
}

/// The first and the last step of a slab, and whether it can be met at all.
fn axis_bounds(o: i64, d: i64, lo: i64, hi: i64, k: i128) -> (r: (bool, i128, Option<i128>))
    requires
        coord_ok(o),
        coord_ok(lo),
        coord_ok(hi),
        1 <= k <= DIR_LIMIT * DIR_LIMIT,
    ensures
        r.0 == axis_ok(o as int, d as int, lo as int, hi as int),
        r.1 == axis_lo(o as int, d as int, lo as int, hi as int, k as int),
        opt_int(r.2) == axis_hi(o as int, d as int, lo as int, hi as int, k as int),
        -4722366482869645213696 <= r.1 <= 4722366482869645213696,
        r.2 matches Some(h) ==> -4722366482869645213696 <= h <= 4722366482869645213696,
{
    let ghost lim = 4722366482869645213696int;
    let a = (lo as i128 - o as i128);
    let b = (hi as i128 - o as i128);
    assert(-lim <= a * k <= lim) by (nonlinear_arith)
        requires
            -2147483648 <= a <= 2147483648,
            1 <= k <= 1099511627776,
            lim == 2147483648 * 2199023255552,
    ;
    assert(-lim <= b * k <= lim) by (nonlinear_arith)
        requires
            -2147483648 <= b <= 2147483648,
            1 <= k <= 1099511627776,
            lim == 2147483648 * 2199023255552,
    ;
    assert((-a) * k == -(a * k)) by (nonlinear_arith);
    assert((-b) * k == -(b * k)) by (nonlinear_arith);
    if d > 0 {
        (true, a * k, Some(b * k))
    } else if d < 0 {
        (true, (-b) * k, Some((-a) * k))
    } else {
        (lo <= o && o <= hi, 0, None)
    }
}

impl AABB {
    /// The first step, not before the origin, at which `ray` is inside the box.
    pub fn entry_param(&self, ray: &Ray) -> (r: Option<i128>)
        requires
            ray.wf(),
            self.in_range(),
        ensures
            opt_int(r) == box_entry(*ray, *self),
    {
        let (o, d) = (ray.orig, ray.dir);
        let (ux, uy, uz) = (unit_of(d.x), unit_of(d.y), unit_of(d.z));
        proof {
            lemma_unit_products(d);
        }
        let (okx, lx, hx) = axis_bounds(o.x, d.x, self.min.x, self.max.x, uy * uz);
        let (oky, ly, hy) = axis_bounds(o.y, d.y, self.min.y, self.max.y, ux * uz);
        let (okz, lz, hz) = axis_bounds(o.z, d.z, self.min.z, self.max.z, ux * uy);
        let mut e: i128 = 0;
        if lx > e {
            e = lx;
        }
        if ly > e {
            e = ly;
        }
        if lz > e {
            e = lz;
        }
        let fits = |h: Option<i128>| -> (b: bool)
            ensures
                b == below(e as int, opt_int(h)),
            {
                match h {
                    Some(v) => e <= v,
                    None => true,
                }
            };
        if okx && oky && okz && fits(hx) && fits(hy) && fits(hz) {
            Some(e)
        } else {
            None
        }
    }

    /// Whether `ray` enters the box before step `tmax`.
    pub fn intersects(&self, ray: &Ray, tmax: i128) -> (r: bool)
        requires
            ray.wf(),
            self.in_range(),
        ensures
            r == (box_entry(*ray, *self) matches Some(e) && e < tmax),
    {
        match self.entry_param(ray) {
            Some(e) => e < tmax,
            None => false,
        }
    }
}

proof fn lemma_scale_axes(d: Point3)
    ensures
        (unit(d.y) * unit(d.z)) * unit(d.x) == ray_scale(d),
        (unit(d.x) * unit(d.z)) * unit(d.y) == ray_scale(d),
        (unit(d.x) * unit(d.y)) * unit(d.z) == ray_scale(d),
        unit(d.x) >= 1 && unit(d.y) >= 1 && unit(d.z) >= 1,
        unit(d.y) * unit(d.z) >= 1 && unit(d.x) * unit(d.z) >= 1 && unit(d.x) * unit(d.y) >= 1,
{
    let (a, b, c) = (unit(d.x), unit(d.y), unit(d.z));
    assert((b * c) * a == a * b * c && (a * c) * b == a * b * c && (a * b) * c == a * b * c)
        by (nonlinear_arith);
    assert(b * c >= 1 && a * c >= 1 && a * b >= 1) by (nonlinear_arith)
        requires
            a >= 1,
            b >= 1,
            c >= 1,
    ;
}

/// At the entry step the ray is inside the box, and no earlier step from the origin
/// on is.
pub proof fn lemma_box_entry(ray: Ray, b: AABB, n: int)
    ensures
        box_entry(ray, b) matches Some(e) ==> e >= 0 && in_box_at(ray, e, b),
        n >= 0 && in_box_at(ray, n, b) ==> (box_entry(ray, b) matches Some(e) && e <= n),
{
    let (o, d) = (ray.orig, ray.dir);
    lemma_scale_axes(d);
    let kx = unit(d.y) * unit(d.z);
    let ky = unit(d.x) * unit(d.z);
    let kz = unit(d.x) * unit(d.y);
    lemma_axis(o.x as int, d.x as int, b.min.x as int, b.max.x as int, kx, n);
    lemma_axis(o.y as int, d.y as int, b.min.y as int, b.max.y as int, ky, n);
    lemma_axis(o.z as int, d.z as int, b.min.z as int, b.max.z as int, kz, n);
    if let Some(e) = box_entry(ray, b) {
        lemma_axis(o.x as int, d.x as int, b.min.x as int, b.max.x as int, kx, e);
        lemma_axis(o.y as int, d.y as int, b.min.y as int, b.max.y as int, ky, e);
        lemma_axis(o.z as int, d.z as int, b.min.z as int, b.max.z as int, kz, e);
    }
}

/// A ray inside a box is inside every box that contains it.
pub proof fn lemma_in_box_mono(ray: Ray, n: int, inner: AABB, outer: AABB)
    requires
        outer.contains_box(inner),
        in_box_at(ray, n, inner),
    ensures
        in_box_at(ray, n, outer),
{
    let s = ray_scale(ray.dir);
    lemma_scale_axes(ray.dir);
    assert(s >= 1) by (nonlinear_arith)
        requires
            s == (unit(ray.dir.y) * unit(ray.dir.z)) * unit(ray.dir.x),
            unit(ray.dir.y) * unit(ray.dir.z) >= 1,
            unit(ray.dir.x) >= 1,
    ;
    lemma_mul_mono(outer.min.x as int, inner.min.x as int, s);
    lemma_mul_mono(outer.min.y as int, inner.min.y as int, s);
    lemma_mul_mono(outer.min.z as int, inner.min.z as int, s);
    lemma_mul_mono(inner.max.x as int, outer.max.x as int, s);
    lemma_mul_mono(inner.max.y as int, outer.max.y as int, s);
    lemma_mul_mono(inner.max.z as int, outer.max.z as int, s);
}

proof fn lemma_mul_mono(a: int, b: int, s: int)
    requires
        a <= b,
        s >= 1,
    ensures
        a * s <= b * s,
{
    assert(a * s <= b * s) by (nonlinear_arith)
        requires
            a <= b,
            s >= 1,
    ;
}

/// A primitive that a ray can hit.
pub trait Hittable {
    /// Its bounding box.
    spec fn bounds(&self) -> AABB;

    /// The first step at which `ray` hits it, if any.
    spec fn hit_param(&self, ray: Ray) -> Option<int>;

    fn aabb(&self) -> (r: AABB)
        ensures
            r == self.bounds(),
    ;

    fn intersect(&self, ray: &Ray) -> (r: Option<i128>)
        requires
            ray.wf(),
            self.bounds().valid(),
        ensures
            opt_int(r) == self.hit_param(*ray),
    ;

    /// A hit lies inside the bounding box, from the origin on.
    proof fn lemma_hit_in_bounds(&self, ray: Ray)
        requires
            ray.wf(),
            self.bounds().valid(),
        ensures
            self.hit_param(ray) matches Some(n) ==> n >= 0 && in_box_at(ray, n, self.bounds()),
    ;
}

/// A solid box is a primitive of its own.
impl Hittable for AABB {
    open spec fn bounds(&self) -> AABB {
        *self
    }

    open spec fn hit_param(&self, ray: Ray) -> Option<int> {
        box_entry(ray, *self)
    }

    fn aabb(&self) -> (r: AABB) {
        *self
    }

    fn intersect(&self, ray: &Ray) -> (r: Option<i128>) {
        self.entry_param(ray)
    }

    proof fn lemma_hit_in_bounds(&self, ray: Ray) {
        lemma_box_entry(ray, *self, 0);
    }
}

} // verus!
