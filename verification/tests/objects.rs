use pathtracer::objects::{
    closest_triangle, intersect_aabb, plane_intersects, sphere_intersects, triangle_intersects, Crossing, Root,
    Slab, ONE,
};
use pathtracer::order::{closest_hit, order_key, ClipRange};

fn k(t: f64) -> i64 {
    order_key(t.to_bits())
}

fn clip(near: f64, far: f64) -> ClipRange {
    ClipRange { near: k(near), far: k(far) }
}

#[test]
fn one_is_the_key_of_one() {
    assert_eq!(ONE, k(1.0));
}

#[test]
fn near_root_is_preferred() {
    assert_eq!(sphere_intersects(k(4.0), k(4.0), k(6.0), clip(0.5, f64::INFINITY)), Some(Root::Near));
    assert_eq!(sphere_intersects(k(0.0), k(0.5), k(0.5), clip(0.5, 6.0)), Some(Root::Near));
    assert_eq!(sphere_intersects(k(4.0), k(6.0), k(6.0), clip(0.5, 6.0)), Some(Root::Near));
}

#[test]
fn far_root_is_tried_when_the_near_one_is_out_of_range() {
    assert_eq!(sphere_intersects(k(4.0), k(-1.0), k(1.0), clip(0.5, f64::INFINITY)), Some(Root::Far));
    assert_eq!(sphere_intersects(k(1.0), k(0.25), k(3.0), clip(0.5, 3.0)), Some(Root::Far));
}

#[test]
fn no_root_outside_the_range() {
    assert_eq!(sphere_intersects(k(4.0), k(-6.0), k(-4.0), clip(0.5, f64::INFINITY)), None);
    assert_eq!(sphere_intersects(k(4.0), k(4.0), k(6.0), clip(0.5, 3.0)), None);
    assert_eq!(sphere_intersects(k(4.0), k(0.1), k(7.0), clip(0.5, 3.0)), None);
}

#[test]
fn negative_discriminant_is_a_miss() {
    assert_eq!(sphere_intersects(k(-1.0e-12), k(4.0), k(6.0), clip(0.5, f64::INFINITY)), None);
    assert_eq!(sphere_intersects(k(-3.0), k(f64::NAN), k(f64::NAN), clip(0.5, f64::INFINITY)), None);
    assert_eq!(sphere_intersects(k(0.0), k(f64::NAN), k(f64::NAN), clip(0.5, f64::INFINITY)), None);
}

// The unit sphere at the origin seen from (0, 0, -5) along +z: the quadratic
// t^2 - 10 t + 24 has discriminant 4 and the roots 4 and 6.
#[test]
fn ray_at_the_centre_of_a_sphere_hits_its_front() {
    let (a, b, c) = (1.0f64, -10.0f64, 24.0f64);
    let discriminant = b * b - 4.0 * a * c;
    let near = (-b - discriminant.sqrt()) / (2.0 * a);
    let far = (-b + discriminant.sqrt()) / (2.0 * a);
    assert_eq!(near, 4.0);
    assert_eq!(far, 6.0);
    let hit = sphere_intersects(k(discriminant), k(near), k(far), clip(0.5, f64::INFINITY));
    assert_eq!(hit, Some(Root::Near));
    // From inside the sphere only the far root is ahead.
    let (b, c) = (0.0f64, -1.0f64);
    let discriminant = b * b - 4.0 * a * c;
    let near = (-b - discriminant.sqrt()) / (2.0 * a);
    let far = (-b + discriminant.sqrt()) / (2.0 * a);
    let hit = sphere_intersects(k(discriminant), k(near), k(far), clip(1.0e-4, f64::INFINITY));
    assert_eq!(hit, Some(Root::Far));
}

#[test]
fn plane_is_hit_from_the_front_only() {
    let eps = k(1.0e-6);
    let range = clip(0.5, f64::INFINITY);
    assert!(plane_intersects(k(1.0), k(3.0), eps, range));
    assert!(plane_intersects(k(2.0e-6), k(3.0), eps, range));
    assert!(!plane_intersects(k(1.0e-6), k(3.0), eps, range));
    assert!(!plane_intersects(k(0.0), k(3.0), eps, range));
    assert!(!plane_intersects(k(-1.0), k(3.0), eps, range));
    assert!(!plane_intersects(k(1.0), k(0.25), eps, range));
    assert!(!plane_intersects(k(1.0), k(-3.0), eps, range));
    assert!(!plane_intersects(k(1.0), k(7.0), eps, clip(0.5, 6.0)));
}

fn crossing(det: f64, u: f64, v: f64, t: f64) -> Crossing {
    Crossing { det: k(det), u: k(u), v: k(v), u_plus_v: k(u + v), t: k(t) }
}

#[test]
fn triangle_is_hit_inside() {
    let eps = k(1.0e-6);
    let range = clip(0.5, f64::INFINITY);
    assert!(triangle_intersects(crossing(1.0, 0.25, 0.25, 3.0), eps, range));
    assert!(triangle_intersects(crossing(-1.0, 0.25, 0.25, 3.0), eps, range));
    assert!(triangle_intersects(crossing(1.0, 0.0, 0.0, 3.0), eps, range));
    assert!(triangle_intersects(crossing(1.0, 1.0, 0.0, 3.0), eps, range));
    assert!(triangle_intersects(crossing(1.0, 0.0, 1.0, 3.0), eps, range));
    assert!(triangle_intersects(crossing(1.0, 0.5, 0.5, 3.0), eps, range));
    assert!(triangle_intersects(crossing(1.0e-6, 0.5, 0.5, 0.5), eps, range));
    assert!(triangle_intersects(crossing(-1.0e-6, 0.5, 0.5, 0.5), eps, range));
}

#[test]
fn triangle_is_missed_outside() {
    let eps = k(1.0e-6);
    let range = clip(0.5, f64::INFINITY);
    assert!(!triangle_intersects(crossing(0.0, 0.25, 0.25, 3.0), eps, range));
    assert!(!triangle_intersects(crossing(9.0e-7, 0.25, 0.25, 3.0), eps, range));
    assert!(!triangle_intersects(crossing(-9.0e-7, 0.25, 0.25, 3.0), eps, range));
    assert!(!triangle_intersects(crossing(1.0, -0.01, 0.25, 3.0), eps, range));
    assert!(!triangle_intersects(crossing(1.0, 1.01, 0.0, 3.0), eps, range));
    assert!(!triangle_intersects(crossing(1.0, 0.25, -0.01, 3.0), eps, range));
    assert!(!triangle_intersects(
        Crossing { det: k(1.0), u: k(0.0), v: k(1.5), u_plus_v: k(0.5), t: k(3.0) },
        eps,
        range
    ));
    assert!(!triangle_intersects(crossing(1.0, 0.75, 0.5, 3.0), eps, range));
    assert!(!triangle_intersects(crossing(1.0, 0.25, 0.25, 0.25), eps, range));
    assert!(!triangle_intersects(crossing(1.0, 0.25, 0.25, -3.0), eps, range));
    assert!(!triangle_intersects(crossing(1.0, 0.25, 0.25, 7.0), eps, clip(0.5, 6.0)));
    assert!(!triangle_intersects(crossing(1.0, f64::NAN, 0.25, 3.0), eps, range));
    assert!(!triangle_intersects(crossing(1.0, 0.25, 0.25, f64::NAN), eps, range));
}

#[test]
fn triangle_tolerance_may_be_any_key() {
    let range = clip(0.5, f64::INFINITY);
    let c = crossing(1.0, 0.25, 0.25, 3.0);
    assert!(triangle_intersects(c, i64::MIN, range));
    assert!(triangle_intersects(c, 0, range));
    assert!(!triangle_intersects(c, i64::MAX, range));
}

fn slab(a: f64, b: f64) -> Slab {
    Slab { first: k(a), second: k(b) }
}

#[test]
fn a_ray_through_the_box_meets_all_slabs() {
    assert!(intersect_aabb(slab(1.0, 3.0), slab(2.0, 4.0), slab(0.0, 2.5)));
    assert!(intersect_aabb(slab(3.0, 1.0), slab(4.0, 2.0), slab(2.5, 0.0)));
    assert!(intersect_aabb(slab(1.0, 2.0), slab(2.0, 3.0), slab(2.0, 2.0)));
    assert!(intersect_aabb(
        slab(f64::NEG_INFINITY, f64::INFINITY),
        slab(-1.0, 1.0),
        slab(f64::INFINITY, f64::NEG_INFINITY),
    ));
}

#[test]
fn a_ray_past_the_box_misses_a_slab() {
    assert!(!intersect_aabb(slab(1.0, 2.0), slab(3.0, 4.0), slab(0.0, 10.0)));
    assert!(!intersect_aabb(slab(3.0, 4.0), slab(1.0, 2.0), slab(0.0, 10.0)));
    assert!(!intersect_aabb(slab(1.0, 3.0), slab(2.0, 4.0), slab(3.5, 5.0)));
    assert!(!intersect_aabb(slab(1.0, 3.0), slab(2.0, 4.0), slab(0.0, 1.5)));
    assert!(!intersect_aabb(slab(1.0, 5.0), slab(1.0, 2.0), slab(3.0, 5.0)));
}

// The box from (-1, -1, -1) to (1, 1, 1) and a ray from (0, 0, -5): the
// crossings are (bound - origin) / direction on each axis.
#[test]
fn slab_test_on_a_unit_box() {
    let origin = [0.0f64, 0.0, -5.0];
    let crossings = |d: [f64; 3]| {
        let s = |i: usize| slab((-1.0 - origin[i]) / d[i], (1.0 - origin[i]) / d[i]);
        (s(0), s(1), s(2))
    };
    let (x, y, z) = crossings([0.0, 0.0, 1.0]);
    assert!(intersect_aabb(x, y, z));
    let (x, y, z) = crossings([0.1, -0.1, 1.0]);
    assert!(intersect_aabb(x, y, z));
    let (x, y, z) = crossings([0.5, 0.0, 1.0]);
    assert!(!intersect_aabb(x, y, z));
    let (x, y, z) = crossings([0.0, 1.0, 0.0]);
    assert!(!intersect_aabb(x, y, z));
}

#[test]
fn closest_triangle_is_the_least_key() {
    let hits = vec![Some(k(6.0)), None, Some(k(4.0)), Some(k(9.0))];
    assert_eq!(closest_triangle(&hits), Some(2));
    assert_eq!(closest_triangle(&vec![]), None);
    assert_eq!(closest_triangle(&vec![None, None, None]), None);
    assert_eq!(closest_triangle(&vec![Some(i64::MIN)]), Some(0));
}

#[test]
fn ties_go_to_the_last_triangle() {
    let hits = vec![None, Some(k(2.0)), Some(k(5.0)), Some(k(2.0)), None];
    assert_eq!(closest_triangle(&hits), Some(3));
    assert_eq!(closest_hit(&hits), Some(1));
}

#[test]
fn occluding_sphere_is_reported() {
    // Camera at z = -10 looking along +z; sphere A of radius 1 at z = -5,
    // sphere B of radius 1 at the origin. The centre ray meets A at 4 and 6
    // and B at 9 and 11.
    let range = clip(0.5, f64::INFINITY);
    let param = |root: Option<Root>, near: f64, far: f64| {
        root.map(|r| match r {
            Root::Near => k(near),
            Root::Far => k(far),
        })
    };
    let a = param(sphere_intersects(k(4.0), k(4.0), k(6.0), range), 4.0, 6.0);
    let b = param(sphere_intersects(k(4.0), k(9.0), k(11.0), range), 9.0, 11.0);
    assert_eq!(a, Some(k(4.0)));
    assert_eq!(b, Some(k(9.0)));
    assert_eq!(closest_hit(&vec![a, b]), Some(0));
    assert_eq!(closest_hit(&vec![b, a]), Some(1));
}

type V3 = [f64; 3];

fn sub(a: V3, b: V3) -> V3 {
    [a[0] - b[0], a[1] - b[1], a[2] - b[2]]
}

fn dot(a: V3, b: V3) -> f64 {
    a[0] * b[0] + a[1] * b[1] + a[2] * b[2]
}

fn cross(a: V3, b: V3) -> V3 {
    [a[1] * b[2] - a[2] * b[1], a[2] * b[0] - a[0] * b[2], a[0] * b[1] - a[1] * b[0]]
}

// Solves the triangle's equation for a ray after Möller and Trumbore.
fn solve(v0: V3, v1: V3, v2: V3, origin: V3, direction: V3) -> (f64, f64, f64, f64) {
    let v0v1 = sub(v1, v0);
    let v0v2 = sub(v2, v0);
    let p = cross(direction, v0v2);
    let det = dot(v0v1, p);
    let inv_det = 1.0 / det;
    let s = sub(origin, v0);
    let u = dot(s, p) * inv_det;
    let q = cross(s, v0v1);
    let v = dot(direction, q) * inv_det;
    let t = dot(v0v2, q) * inv_det;
    (det, u, v, t)
}

#[test]
fn hits_of_a_triangle_have_barycentric_coordinates_of_its_points() {
    let (v0, v1, v2) = ([0.0, 0.0, 0.0], [2.0, 0.0, 0.0], [0.0, 2.0, 0.0]);
    let eps = k(1.0e-6);
    let range = clip(0.5, f64::INFINITY);
    let mut hits = 0;
    for i in -4..12 {
        for j in -4..12 {
            let origin = [i as f64 * 0.25, j as f64 * 0.25, -3.0];
            let (det, u, v, t) = solve(v0, v1, v2, origin, [0.0, 0.0, 1.0]);
            let hit = triangle_intersects(crossing(det, u, v, t), eps, range);
            let inside = origin[0] >= 0.0 && origin[1] >= 0.0 && origin[0] + origin[1] <= 2.0;
            assert_eq!(hit, inside, "{:?}", origin);
            if hit {
                hits += 1;
                assert!(u >= 0.0 && v >= 0.0 && u + v <= 1.0);
                assert_eq!(t, 3.0);
                // The point that the coordinates name is the point of the ray.
                let x = v0[0] + u * (v1[0] - v0[0]) + v * (v2[0] - v0[0]);
                let y = v0[1] + u * (v1[1] - v0[1]) + v * (v2[1] - v0[1]);
                assert!((x - origin[0]).abs() < 1.0e-12 && (y - origin[1]).abs() < 1.0e-12);
            }
        }
    }
    assert_eq!(hits, 45);
}

#[test]
fn a_ray_along_a_triangle_misses_it() {
    let (det, u, v, t) = solve([0.0, 0.0, 0.0], [1.0, 0.0, 0.0], [0.0, 1.0, 0.0], [0.2, 0.2, 0.0], [1.0, 0.0, 0.0]);
    assert_eq!(det, 0.0);
    assert!(!triangle_intersects(crossing(det, u, v, t), k(1.0e-6), clip(0.0, f64::INFINITY)));
}
