//! When a ray hits a sphere, a plane, a triangle or a mesh.
//!
//! The caller solves each shape's equation for the ray in its own
//! arithmetic and hands over the keys of what it found (see
//! [`crate::order`]). Whether that makes a hit, and at which root, is
//! decided here.

use vstd::prelude::*;
use crate::order::{
    is_nearest, is_number, key_of, lemma_keys_compare_as_values, lemma_values_of_zero_and_one, unit,
    value_of, ClipRange, ONE_BITS,
};

verus! {

/// The key of the double 1.
pub const ONE: i64 = 0x3FF0_0000_0000_0000;

/// The range between two parameters, given as doubles.
pub open spec fn range_between(t_min: u64, t_max: u64) -> ClipRange {
    ClipRange { near: key_of(t_min) as i64, far: key_of(t_max) as i64 }
}

/// One of the two parameters at which a ray's line meets a sphere.
#[derive(Clone, Copy, PartialEq, Eq, Debug)]
pub enum Root {
    /// The root that the quadratic formula gives with the minus sign.
    Near,
    /// The root that it gives with the plus sign.
    Far,
}

impl Root {
    /// The key of this root, given the keys of both.
    pub open spec fn pick(self, near: int, far: int) -> int {
        match self {
            Root::Near => near,
            Root::Far => far,
        }
    }
}

/// The root at which a ray hits a sphere. With a negative discriminant
/// there is none. Else it is the near root if that lies in the range, else
/// the far root if that one does, else none.
pub open spec fn sphere_hit(discriminant: int, near: int, far: int, range: ClipRange) -> Option<
    Root,
> {
    if discriminant < 0 {
        None
    } else if range.holds(near) {
        Some(Root::Near)
    } else if range.holds(far) {
        Some(Root::Far)
    } else {
        None
    }
}

/// Decides at which root a ray hits a sphere, from the keys of the
/// discriminant and of the two roots of the quadratic equation.
pub fn sphere_intersects(discriminant: i64, near: i64, far: i64, range: ClipRange) -> (hit: Option<
    Root,
>)
    ensures
        hit == sphere_hit(discriminant as int, near as int, far as int, range),
{
    if discriminant < 0 {
        return None;
    }
    if range.contains(near) {
        Some(Root::Near)
    } else if range.contains(far) {
        Some(Root::Far)
    } else {
        None
    }
}

/// With a discriminant that is not negative, the near root is the hit
/// whenever it lies in the range.
pub proof fn lemma_near_root_preferred(discriminant: int, near: int, far: int, range: ClipRange)
    requires
        discriminant >= 0,
        range.holds(near),
    ensures
        sphere_hit(discriminant, near, far, range) == Some(Root::Near),
{
}

/// For a quadratic whose discriminant is a number and not negative, a
/// sphere is hit at the smaller root whenever the value of that root lies
/// between the values of the bounds of the range.
pub proof fn lemma_smaller_root_is_returned(
    discriminant: u64,
    near: u64,
    far: u64,
    t_min: u64,
    t_max: u64,
)
    requires
        is_number(discriminant),
        is_number(near),
        is_number(t_min),
        is_number(t_max),
        value_of(discriminant) >= 0,
        value_of(t_min) <= value_of(near) <= value_of(t_max),
    ensures
        sphere_hit(key_of(discriminant), key_of(near), key_of(far), range_between(t_min, t_max))
            == Some(Root::Near),
{
    lemma_values_of_zero_and_one();
    lemma_keys_compare_as_values(discriminant, 0);
    lemma_keys_compare_as_values(near, t_min);
    lemma_keys_compare_as_values(t_max, near);
}

/// Where the near root is not beyond the far one, the root of a hit is the
/// nearest root in the range, and with a discriminant that is not negative
/// there is no hit only if neither root lies in the range.
pub proof fn lemma_sphere_hit_is_nearest(discriminant: int, near: int, far: int, range: ClipRange)
    requires
        near <= far,
    ensures
        match sphere_hit(discriminant, near, far, range) {
            Some(root) => {
                &&& discriminant >= 0
                &&& range.holds(root.pick(near, far))
                &&& range.holds(near) ==> root.pick(near, far) <= near
                &&& range.holds(far) ==> root.pick(near, far) <= far
            },
            None => discriminant < 0 || (!range.holds(near) && !range.holds(far)),
        },
{
}

/// A ray hits a plane from the front: the denominator of the plane equation
/// is above `epsilon`, and the parameter `t` that solves it lies in the
/// range.
pub open spec fn plane_hit(denominator: int, t: int, epsilon: int, range: ClipRange) -> bool {
    denominator > epsilon && range.holds(t)
}

/// Decides whether a ray hits a plane, from the keys of the denominator of
/// the plane equation, of its solution and of the tolerance.
pub fn plane_intersects(denominator: i64, t: i64, epsilon: i64, range: ClipRange) -> (hit: bool)
    ensures
        hit == plane_hit(denominator as int, t as int, epsilon as int, range),
{
    if denominator <= epsilon {
        return false;
    }
    range.contains(t)
}

/// What solving a triangle's equation for a ray gives, as keys: the
/// determinant, the two barycentric coordinates `u` and `v` of the point
/// where the ray meets the triangle's plane, their sum, and the ray
/// parameter `t` of that point.
#[derive(Clone, Copy, PartialEq, Eq, Debug)]
pub struct Crossing {
    pub det: i64,
    pub u: i64,
    pub v: i64,
    pub u_plus_v: i64,
    pub t: i64,
}

impl Crossing {
    /// The determinant is at least `epsilon` away from zero: the ray is not
    /// parallel to the triangle's plane.
    pub open spec fn transversal(self, epsilon: int) -> bool {
        !(-epsilon < self.det < epsilon)
    }

    /// The point lies in the triangle: neither coordinate is negative or
    /// above 1, and their sum is not above 1.
    pub open spec fn inside(self) -> bool {
        0 <= self.u <= ONE && 0 <= self.v <= ONE && self.u_plus_v <= ONE
    }
}

/// A ray hits a triangle: it is not parallel to the triangle's plane, the
/// point where it meets the plane lies in the triangle, and the parameter of
/// that point lies in the range.
pub open spec fn triangle_hit(crossing: Crossing, epsilon: int, range: ClipRange) -> bool {
    crossing.transversal(epsilon) && crossing.inside() && range.holds(crossing.t as int)
}

/// Decides whether a ray hits a triangle.
pub fn triangle_intersects(crossing: Crossing, epsilon: i64, range: ClipRange) -> (hit: bool)
    ensures
        hit == triangle_hit(crossing, epsilon as int, range),
{
    if (crossing.det as i128) > -(epsilon as i128) && crossing.det < epsilon {
        return false;
    }
    if crossing.u < 0 || crossing.u > ONE {
        return false;
    }
    if crossing.v < 0 || crossing.v > ONE || crossing.u_plus_v > ONE {
        return false;
    }
    range.contains(crossing.t)
}

/// The barycentric coordinates of a hit are those of a point of the
/// triangle: `u` and `v` are numbers with values from 0 to 1, and their sum
/// as the caller computed it, where it is a number, has a value of at most
/// 1.
pub proof fn lemma_hit_lies_in_triangle(
    det: i64,
    u: u64,
    v: u64,
    u_plus_v: u64,
    t: i64,
    epsilon: int,
    range: ClipRange,
)
    requires
        triangle_hit(
            Crossing {
                det,
                u: key_of(u) as i64,
                v: key_of(v) as i64,
                u_plus_v: key_of(u_plus_v) as i64,
                t,
            },
            epsilon,
            range,
        ),
    ensures
        is_number(u),
        is_number(v),
        0 <= value_of(u) <= unit(),
        0 <= value_of(v) <= unit(),
        is_number(u_plus_v) ==> value_of(u_plus_v) <= unit(),
{
    lemma_values_of_zero_and_one();
    lemma_keys_compare_as_values(u, 0);
    lemma_keys_compare_as_values(u, ONE_BITS);
    lemma_keys_compare_as_values(ONE_BITS, u);
    lemma_keys_compare_as_values(v, 0);
    lemma_keys_compare_as_values(v, ONE_BITS);
    lemma_keys_compare_as_values(ONE_BITS, v);
    if is_number(u_plus_v) {
        lemma_keys_compare_as_values(u_plus_v, ONE_BITS);
        lemma_keys_compare_as_values(ONE_BITS, u_plus_v);
    }
}

/// The keys of the two parameters at which a ray crosses the two planes that
/// bound a box along one axis, in either order.
#[derive(Clone, Copy, PartialEq, Eq, Debug)]
pub struct Slab {
    pub first: i64,
    pub second: i64,
}

impl Slab {
    /// Where the ray enters the slab.
    pub open spec fn enter(self) -> int {
        if self.first <= self.second {
            self.first as int
        } else {
            self.second as int
        }
    }

    /// Where the ray leaves the slab.
    pub open spec fn leave(self) -> int {
        if self.first <= self.second {
            self.second as int
        } else {
            self.first as int
        }
    }

    /// The ray is inside the slab at `t`.
    pub open spec fn holds(self, t: int) -> bool {
        self.enter() <= t <= self.leave()
    }
}

/// There is a parameter at which the ray is inside all three slabs, that is,
/// inside the box.
pub open spec fn slabs_meet(x: Slab, y: Slab, z: Slab) -> bool {
    exists|t: int| x.holds(t) && y.holds(t) && #[trigger] z.holds(t)
}

/// The three slabs have a common parameter just when the ray has entered
/// all of them before it leaves any of them.
pub proof fn lemma_slabs_meet_between(x: Slab, y: Slab, z: Slab)
    ensures
        slabs_meet(x, y, z) <==> {
            &&& x.enter() <= y.leave()
            &&& x.enter() <= z.leave()
            &&& y.enter() <= x.leave()
            &&& y.enter() <= z.leave()
            &&& z.enter() <= x.leave()
            &&& z.enter() <= y.leave()
        },
{
    if x.enter() <= y.leave() && x.enter() <= z.leave() && y.enter() <= x.leave() && y.enter()
        <= z.leave() && z.enter() <= x.leave() && z.enter() <= y.leave() {
        let t = if x.enter() >= y.enter() && x.enter() >= z.enter() {
            x.enter()
        } else if y.enter() >= z.enter() {
            y.enter()
        } else {
            z.enter()
        };
        assert(x.holds(t) && y.holds(t) && z.holds(t));
    }
}

/// Tells whether a ray's line passes through an axis-aligned box, from its
/// crossings with the three pairs of planes that bound the box.
pub fn intersect_aabb(x: Slab, y: Slab, z: Slab) -> (hit: bool)
    ensures
        hit == slabs_meet(x, y, z),
{
    let mut tmin = x.first;
    let mut tmax = x.second;
    if tmin > tmax {
        tmin = x.second;
        tmax = x.first;
    }
    let mut tymin = y.first;
    let mut tymax = y.second;
    if tymin > tymax {
        tymin = y.second;
        tymax = y.first;
    }
    if tmin > tymax || tymin > tmax {
        return false;
    }
    if tymin > tmin {
        tmin = tymin;
    }
    if tymax < tmax {
        tmax = tymax;
    }
    let mut tzmin = z.first;
    let mut tzmax = z.second;
    if tzmin > tzmax {
        tzmin = z.second;
        tzmax = z.first;
    }
    if tmin > tzmax || tzmin > tmax {
        return false;
    }
    proof {
        let t = if tzmin > tmin {
            tzmin as int
        } else {
            tmin as int
        };
        assert(x.holds(t) && y.holds(t) && z.holds(t));
    }
    true
}

/// The index of the nearest hit among a mesh's triangles, given for each
/// triangle the key of the parameter at which the ray hits it, if it does.
/// Of several nearest hits the last one wins. There is none only if no
/// triangle is hit.
pub fn closest_triangle(hits: &Vec<Option<i64>>) -> (closest: Option<usize>)
    ensures
        match closest {
            Some(i) => is_nearest(hits@, i as int) && forall|j: int|
                i < j < hits@.len() ==> hits@[j] is Some ==> hits@[j]->0 > hits@[i as int]->0,
            None => forall|j: int| 0 <= j < hits@.len() ==> hits@[j] is None,
        },
{
    let mut closest: Option<usize> = None;
    let mut nearest: i64 = 0;
    let mut index: usize = 0;
    while index < hits.len()
        invariant
            index <= hits@.len(),
            match closest {
                Some(i) => {
                    &&& i < index
                    &&& hits@[i as int] == Some(nearest)
                    &&& forall|j: int|
                        0 <= j < index && hits@[j] is Some ==> nearest <= hits@[j]->0
                    &&& forall|j: int|
                        i < j < index ==> hits@[j] is Some ==> hits@[j]->0 > nearest
                },
                None => forall|j: int| 0 <= j < index ==> hits@[j] is None,
            },
        decreases hits@.len() - index,
    {
        match hits[index] {
            Some(t) => {
                if closest.is_none() || t <= nearest {
                    closest = Some(index);
                    nearest = t;
                }
            },
            None => {},
        }
        index = index + 1;
    }
    closest
}

} // verus!
