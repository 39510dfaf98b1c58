//! The bounding box of a mesh.

use vstd::prelude::*;

verus! {

/// A point in space, by the keys of its three coordinates.
#[derive(Clone, Copy, PartialEq, Eq, Debug)]
pub struct Point {
    pub x: i64,
    pub y: i64,
    pub z: i64,
}

/// An axis-aligned box, by its corner of least and its corner of greatest
/// coordinates.
#[derive(Clone, Copy, PartialEq, Eq, Debug)]
pub struct Bounds {
    pub low: Point,
    pub high: Point,
}

impl Point {
    /// The coordinate along an axis: 0 for x, 1 for y, any other for z.
    pub open spec fn along(self, axis: int) -> int {
        if axis == 0 {
            self.x as int
        } else if axis == 1 {
            self.y as int
        } else {
            self.z as int
        }
    }
}

impl Bounds {
    /// The point lies in the box, faces included.
    pub open spec fn holds(self, p: Point) -> bool {
        &&& self.low.x <= p.x <= self.high.x
        &&& self.low.y <= p.y <= self.high.y
        &&& self.low.z <= p.z <= self.high.z
    }

    /// Each of the two faces of the box across an axis passes through one
    /// of the points.
    pub open spec fn touched_along(self, points: Seq<Point>, axis: int) -> bool {
        &&& exists|i: int|
            0 <= i < points.len() && (#[trigger] points[i]).along(axis) == self.low.along(axis)
        &&& exists|i: int|
            0 <= i < points.len() && (#[trigger] points[i]).along(axis) == self.high.along(axis)
    }

    /// Each of the six faces of the box passes through one of the points.
    pub open spec fn touched_by(self, points: Seq<Point>) -> bool {
        self.touched_along(points, 0) && self.touched_along(points, 1) && self.touched_along(
            points,
            2,
        )
    }

    /// The box is the bounding box of the points: every point lies in it and
    /// each of its faces passes through a point, so that no smaller box
    /// holds them all. Of no point it is the box that holds the origin
    /// alone.
    pub open spec fn bounds(self, points: Seq<Point>) -> bool {
        if points.len() == 0 {
            self == (Bounds { low: Point { x: 0, y: 0, z: 0 }, high: Point { x: 0, y: 0, z: 0 } })
        } else {
            &&& forall|i: int| 0 <= i < points.len() ==> self.holds(#[trigger] points[i])
            &&& self.touched_by(points)
        }
    }
}

/// The smaller of two keys.
fn lesser(a: i64, b: i64) -> (least: i64)
    ensures
        least <= a,
        least <= b,
        least == a || least == b,
{
    if a < b {
        a
    } else {
        b
    }
}

/// The greater of two keys.
fn greater(a: i64, b: i64) -> (most: i64)
    ensures
        most >= a,
        most >= b,
        most == a || most == b,
{
    if a > b {
        a
    } else {
        b
    }
}

/// Finds the bounding box of a mesh from the vertices of its triangles.
pub fn bounding_box(vertices: &Vec<Point>) -> (bounds: Bounds)
    ensures
        bounds.bounds(vertices@),
{
    if vertices.len() == 0 {
        let origin = Point { x: 0, y: 0, z: 0 };
        return Bounds { low: origin, high: origin };
    }
    let first = vertices[0];
    let mut bounds = Bounds { low: first, high: first };
    let mut done: usize = 1;
    proof {
        let seen = vertices@.take(1);
        assert(seen[0] == first);
        assert(bounds.touched_along(seen, 0));
        assert(bounds.touched_along(seen, 1));
        assert(bounds.touched_along(seen, 2));
    }
    while done < vertices.len()
        invariant
            1 <= done <= vertices@.len(),
            bounds.bounds(vertices@.take(done as int)),
        decreases vertices@.len() - done,
    {
        let vertex = vertices[done];
        let ghost before = bounds;
        let ghost seen = vertices@.take(done as int);
        let ghost next = vertices@.take(done + 1);
        bounds = Bounds {
            low: Point {
                x: lesser(vertex.x, bounds.low.x),
                y: lesser(vertex.y, bounds.low.y),
                z: lesser(vertex.z, bounds.low.z),
            },
            high: Point {
                x: greater(vertex.x, bounds.high.x),
                y: greater(vertex.y, bounds.high.y),
                z: greater(vertex.z, bounds.high.z),
            },
        };
        proof {
            assert(next =~= seen.push(vertex));
            assert forall|i: int| 0 <= i < next.len() implies bounds.holds(#[trigger] next[i]) by {
                if i < done {
                    assert(next[i] == seen[i]);
                    assert(before.holds(seen[i]));
                }
            }
            lemma_touched_after_growth(before, bounds, seen, vertex, 0);
            lemma_touched_after_growth(before, bounds, seen, vertex, 1);
            lemma_touched_after_growth(before, bounds, seen, vertex, 2);
        }
        done = done + 1;
    }
    proof {
        assert(vertices@.take(done as int) =~= vertices@);
    }
    bounds
}

/// Along one axis: a box whose two faces passed through points seen so far,
/// and whose faces stayed or moved to one more point, has its faces pass
/// through the points with that one added.
proof fn lemma_touched_after_growth(
    before: Bounds,
    after: Bounds,
    seen: Seq<Point>,
    vertex: Point,
    axis: int,
)
    requires
        before.touched_along(seen, axis),
        after.low.along(axis) == before.low.along(axis) || after.low.along(axis) == vertex.along(
            axis,
        ),
        after.high.along(axis) == before.high.along(axis) || after.high.along(axis)
            == vertex.along(axis),
    ensures
        after.touched_along(seen.push(vertex), axis),
{
    let next = seen.push(vertex);
    let last = seen.len() as int;
    assert(next[last] == vertex);
    if after.low.along(axis) != vertex.along(axis) {
        let i = choose|i: int|
            0 <= i < seen.len() && (#[trigger] seen[i]).along(axis) == before.low.along(axis);
        assert(next[i] == seen[i]);
    }
    if after.high.along(axis) != vertex.along(axis) {
        let i = choose|i: int|
            0 <= i < seen.len() && (#[trigger] seen[i]).along(axis) == before.high.along(axis);
        assert(next[i] == seen[i]);
    }
}

/// The bounding box of a list of points is the only one: two boxes that
/// bound the same points are the same box.
pub proof fn lemma_bounding_box_is_unique(a: Bounds, b: Bounds, points: Seq<Point>)
    requires
        a.bounds(points),
        b.bounds(points),
    ensures
        a == b,
{
    if points.len() > 0 {
        lemma_same_faces(a, b, points, 0);
        lemma_same_faces(a, b, points, 1);
        lemma_same_faces(a, b, points, 2);
    }
}

/// Along one axis, two boxes that bound the same points have the same
/// faces.
proof fn lemma_same_faces(a: Bounds, b: Bounds, points: Seq<Point>, axis: int)
    requires
        points.len() > 0,
        a.bounds(points),
        b.bounds(points),
        0 <= axis <= 2,
    ensures
        a.low.along(axis) == b.low.along(axis),
        a.high.along(axis) == b.high.along(axis),
{
    let al = choose|i: int|
        0 <= i < points.len() && (#[trigger] points[i]).along(axis) == a.low.along(axis);
    let bl = choose|i: int|
        0 <= i < points.len() && (#[trigger] points[i]).along(axis) == b.low.along(axis);
    let ah = choose|i: int|
        0 <= i < points.len() && (#[trigger] points[i]).along(axis) == a.high.along(axis);
    let bh = choose|i: int|
        0 <= i < points.len() && (#[trigger] points[i]).along(axis) == b.high.along(axis);
    assert(a.holds(points[bl]) && a.holds(points[bh]));
    assert(b.holds(points[al]) && b.holds(points[ah]));
}

} // verus!
