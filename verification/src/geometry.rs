//! Geometry: points, polygons, and the even-odd ray-casting classifier.
//!
//! A polygon's vertex list is a closed ring: the edge from the last vertex
//! back to the first is always synthesized, whether or not the two are equal.

use vstd::prelude::*;
use crate::divmod::div_trunc;
use crate::divmod::trunc_div;
use crate::framebuffer::Color;

verus! {

/// An integer point in pixel space.
#[derive(Clone, Copy, PartialEq, Eq, Structural, Debug)]
pub struct Point {
    pub x: i32,
    pub y: i32,
}

/// A closed ring of vertices with its fill color, border color, and a flag
/// marking it as a hole (its interior is subtracted from every fill region)
/// rather than a fill region.
pub struct Polygon {
    pub points: Vec<Point>,
    pub fill_color: Color,
    pub border_color: Color,
    pub is_hole: bool,
}

/// The index of the vertex that follows `i` on the closed ring of `len`
/// vertices.
pub open spec fn next_vertex(i: int, len: int) -> int {
    if i + 1 < len {
        i + 1
    } else {
        0
    }
}

/// The x-coordinate where the edge from `a` to `b` meets the horizontal line
/// through `p`, by truncating linear interpolation along the edge.
pub open spec fn crossing_x(p: Point, a: Point, b: Point) -> int
    recommends
        a.y != b.y,
{
    a.x + trunc_div((p.y - a.y) * (b.x - a.x), (b.y - a.y))
}

/// Whether the horizontal ray from `p` toward +x crosses the edge from `a`
/// to `b`. Exactly one endpoint must lie strictly above the ray — the
/// asymmetric test that skips horizontal edges and never counts a shared
/// vertex twice.
pub open spec fn edge_crossed(p: Point, a: Point, b: Point) -> bool {
    ((a.y > p.y) != (b.y > p.y)) && p.x < crossing_x(p, a, b)
}

/// How many of the first `n` ring edges the ray from `p` crosses.
pub open spec fn crossings_upto(p: Point, ring: Seq<Point>, n: int) -> nat
    recommends
        0 <= n <= ring.len(),
    decreases n,
{
    if n <= 0 {
        0
    } else {
        crossings_upto(p, ring, n - 1) + (if edge_crossed(
            p,
            ring[n - 1],
            ring[next_vertex(n - 1, ring.len() as int)],
        ) {
            1nat
        } else {
            0nat
        })
    }
}

/// The even-odd rule: `p` is inside the ring iff the ray from `p` crosses an
/// odd number of ring edges.
pub open spec fn spec_point_in_polygon(p: Point, ring: Seq<Point>) -> bool {
    crossings_upto(p, ring, ring.len() as int) % 2 == 1
}

/// `p` lies inside at least one of the polygons marked as a hole.
pub open spec fn in_any_hole(p: Point, polys: Seq<Polygon>) -> bool {
    exists|k: int|
        0 <= k < polys.len() && polys[k].is_hole && spec_point_in_polygon(p, polys[k].points@)
}

/// Even-odd point-in-polygon test by ray casting: returns whether a
/// horizontal ray cast from `point` toward +x crosses the ring's edges an
/// odd number of times.
pub fn point_in_polygon(point: Point, polygon: &Vec<Point>) -> (inside: bool)
    ensures
        inside == spec_point_in_polygon(point, polygon@),
{
    let mut inside = false;
    let n: usize = polygon.len();
    let mut i: usize = 0;
    while i < n
        invariant
            i <= n,
            n == polygon@.len(),
            inside == (crossings_upto(point, polygon@, i as int) % 2 == 1),
        decreases n - i,
    {
        let pi = polygon[i];
        let j: usize = if i + 1 < n {
            i + 1
        } else {
            0
        };
        let pj = polygon[j];

        if (pi.y > point.y) != (pj.y > point.y) {
            let dy: i128 = point.y as i128 - pi.y as i128;
            let dx: i128 = pj.x as i128 - pi.x as i128;
            proof {
                assert(-0x10000000000000000 <= dy * dx <= 0x10000000000000000)
                    by (nonlinear_arith)
                    requires
                        -0x100000000 <= dy <= 0x100000000,
                        -0x100000000 <= dx <= 0x100000000,
                ;
            }
            let num: i128 = dy * dx;
            let den: i128 = pj.y as i128 - pi.y as i128;
            let q = div_trunc(num, den);
            if (point.x as i128 - pi.x as i128) < q {
                inside = !inside;
            }
        }
        i = i + 1;
    }
    inside
}

/// Whether `point` lies inside any polygon of `polygons` that is marked as a
/// hole; stops at the first such hole.
pub fn point_in_holes(point: Point, polygons: &Vec<Polygon>) -> (r: bool)
    ensures
        r == in_any_hole(point, polygons@),
{
    let n: usize = polygons.len();
    let mut i: usize = 0;
    while i < n
        invariant
            i <= n,
            n == polygons@.len(),
            forall|k: int|
                0 <= k < i ==> !(#[trigger] polygons@[k].is_hole && spec_point_in_polygon(
                    point,
                    polygons@[k].points@,
                )),
        decreases n - i,
    {
        let poly = &polygons[i];
        if poly.is_hole && point_in_polygon(point, &poly.points) {
            return true;
        }
        i = i + 1;
    }
    false
}

} // verus!
