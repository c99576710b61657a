//! Triangles on the integer grid, and exact ray intersection with them.
//!
//! The ray parameter of a hit is a fraction `t / den` with `den > 0`,
//! computed without rounding.
use vstd::prelude::*;

use crate::aabb::{Aabb, Point3, bounds_of_points};
use crate::octree::Spatial;

verus! {

pub struct Triangle {
    pub vertices: [Point3; 3],
}

/// Why a triangle has no tangent space.
#[derive(Clone, Copy, Debug, PartialEq, Eq, Structural)]
pub enum GeomError {
    /// The triangle has no area, so its normal is undefined.
    DegenerateTriangle,
}

pub open spec fn vsub(a: Point3, b: Point3) -> (int, int, int) {
    (a.x - b.x, a.y - b.y, a.z - b.z)
}

pub open spec fn vpt(a: Point3) -> (int, int, int) {
    (a.x as int, a.y as int, a.z as int)
}

pub open spec fn iv(a: (i128, i128, i128)) -> (int, int, int) {
    (a.0 as int, a.1 as int, a.2 as int)
}

pub open spec fn cross(a: (int, int, int), b: (int, int, int)) -> (int, int, int) {
    (a.1 * b.2 - a.2 * b.1, a.2 * b.0 - a.0 * b.2, a.0 * b.1 - a.1 * b.0)
}

pub open spec fn dot(a: (int, int, int), b: (int, int, int)) -> int {
    a.0 * b.0 + a.1 * b.1 + a.2 * b.2
}

/// Moeller-Trumbore on exact numbers: the ray `o + t d` hits the triangle
/// when the determinant is not 0, both barycentric coordinates and their
/// sum lie in `[0, 1]`, and `t > 0`. Then the hit's parameter is
/// `t / den`, with the signs taken so that `den > 0`.
pub open spec fn ray_hit(tri: Triangle, o: Point3, d: Point3) -> Option<(int, int)> {
    let v0 = tri.vertices[0];
    let e1 = vsub(tri.vertices[1], v0);
    let e2 = vsub(tri.vertices[2], v0);
    let h = cross(vpt(d), e2);
    let a = dot(e1, h);
    if a == 0 {
        None
    } else {
        let sg = if a > 0 { 1int } else { -1int };
        let den = a * sg;
        let s = vsub(o, v0);
        let u = dot(s, h) * sg;
        let q = cross(s, e1);
        let v = dot(vpt(d), q) * sg;
        let t = dot(e2, q) * sg;
        if u < 0 || u > den || v < 0 || u + v > den || t <= 0 {
            None
        } else {
            Some((t, den))
        }
    }
}

proof fn lemma_mul_bound(a: int, b: int, ba: int, bb: int)
    requires
        -ba <= a <= ba,
        -bb <= b <= bb,
    ensures
        -(ba * bb) <= a * b <= ba * bb,
{
    assert(-(ba * bb) <= a * b <= ba * bb) by (nonlinear_arith)
        requires
            -ba <= a <= ba,
            -bb <= b <= bb,
    ;
}

const B32: i128 = 0x1_0000_0000;

const B31: i128 = 0x8000_0000;

fn sub3(a: Point3, b: Point3) -> (r: (i128, i128, i128))
    ensures
        iv(r) == vsub(a, b),
        -B32 <= r.0 <= B32 && -B32 <= r.1 <= B32 && -B32 <= r.2 <= B32,
{
    (a.x as i128 - b.x as i128, a.y as i128 - b.y as i128, a.z as i128 - b.z as i128)
}

/// `a x b` for `|a| <= ba`, `|b| <= bb` componentwise.
fn cross3(a: (i128, i128, i128), b: (i128, i128, i128), ba: i128, bb: i128) -> (r: (i128, i128, i128))
    requires
        0 <= ba,
        0 <= bb,
        ba * bb <= 0x1_0000_0000_0000_0000_0000_0000_0000,
        -ba <= a.0 <= ba && -ba <= a.1 <= ba && -ba <= a.2 <= ba,
        -bb <= b.0 <= bb && -bb <= b.1 <= bb && -bb <= b.2 <= bb,
    ensures
        iv(r) == cross(iv(a), iv(b)),
        -2 * (ba * bb) <= r.0 <= 2 * (ba * bb),
        -2 * (ba * bb) <= r.1 <= 2 * (ba * bb),
        -2 * (ba * bb) <= r.2 <= 2 * (ba * bb),
{
    let ghost m = ba * bb;
    proof {
        lemma_mul_bound(a.1 as int, b.2 as int, ba as int, bb as int);
        lemma_mul_bound(a.2 as int, b.1 as int, ba as int, bb as int);
        lemma_mul_bound(a.2 as int, b.0 as int, ba as int, bb as int);
        lemma_mul_bound(a.0 as int, b.2 as int, ba as int, bb as int);
        lemma_mul_bound(a.0 as int, b.1 as int, ba as int, bb as int);
        lemma_mul_bound(a.1 as int, b.0 as int, ba as int, bb as int);
    }
    let p12 = a.1 * b.2;
    let p21 = a.2 * b.1;
    let p20 = a.2 * b.0;
    let p02 = a.0 * b.2;
    let p01 = a.0 * b.1;
    let p10 = a.1 * b.0;
    assert(-m <= p12 <= m && -m <= p21 <= m && -m <= p20 <= m);
    assert(-m <= p02 <= m && -m <= p01 <= m && -m <= p10 <= m);
    (p12 - p21, p20 - p02, p01 - p10)
}

/// `a . b` for `|a| <= ba`, `|b| <= bb` componentwise.
fn dot3(a: (i128, i128, i128), b: (i128, i128, i128), ba: i128, bb: i128) -> (r: i128)
    requires
        0 <= ba,
        0 <= bb,
        ba * bb <= 0x1_0000_0000_0000_0000_0000_0000_0000,
        -ba <= a.0 <= ba && -ba <= a.1 <= ba && -ba <= a.2 <= ba,
        -bb <= b.0 <= bb && -bb <= b.1 <= bb && -bb <= b.2 <= bb,
    ensures
        r == dot(iv(a), iv(b)),
        -3 * (ba * bb) <= r <= 3 * (ba * bb),
{
    let ghost m = ba * bb;
    proof {
        lemma_mul_bound(a.0 as int, b.0 as int, ba as int, bb as int);
        lemma_mul_bound(a.1 as int, b.1 as int, ba as int, bb as int);
        lemma_mul_bound(a.2 as int, b.2 as int, ba as int, bb as int);
    }
    let xx = a.0 * b.0;
    let yy = a.1 * b.1;
    let zz = a.2 * b.2;
    assert(-m <= xx <= m && -m <= yy <= m && -m <= zz <= m);
    xx + yy + zz
}

impl Triangle {
    pub fn new(a: Point3, b: Point3, c: Point3) -> (r: Triangle)
        ensures
            r.vertices[0] == a && r.vertices[1] == b && r.vertices[2] == c,
    {
        Triangle { vertices: [a, b, c] }
    }

    /// Where the ray `o + t d` hits the triangle, as the fraction
    /// `t / den` of its parameter with `den > 0`; `None` when it misses, runs
    /// parallel to the triangle's plane, or hits at `t <= 0`.
    pub fn ray_intersection_parameter(&self, o: Point3, d: Point3) -> (r: Option<(i128, i128)>)
        ensures
            r.is_some() == ray_hit(*self, o, d).is_some(),
            r.is_some() ==> r.unwrap().0 == ray_hit(*self, o, d).unwrap().0 && r.unwrap().1
                == ray_hit(*self, o, d).unwrap().1,
            r.is_some() ==> r.unwrap().1 > 0 && r.unwrap().0 > 0,
    {
        let v0 = self.vertices[0];
        let e1 = sub3(self.vertices[1], v0);
        let e2 = sub3(self.vertices[2], v0);
        let dd = (d.x as i128, d.y as i128, d.z as i128);
        let h = cross3(dd, e2, B31, B32);
        let a = dot3(e1, h, B32, 2 * B31 * B32);
        if a == 0 {
            return None;
        }
        let sg: i128 = if a > 0 { 1 } else { -1 };
        let den = a * sg;
        let s = sub3(o, v0);
        let u = dot3(s, h, B32, 2 * B31 * B32) * sg;
        let q = cross3(s, e1, B32, B32);
        let v = dot3(dd, q, B31, 2 * B32 * B32) * sg;
        let t = dot3(e2, q, B32, 2 * B32 * B32) * sg;
        if u < 0 || u > den || v < 0 || u + v > den || t <= 0 {
            None
        } else {
            Some((t, den))
        }
    }
}

impl Spatial for Triangle {
    open spec fn spec_bounds(&self) -> Aabb {
        bounds_of_points(seq![self.vertices[0], self.vertices[1], self.vertices[2]])
    }

    fn bounds(&self) -> (r: Aabb) {
        let pts = vec![self.vertices[0], self.vertices[1], self.vertices[2]];
        proof {
            assert(pts@ =~= seq![self.vertices[0], self.vertices[1], self.vertices[2]]);
        }
        Aabb::from_points(&pts)
    }
}

/// Twice the triangle's vector area: the cross product of its edges from
/// the first vertex. Its length is twice the area.
pub open spec fn vector_area(t: Triangle) -> (int, int, int) {
    cross(vsub(t.vertices[1], t.vertices[0]), vsub(t.vertices[2], t.vertices[0]))
}

/// Every coordinate of the triangle is below `2^30` in magnitude, so that
/// it can be doubled.
pub open spec fn halvable(t: Triangle) -> bool {
    forall|i: int|
        0 <= i < 3 ==> -0x3fff_ffff <= (#[trigger] t.vertices[i]).x <= 0x3fff_ffff && -0x3fff_ffff
            <= t.vertices[i].y <= 0x3fff_ffff && -0x3fff_ffff <= t.vertices[i].z <= 0x3fff_ffff
}

pub open spec fn psum(a: Point3, b: Point3) -> Point3 {
    Point3 { x: (a.x + b.x) as i32, y: (a.y + b.y) as i32, z: (a.z + b.z) as i32 }
}

/// The four triangles of the split, on the grid twice as fine: the central
/// one first, then the corner triangles at the second, third and first
/// vertex. With `m01`, `m12`, `m20` the edge midpoints they are
/// `[m01, m12, m20]`, `[m01, v1, m12]`, `[m12, v2, m20]`, `[m20, v0, m01]`.
pub open spec fn split_of(t: Triangle) -> Seq<Triangle> {
    let a = t.vertices[0];
    let b = t.vertices[1];
    let c = t.vertices[2];
    seq![
        Triangle { vertices: [psum(a, b), psum(b, c), psum(c, a)] },
        Triangle { vertices: [psum(a, b), psum(b, b), psum(b, c)] },
        Triangle { vertices: [psum(b, c), psum(c, c), psum(c, a)] },
        Triangle { vertices: [psum(c, a), psum(a, a), psum(a, b)] },
    ]
}

fn add_points(a: Point3, b: Point3) -> (r: Point3)
    requires
        -0x3fff_ffff <= a.x <= 0x3fff_ffff && -0x3fff_ffff <= a.y <= 0x3fff_ffff && -0x3fff_ffff
            <= a.z <= 0x3fff_ffff,
        -0x3fff_ffff <= b.x <= 0x3fff_ffff && -0x3fff_ffff <= b.y <= 0x3fff_ffff && -0x3fff_ffff
            <= b.z <= 0x3fff_ffff,
    ensures
        r == psum(a, b),
{
    Point3 { x: a.x + b.x, y: a.y + b.y, z: a.z + b.z }
}

impl Triangle {
    /// The 1-to-4 split at the edge midpoints. The four triangles are given
    /// on the grid twice as fine as this one's, where every coordinate is
    /// doubled, so that the midpoints are exact.
    pub fn split_at_edge_midpoints(&self) -> (r: [Triangle; 4])
        requires
            halvable(*self),
        ensures
            r@ == split_of(*self),
    {
        let a = self.vertices[0];
        let b = self.vertices[1];
        let c = self.vertices[2];
        assert(halvable(*self));
        assert(self.vertices[0] == a && self.vertices[1] == b && self.vertices[2] == c);
        let aa = add_points(a, a);
        let ab = add_points(a, b);
        let bb = add_points(b, b);
        let bc = add_points(b, c);
        let cc = add_points(c, c);
        let ca = add_points(c, a);
        let r = [
            Triangle { vertices: [ab, bc, ca] },
            Triangle { vertices: [ab, bb, bc] },
            Triangle { vertices: [bc, cc, ca] },
            Triangle { vertices: [ca, aa, ab] },
        ];
        assert(r@ =~= split_of(*self));
        r
    }
}

proof fn lemma_cross_shift(p: (int, int, int), q: (int, int, int), r: (int, int, int))
    ensures
        cross((r.0 - p.0, r.1 - p.1, r.2 - p.2), (r.0 - q.0, r.1 - q.1, r.2 - q.2)) == cross(
            (q.0 - p.0, q.1 - p.1, q.2 - p.2),
            (r.0 - p.0, r.1 - p.1, r.2 - p.2),
        ),
{
    let (p0, p1, p2) = p;
    let (q0, q1, q2) = q;
    let (r0, r1, r2) = r;
    assert((r1 - p1) * (r2 - q2) - (r2 - p2) * (r1 - q1) == (q1 - p1) * (r2 - p2) - (q2 - p2) * (r1
        - p1)) by (nonlinear_arith);
    assert((r2 - p2) * (r0 - q0) - (r0 - p0) * (r2 - q2) == (q2 - p2) * (r0 - p0) - (q0 - p0) * (r2
        - p2)) by (nonlinear_arith);
    assert((r0 - p0) * (r1 - q1) - (r1 - p1) * (r0 - q0) == (q0 - p0) * (r1 - p1) - (q1 - p1) * (r0
        - p0)) by (nonlinear_arith);
}

proof fn lemma_cross_rotate(p: (int, int, int), q: (int, int, int), r: (int, int, int))
    ensures
        cross((r.0 - q.0, r.1 - q.1, r.2 - q.2), (p.0 - q.0, p.1 - q.1, p.2 - q.2)) == cross(
            (q.0 - p.0, q.1 - p.1, q.2 - p.2),
            (r.0 - p.0, r.1 - p.1, r.2 - p.2),
        ),
{
    let (p0, p1, p2) = p;
    let (q0, q1, q2) = q;
    let (r0, r1, r2) = r;
    assert((r1 - q1) * (p2 - q2) - (r2 - q2) * (p1 - q1) == (q1 - p1) * (r2 - p2) - (q2 - p2) * (r1
        - p1)) by (nonlinear_arith);
    assert((r2 - q2) * (p0 - q0) - (r0 - q0) * (p2 - q2) == (q2 - p2) * (r0 - p0) - (q0 - p0) * (r2
        - p2)) by (nonlinear_arith);
    assert((r0 - q0) * (p1 - q1) - (r1 - q1) * (p0 - q0) == (q0 - p0) * (r1 - p1) - (q1 - p1) * (r0
        - p0)) by (nonlinear_arith);
}

/// Area conservation of the split: each of the four triangles, measured on
/// the grid twice as fine, has the vector area of the whole triangle on
/// its own grid. As the finer grid scales areas by four, each is a quarter
/// of the whole, and the four together are all of it.
pub proof fn lemma_split_conserves_area(t: Triangle)
    requires
        halvable(t),
    ensures
        forall|k: int| 0 <= k < 4 ==> vector_area(#[trigger] split_of(t)[k]) == vector_area(t),
{
    let a = t.vertices[0];
    let b = t.vertices[1];
    let c = t.vertices[2];
    assert(-0x3fff_ffff <= a.x <= 0x3fff_ffff && -0x3fff_ffff <= a.y <= 0x3fff_ffff && -0x3fff_ffff <= a.z <= 0x3fff_ffff) by {
        assert(t.vertices[0] == a);
    }
    assert(-0x3fff_ffff <= b.x <= 0x3fff_ffff && -0x3fff_ffff <= b.y <= 0x3fff_ffff && -0x3fff_ffff <= b.z <= 0x3fff_ffff) by {
        assert(t.vertices[1] == b);
    }
    assert(-0x3fff_ffff <= c.x <= 0x3fff_ffff && -0x3fff_ffff <= c.y <= 0x3fff_ffff && -0x3fff_ffff <= c.z <= 0x3fff_ffff) by {
        assert(t.vertices[2] == c);
    }
    let s = split_of(t);
    assert(vsub(s[0].vertices[1], s[0].vertices[0]) == vsub(c, a));
    assert(vsub(s[0].vertices[2], s[0].vertices[0]) == vsub(c, b));
    lemma_cross_shift(vpt(a), vpt(b), vpt(c));
    assert(vsub(s[1].vertices[1], s[1].vertices[0]) == vsub(b, a));
    assert(vsub(s[1].vertices[2], s[1].vertices[0]) == vsub(c, a));
    assert(vsub(s[2].vertices[1], s[2].vertices[0]) == vsub(c, b));
    assert(vsub(s[2].vertices[2], s[2].vertices[0]) == vsub(a, b));
    lemma_cross_rotate(vpt(a), vpt(b), vpt(c));
    assert(vsub(s[3].vertices[1], s[3].vertices[0]) == vsub(a, c));
    assert(vsub(s[3].vertices[2], s[3].vertices[0]) == vsub(b, c));
    lemma_cross_rotate(vpt(b), vpt(c), vpt(a));
}

/// The unnormalized tangent space of a triangle: the first edge as
/// tangent, the normal `n = e1 x e2`, and the binormal `n x e1`; an error
/// when the normal is the zero vector, that is when the triangle has no area.
pub open spec fn tangent_space_of(t: Triangle) -> Result<
    ((int, int, int), (int, int, int), (int, int, int)),
    GeomError,
> {
    let e1 = vsub(t.vertices[1], t.vertices[0]);
    let n = vector_area(t);
    if n == (0int, 0int, 0int) {
        Err(GeomError::DegenerateTriangle)
    } else {
        Ok((e1, cross(n, e1), n))
    }
}

impl Triangle {
    /// Tangent, binormal and normal of the triangle, not normalized; the
    /// normal points to the side from which the vertices run counter-clockwise.
    pub fn tangent_space(&self) -> (r: Result<((i128, i128, i128), (i128, i128, i128), (i128, i128, i128)), GeomError>)
        ensures
            r.is_err() == tangent_space_of(*self).is_err(),
            r.is_err() ==> r == Err::<((i128, i128, i128), (i128, i128, i128), (i128, i128, i128)), GeomError>(GeomError::DegenerateTriangle),
            r.is_ok() ==> ({
                let (t, b, n) = r.unwrap();
                let (ts, bs, ns) = tangent_space_of(*self).unwrap();
                iv(t) == ts && iv(b) == bs && iv(n) == ns
            }),
    {
        let v0 = self.vertices[0];
        let e1 = sub3(self.vertices[1], v0);
        let e2 = sub3(self.vertices[2], v0);
        let n = cross3(e1, e2, B32, B32);
        if n.0 == 0 && n.1 == 0 && n.2 == 0 {
            return Err(GeomError::DegenerateTriangle);
        }
        let b = cross3(n, e1, 2 * B32 * B32, B32);
        Ok((e1, b, n))
    }
}

} // verus!
