//! Axis-aligned bounding boxes on the scene's integer grid.
use vstd::prelude::*;

verus! {

/// Largest grid coordinate; the lower corner of the empty box.
pub const GRID_MAX: i32 = 2147483647;

/// Smallest grid coordinate; the upper corner of the empty box.
pub const GRID_MIN: i32 = -2147483648;

/// A point on the scene's integer grid.
#[derive(Clone, Copy, Debug, PartialEq, Eq, Structural)]
pub struct Point3 {
    pub x: i32,
    pub y: i32,
    pub z: i32,
}

/// An axis-aligned bounding box, given by its lower and upper corner.
///
/// The box built from nothing has its lower corner at the largest coordinate
/// and its upper corner at the smallest one, so that it is the identity of
/// `join`: joining it with any box leaves that box unchanged.
#[derive(Clone, Copy, Debug, PartialEq, Eq, Structural)]
pub struct Aabb {
    pub min: Point3,
    pub max: Point3,
}

pub open spec fn min_i32(a: i32, b: i32) -> i32 {
    if b < a { b } else { a }
}

pub open spec fn max_i32(a: i32, b: i32) -> i32 {
    if b > a { b } else { a }
}

pub open spec fn point_min(a: Point3, b: Point3) -> Point3 {
    Point3 { x: min_i32(a.x, b.x), y: min_i32(a.y, b.y), z: min_i32(a.z, b.z) }
}

pub open spec fn point_max(a: Point3, b: Point3) -> Point3 {
    Point3 { x: max_i32(a.x, b.x), y: max_i32(a.y, b.y), z: max_i32(a.z, b.z) }
}

/// The box that holds nothing.
pub open spec fn empty_box() -> Aabb {
    Aabb {
        min: Point3 { x: GRID_MAX, y: GRID_MAX, z: GRID_MAX },
        max: Point3 { x: GRID_MIN, y: GRID_MIN, z: GRID_MIN },
    }
}

/// The smallest box that encloses both boxes.
pub open spec fn join(a: Aabb, b: Aabb) -> Aabb {
    Aabb { min: point_min(a.min, b.min), max: point_max(a.max, b.max) }
}

/// The smallest box that encloses the box and the point.
pub open spec fn enclose(a: Aabb, p: Point3) -> Aabb {
    Aabb { min: point_min(a.min, p), max: point_max(a.max, p) }
}

/// The smallest box that encloses every box of the sequence.
pub open spec fn union_of(s: Seq<Aabb>) -> Aabb
    decreases s.len(),
{
    if s.len() == 0 {
        empty_box()
    } else {
        join(union_of(s.drop_last()), s.last())
    }
}

/// The smallest box that encloses every point of the sequence.
pub open spec fn bounds_of_points(s: Seq<Point3>) -> Aabb
    decreases s.len(),
{
    if s.len() == 0 {
        empty_box()
    } else {
        enclose(bounds_of_points(s.drop_last()), s.last())
    }
}

pub open spec fn point_inside(a: Aabb, p: Point3) -> bool {
    a.min.x <= p.x && p.x <= a.max.x && a.min.y <= p.y && p.y <= a.max.y && a.min.z <= p.z
        && p.z <= a.max.z
}

pub open spec fn box_inside(outer: Aabb, inner: Aabb) -> bool {
    point_inside(outer, inner.min) && point_inside(outer, inner.max)
}

pub open spec fn extent_x(a: Aabb) -> int {
    a.max.x - a.min.x
}

pub open spec fn extent_y(a: Aabb) -> int {
    a.max.y - a.min.y
}

pub open spec fn extent_z(a: Aabb) -> int {
    a.max.z - a.min.z
}

pub open spec fn volume_of(a: Aabb) -> int {
    extent_x(a) * extent_y(a) * extent_z(a)
}

/// A box that is at least two grid units wide along every axis, so that its
/// eight octants are each smaller than the box itself.
pub open spec fn divisible(a: Aabb) -> bool {
    extent_x(a) >= 2 && extent_y(a) >= 2 && extent_z(a) >= 2
}

pub open spec fn midpoint(lo: i32, hi: i32) -> int {
    lo + (hi - lo) / 2
}

/// The point at which a box is bisected along each axis.
pub open spec fn center_of(a: Aabb) -> Point3 {
    Point3 {
        x: midpoint(a.min.x, a.max.x) as i32,
        y: midpoint(a.min.y, a.max.y) as i32,
        z: midpoint(a.min.z, a.max.z) as i32,
    }
}

/// Octant `i` of the box: bit 0 of the octant's code picks the upper half
/// along x, bit 1 along y and bit 2 along z, where the code of octant `i` is
/// the `i`-th of 0, 1, 5, 4, 2, 3, 7, 6 (left bottom back, right bottom back,
/// right bottom front, left bottom front, then the same four on top).
pub open spec fn octant_code(i: int) -> int {
    if i == 0 { 0 }
    else if i == 1 { 1 }
    else if i == 2 { 5 }
    else if i == 3 { 4 }
    else if i == 4 { 2 }
    else if i == 5 { 3 }
    else if i == 6 { 7 }
    else { 6 }
}

pub open spec fn half_lo(upper: bool, lo: i32, c: i32) -> i32 {
    if upper { c } else { lo }
}

pub open spec fn half_hi(upper: bool, c: i32, hi: i32) -> i32 {
    if upper { hi } else { c }
}

pub open spec fn octant_of(a: Aabb, i: int) -> Aabb {
    let c = center_of(a);
    let code = octant_code(i);
    let ux = code % 2 == 1;
    let uy = (code / 2) % 2 == 1;
    let uz = code / 4 == 1;
    Aabb {
        min: Point3 {
            x: half_lo(ux, a.min.x, c.x),
            y: half_lo(uy, a.min.y, c.y),
            z: half_lo(uz, a.min.z, c.z),
        },
        max: Point3 {
            x: half_hi(ux, c.x, a.max.x),
            y: half_hi(uy, c.y, a.max.y),
            z: half_hi(uz, c.z, a.max.z),
        },
    }
}

/// The sum of a box's extents, which shrinks from a divisible box to each of
/// its octants.
pub open spec fn extent_sum(a: Aabb) -> int {
    extent_x(a) + extent_y(a) + extent_z(a)
}

fn min_of(a: i32, b: i32) -> (r: i32)
    ensures
        r == min_i32(a, b),
{
    if b < a { b } else { a }
}

fn max_of(a: i32, b: i32) -> (r: i32)
    ensures
        r == max_i32(a, b),
{
    if b > a { b } else { a }
}

fn mid(lo: i32, hi: i32) -> (r: i32)
    requires
        lo <= hi,
    ensures
        r == midpoint(lo, hi),
        lo <= r <= hi,
{
    let d: i64 = hi as i64 - lo as i64;
    (lo as i64 + d / 2) as i32
}

impl Aabb {
    /// The box that holds nothing: the identity of `join`.
    pub fn empty() -> (r: Aabb)
        ensures
            r == empty_box(),
    {
        Aabb {
            min: Point3 { x: GRID_MAX, y: GRID_MAX, z: GRID_MAX },
            max: Point3 { x: GRID_MIN, y: GRID_MIN, z: GRID_MIN },
        }
    }

    /// The smallest box that encloses this box and `other`.
    pub fn join(&self, other: &Aabb) -> (r: Aabb)
        ensures
            r == join(*self, *other),
    {
        Aabb {
            min: Point3 {
                x: min_of(self.min.x, other.min.x),
                y: min_of(self.min.y, other.min.y),
                z: min_of(self.min.z, other.min.z),
            },
            max: Point3 {
                x: max_of(self.max.x, other.max.x),
                y: max_of(self.max.y, other.max.y),
                z: max_of(self.max.z, other.max.z),
            },
        }
    }

    /// The smallest box that encloses all of the points; the empty box when
    /// there are none.
    pub fn from_points(points: &Vec<Point3>) -> (r: Aabb)
        ensures
            r == bounds_of_points(points@),
    {
        let mut acc = Aabb::empty();
        let mut i: usize = 0;
        while i < points.len()
            invariant
                i <= points.len(),
                acc == bounds_of_points(points@.subrange(0, i as int)),
            decreases points.len() - i,
        {
            let p = points[i];
            acc = Aabb {
                min: Point3 {
                    x: min_of(acc.min.x, p.x),
                    y: min_of(acc.min.y, p.y),
                    z: min_of(acc.min.z, p.z),
                },
                max: Point3 {
                    x: max_of(acc.max.x, p.x),
                    y: max_of(acc.max.y, p.y),
                    z: max_of(acc.max.z, p.z),
                },
            };
            assert(points@.subrange(0, i + 1).drop_last() =~= points@.subrange(0, i as int));
            i = i + 1;
        }
        assert(points@.subrange(0, i as int) =~= points@);
        acc
    }

    /// The smallest box that encloses all of the boxes; the empty box when
    /// there are none.
    pub fn union(boxes: &Vec<Aabb>) -> (r: Aabb)
        ensures
            r == union_of(boxes@),
    {
        let mut acc = Aabb::empty();
        let mut i: usize = 0;
        while i < boxes.len()
            invariant
                i <= boxes.len(),
                acc == union_of(boxes@.subrange(0, i as int)),
            decreases boxes.len() - i,
        {
            acc = acc.join(&boxes[i]);
            assert(boxes@.subrange(0, i + 1).drop_last() =~= boxes@.subrange(0, i as int));
            i = i + 1;
        }
        assert(boxes@.subrange(0, i as int) =~= boxes@);
        acc
    }

    pub fn is_point_inside(&self, p: &Point3) -> (r: bool)
        ensures
            r == point_inside(*self, *p),
    {
        !(p.x < self.min.x || p.x > self.max.x || p.y < self.min.y || p.y > self.max.y || p.z
            < self.min.z || p.z > self.max.z)
    }

    /// Whether `other` lies entirely within this box, borders included.
    pub fn is_aabb_inside(&self, other: &Aabb) -> (r: bool)
        ensures
            r == box_inside(*self, *other),
    {
        self.is_point_inside(&other.min) && self.is_point_inside(&other.max)
    }

    /// The product of the box's extents. Negative extents are kept as they
    /// are: the empty box has a negative volume.
    pub fn volume(&self) -> (r: i128)
        ensures
            r == volume_of(*self),
    {
        let dx: i64 = self.max.x as i64 - self.min.x as i64;
        let dy: i64 = self.max.y as i64 - self.min.y as i64;
        let dz: i64 = self.max.z as i64 - self.min.z as i64;
        assert(-0x1_0000_0000 <= dx <= 0x1_0000_0000);
        assert(-0x1_0000_0000 <= dy <= 0x1_0000_0000);
        assert(-0x1_0000_0000 <= dz <= 0x1_0000_0000);
        proof {
            assert(-0x1_0000_0000_0000_0000 <= dx * dy <= 0x1_0000_0000_0000_0000)
                by (nonlinear_arith)
                requires
                    -0x1_0000_0000 <= dx <= 0x1_0000_0000,
                    -0x1_0000_0000 <= dy <= 0x1_0000_0000,
            ;
        }
        let dxy: i128 = dx as i128 * dy as i128;
        proof {
            assert(-0x1_0000_0000_0000_0000_0000_0000 <= dxy * dz
                <= 0x1_0000_0000_0000_0000_0000_0000) by (nonlinear_arith)
                requires
                    -0x1_0000_0000_0000_0000 <= dxy <= 0x1_0000_0000_0000_0000,
                    -0x1_0000_0000 <= dz <= 0x1_0000_0000,
            ;
        }
        dxy * dz as i128
    }

    /// Whether the box is at least two grid units wide along every axis.
    pub fn is_divisible(&self) -> (r: bool)
        ensures
            r == divisible(*self),
    {
        self.max.x as i64 - self.min.x as i64 >= 2 && self.max.y as i64 - self.min.y as i64 >= 2
            && self.max.z as i64 - self.min.z as i64 >= 2
    }

    /// The eight octants of a divisible box, made by bisecting each axis at
    /// the box's center.
    pub fn octants(&self) -> (r: Vec<Aabb>)
        requires
            divisible(*self),
        ensures
            r.len() == 8,
            forall|i: int| 0 <= i < 8 ==> r@[i] == octant_of(*self, i),
            forall|i: int|
                0 <= i < 8 ==> divisible(*self) && 0 <= extent_x(#[trigger] r@[i]) && 0 <= extent_y(
                    r@[i],
                ) && 0 <= extent_z(r@[i]) && extent_sum(r@[i]) < extent_sum(*self),
    {
        let mn = self.min;
        let mx = self.max;
        let c = Point3 { x: mid(mn.x, mx.x), y: mid(mn.y, mx.y), z: mid(mn.z, mx.z) };
        let r = vec![
            Aabb { min: mn, max: c },
            Aabb { min: Point3 { x: c.x, y: mn.y, z: mn.z }, max: Point3 { x: mx.x, y: c.y, z: c.z } },
            Aabb { min: Point3 { x: c.x, y: mn.y, z: c.z }, max: Point3 { x: mx.x, y: c.y, z: mx.z } },
            Aabb { min: Point3 { x: mn.x, y: mn.y, z: c.z }, max: Point3 { x: c.x, y: c.y, z: mx.z } },
            Aabb { min: Point3 { x: mn.x, y: c.y, z: mn.z }, max: Point3 { x: c.x, y: mx.y, z: c.z } },
            Aabb { min: Point3 { x: c.x, y: c.y, z: mn.z }, max: Point3 { x: mx.x, y: mx.y, z: c.z } },
            Aabb { min: c, max: mx },
            Aabb { min: Point3 { x: mn.x, y: c.y, z: c.z }, max: Point3 { x: c.x, y: mx.y, z: mx.z } },
        ];
        assert(c == center_of(*self));
        assert forall|i: int| 0 <= i < 8 implies r@[i] == octant_of(*self, i) by {
            if i == 0 {
            } else if i == 1 {
            } else if i == 2 {
            } else if i == 3 {
            } else if i == 4 {
            } else if i == 5 {
            } else if i == 6 {
            } else {
            }
        }
        r
    }
}

/// Union identity: the union of no boxes is the empty box, and joining any
/// box with the empty box, on either side, gives that box back unchanged.
pub proof fn lemma_union_identity(a: Aabb)
    ensures
        union_of(Seq::<Aabb>::empty()) == empty_box(),
        join(a, empty_box()) == a,
        join(empty_box(), a) == a,
        union_of(seq![a, empty_box()]) == a,
        union_of(seq![empty_box(), a]) == a,
{
    let e = empty_box();
    assert(seq![a, e].drop_last() =~= seq![a]);
    assert(seq![a].drop_last() =~= Seq::<Aabb>::empty());
    assert(seq![e, a].drop_last() =~= seq![e]);
    assert(seq![e].drop_last() =~= Seq::<Aabb>::empty());
    assert(union_of(Seq::<Aabb>::empty()) == e);
    assert(seq![a].last() == a);
    assert(seq![e].last() == e);
    assert(seq![a, e].last() == e);
    assert(seq![e, a].last() == a);
    assert(union_of(seq![a]) == join(e, a));
    assert(union_of(seq![e]) == join(e, e));
    assert(union_of(seq![a, e]) == join(union_of(seq![a]), e));
    assert(union_of(seq![e, a]) == join(union_of(seq![e]), a));
}

/// Every octant of a divisible box lies inside the box.
pub proof fn lemma_octant_inside(a: Aabb, i: int)
    requires
        divisible(a),
        0 <= i < 8,
    ensures
        box_inside(a, octant_of(a, i)),
{
    let c = center_of(a);
    assert(a.min.x <= midpoint(a.min.x, a.max.x) <= a.max.x);
    assert(a.min.y <= midpoint(a.min.y, a.max.y) <= a.max.y);
    assert(a.min.z <= midpoint(a.min.z, a.max.z) <= a.max.z);
    assert(a.min.x <= c.x <= a.max.x && a.min.y <= c.y <= a.max.y && a.min.z <= c.z <= a.max.z);
}

/// Lying inside is transitive.
pub proof fn lemma_inside_trans(a: Aabb, b: Aabb, c: Aabb)
    requires
        box_inside(a, b),
        box_inside(b, c),
    ensures
        box_inside(a, c),
{
}

/// A box whose lower corner is below its upper corner along every axis.
pub open spec fn proper(a: Aabb) -> bool {
    a.min.x <= a.max.x && a.min.y <= a.max.y && a.min.z <= a.max.z
}

/// The union of boxes encloses each proper one of them.
pub proof fn lemma_union_encloses(s: Seq<Aabb>, i: int)
    requires
        0 <= i < s.len(),
        proper(s[i]),
    ensures
        box_inside(union_of(s), s[i]),
    decreases s.len(),
{
    if i < s.len() - 1 {
        lemma_union_encloses(s.drop_last(), i);
        assert(s.drop_last()[i] == s[i]);
    }
}

/// Along one axis, the ray `o + t d` at `t = n / den` lies within
/// `[lo, hi]`.
pub open spec fn within_axis(lo: int, hi: int, o: int, d: int, n: int, den: int) -> bool {
    lo * den <= o * den + d * n <= hi * den
}

/// The ray `o + t d` at `t = n / den` lies inside the box, borders included.
pub open spec fn ray_inside_at(b: Aabb, o: Point3, d: Point3, n: int, den: int) -> bool {
    &&& within_axis(b.min.x as int, b.max.x as int, o.x as int, d.x as int, n, den)
    &&& within_axis(b.min.y as int, b.max.y as int, o.y as int, d.y as int, n, den)
    &&& within_axis(b.min.z as int, b.max.z as int, o.z as int, d.z as int, n, den)
}

/// `a / b <= c / e` for positive denominators.
pub open spec fn frac_le(a: int, b: int, c: int, e: int) -> bool {
    a * e <= c * b
}

proof fn lemma_frac_trans(a: int, b: int, c: int, e: int, f: int, g: int)
    requires
        b > 0,
        e > 0,
        g > 0,
        frac_le(a, b, c, e),
        frac_le(c, e, f, g),
    ensures
        frac_le(a, b, f, g),
{
    assert(a * e * g <= c * b * g) by (nonlinear_arith)
        requires
            a * e <= c * b,
            g > 0,
    ;
    assert(c * g * b <= f * e * b) by (nonlinear_arith)
        requires
            c * g <= f * e,
            b > 0,
    ;
    assert(a * g * e <= f * b * e) by (nonlinear_arith)
        requires
            a * e * g <= c * b * g,
            c * g * b <= f * e * b,
    ;
    assert(a * g <= f * b) by (nonlinear_arith)
        requires
            a * g * e <= f * b * e,
            e > 0,
    ;
}

/// The parameters at which the ray lies within `[lo, hi]` along one axis:
/// `None` when there are none, `Some(None)` when all are, and otherwise
/// `Some(Some((ln, ld, hn, hd)))` for the interval `[ln / ld, hn / hd]`.
fn axis_interval(lo: i32, hi: i32, o: i32, d: i32) -> (r: Option<Option<(i128, i128, i128, i128)>>)
    ensures
        r.is_none() ==> forall|n: int, den: int|
            den > 0 ==> !#[trigger] within_axis(lo as int, hi as int, o as int, d as int, n, den),
        r == Some(None::<(i128, i128, i128, i128)>) ==> forall|n: int, den: int|
            den > 0 ==> #[trigger] within_axis(lo as int, hi as int, o as int, d as int, n, den),
        r.is_some() && r.unwrap().is_some() ==> ({
            let (ln, ld, hn, hd) = r.unwrap().unwrap();
            &&& 0 < ld <= 0x8000_0000
            &&& 0 < hd <= 0x8000_0000
            &&& -0x1_0000_0000 <= ln <= 0x1_0000_0000
            &&& -0x1_0000_0000 <= hn <= 0x1_0000_0000
            &&& forall|n: int, den: int|
                den > 0 ==> (#[trigger] within_axis(lo as int, hi as int, o as int, d as int, n, den)
                    <==> (frac_le(ln as int, ld as int, n, den) && frac_le(n, den, hn as int, hd as int)))
        }),
{
    let lo = lo as i128;
    let hi = hi as i128;
    let o = o as i128;
    let d = d as i128;
    if d == 0 {
        if lo <= o && o <= hi {
            proof {
                assert forall|n: int, den: int| den > 0 implies #[trigger] within_axis(
                    lo as int,
                    hi as int,
                    o as int,
                    d as int,
                    n,
                    den,
                ) by {
                    assert(lo * den <= o * den <= hi * den) by (nonlinear_arith)
                        requires
                            lo <= o <= hi,
                            den > 0,
                    ;
                }
            }
            Some(None)
        } else {
            proof {
                assert forall|n: int, den: int| den > 0 implies !#[trigger] within_axis(
                    lo as int,
                    hi as int,
                    o as int,
                    d as int,
                    n,
                    den,
                ) by {
                    if o < lo {
                        assert(o * den < lo * den) by (nonlinear_arith)
                            requires
                                o < lo,
                                den > 0,
                        ;
                    } else {
                        assert(hi * den < o * den) by (nonlinear_arith)
                            requires
                                hi < o,
                                den > 0,
                        ;
                    }
                }
            }
            None
        }
    } else if d > 0 {
        proof {
            assert forall|n: int, den: int| den > 0 implies (#[trigger] within_axis(
                lo as int,
                hi as int,
                o as int,
                d as int,
                n,
                den,
            ) <==> (frac_le(lo - o, d as int, n, den) && frac_le(n, den, hi - o, d as int))) by {
                assert((lo - o) * den == lo * den - o * den) by (nonlinear_arith);
                assert((hi - o) * den == hi * den - o * den) by (nonlinear_arith);
                assert(n * d == d * n) by (nonlinear_arith);
            }
        }
        Some(Some((lo - o, d, hi - o, d)))
    } else {
        proof {
            assert forall|n: int, den: int| den > 0 implies (#[trigger] within_axis(
                lo as int,
                hi as int,
                o as int,
                d as int,
                n,
                den,
            ) <==> (frac_le(o - hi, -d, n, den) && frac_le(n, den, o - lo, -d))) by {
                assert((o - hi) * den == o * den - hi * den) by (nonlinear_arith);
                assert((o - lo) * den == o * den - lo * den) by (nonlinear_arith);
                assert(n * (-d) == -(d * n)) by (nonlinear_arith);
            }
        }
        Some(Some((o - hi, -d, o - lo, -d)))
    }
}

/// The parameter `n / den` lies in the interval from `ln / ld` to
/// `hn / hd`, or above `ln / ld` when the interval is not bounded above.
pub open spec fn in_interval(ln: int, ld: int, bounded: bool, hn: int, hd: int, n: int, den: int) -> bool {
    frac_le(ln, ld, n, den) && (bounded ==> frac_le(n, den, hn, hd))
}

/// Narrows an interval of parameters by the interval `[a / b, c / e]`.
fn narrow(
    ln: i128,
    ld: i128,
    bounded: bool,
    hn: i128,
    hd: i128,
    a: i128,
    b: i128,
    c: i128,
    e: i128,
) -> (r: (i128, i128, bool, i128, i128))
    requires
        0 < ld <= 0x8000_0000,
        0 < hd <= 0x8000_0000,
        -0x1_0000_0000 <= ln <= 0x1_0000_0000,
        -0x1_0000_0000 <= hn <= 0x1_0000_0000,
        0 < b <= 0x8000_0000,
        0 < e <= 0x8000_0000,
        -0x1_0000_0000 <= a <= 0x1_0000_0000,
        -0x1_0000_0000 <= c <= 0x1_0000_0000,
    ensures
        0 < r.1 <= 0x8000_0000,
        0 < r.4 <= 0x8000_0000,
        -0x1_0000_0000 <= r.0 <= 0x1_0000_0000,
        -0x1_0000_0000 <= r.3 <= 0x1_0000_0000,
        r.2,
        forall|n: int, den: int|
            den > 0 ==> (#[trigger] in_interval(r.0 as int, r.1 as int, r.2, r.3 as int, r.4 as int, n, den)
                <==> (in_interval(ln as int, ld as int, bounded, hn as int, hd as int, n, den)
                && frac_le(a as int, b as int, n, den) && frac_le(n, den, c as int, e as int))),
{
    proof {
        assert(-0x1_0000_0000_0000_0000 <= a * ld <= 0x1_0000_0000_0000_0000) by (nonlinear_arith)
            requires
                -0x1_0000_0000 <= a <= 0x1_0000_0000,
                0 < ld <= 0x8000_0000,
        ;
        assert(-0x1_0000_0000_0000_0000 <= ln * b <= 0x1_0000_0000_0000_0000) by (nonlinear_arith)
            requires
                -0x1_0000_0000 <= ln <= 0x1_0000_0000,
                0 < b <= 0x8000_0000,
        ;
        assert(-0x1_0000_0000_0000_0000 <= c * hd <= 0x1_0000_0000_0000_0000) by (nonlinear_arith)
            requires
                -0x1_0000_0000 <= c <= 0x1_0000_0000,
                0 < hd <= 0x8000_0000,
        ;
        assert(-0x1_0000_0000_0000_0000 <= hn * e <= 0x1_0000_0000_0000_0000) by (nonlinear_arith)
            requires
                -0x1_0000_0000 <= hn <= 0x1_0000_0000,
                0 < e <= 0x8000_0000,
        ;
    }
    let raise = a * ld > ln * b;
    let (nl, nd) = if raise { (a, b) } else { (ln, ld) };
    let lower = !bounded || c * hd < hn * e;
    let (ul, ud) = if lower { (c, e) } else { (hn, hd) };
    proof {
        assert forall|n: int, den: int| den > 0 implies (#[trigger] in_interval(
            nl as int,
            nd as int,
            true,
            ul as int,
            ud as int,
            n,
            den,
        ) <==> (in_interval(ln as int, ld as int, bounded, hn as int, hd as int, n, den) && frac_le(
            a as int,
            b as int,
            n,
            den,
        ) && frac_le(n, den, c as int, e as int))) by {
            if raise {
                if frac_le(a as int, b as int, n, den) {
                    lemma_frac_trans(ln as int, ld as int, a as int, b as int, n, den);
                }
            } else {
                if frac_le(ln as int, ld as int, n, den) {
                    lemma_frac_trans(a as int, b as int, ln as int, ld as int, n, den);
                }
            }
            if lower {
                if bounded && frac_le(n, den, c as int, e as int) {
                    lemma_frac_trans(n, den, c as int, e as int, hn as int, hd as int);
                }
            } else {
                if frac_le(n, den, hn as int, hd as int) {
                    lemma_frac_trans(n, den, hn as int, hd as int, c as int, e as int);
                }
            }
        }
    }
    (nl, nd, true, ul, ud)
}

/// `n / den` is where the ray `o + t d`, `t >= 0`, enters the box: the
/// least parameter at which it lies inside the box.
pub open spec fn is_entry(b: Aabb, o: Point3, d: Point3, n: int, den: int) -> bool {
    &&& den > 0
    &&& n >= 0
    &&& ray_inside_at(b, o, d, n, den)
    &&& forall|n2: int, den2: int|
        den2 > 0 && n2 >= 0 && #[trigger] ray_inside_at(b, o, d, n2, den2) ==> frac_le(n, den, n2, den2)
}

/// The ray `o + t d`, `t >= 0`, never lies inside the box.
pub open spec fn never_inside(b: Aabb, o: Point3, d: Point3) -> bool {
    forall|n2: int, den2: int| den2 > 0 && n2 >= 0 ==> !#[trigger] ray_inside_at(b, o, d, n2, den2)
}

/// Keys of entry parameters count steps of `1 / KEY_SCALE`.
pub const KEY_SCALE: u64 = 1048576;

/// `r` is the key of where the ray enters the box: the entry parameter
/// times `KEY_SCALE`, rounded down; `None` when the ray never enters.
pub open spec fn entry_key(b: Aabb, o: Point3, d: Point3, r: Option<u64>) -> bool {
    match r {
        None => never_inside(b, o, d),
        Some(k) => exists|n: int, den: int|
            #[trigger] is_entry(b, o, d, n, den) && k == n * (KEY_SCALE as int) / den,
    }
}

proof fn lemma_div_mono(x: int, a: int, y: int, c: int)
    requires
        a > 0,
        c > 0,
        x >= 0,
        x * c <= y * a,
    ensures
        x / a <= y / c,
{
    let q = x / a;
    assert(q * a <= x) by (nonlinear_arith)
        requires
            a > 0,
            q == x / a,
    ;
    assert(q * a * c <= y * a) by (nonlinear_arith)
        requires
            q * a <= x,
            x * c <= y * a,
            c > 0,
    ;
    assert(q * c <= y) by (nonlinear_arith)
        requires
            q * a * c <= y * a,
            a > 0,
    ;
    assert(q <= y / c) by (nonlinear_arith)
        requires
            q * c <= y,
            c > 0,
    ;
}

/// A ray enters a box no later than any box inside it: when the ray enters
/// `inner` at key `k`, it enters `outer` too, at a key of at most `k`.
pub proof fn lemma_entry_keys_agree(
    outer: Aabb,
    inner: Aabb,
    o: Point3,
    d: Point3,
    ko: Option<u64>,
    k: u64,
)
    requires
        box_inside(outer, inner),
        entry_key(outer, o, d, ko),
        entry_key(inner, o, d, Some(k)),
    ensures
        ko.is_some() && ko.unwrap() <= k,
{
    let (nc, dc) = choose|n: int, den: int| #[trigger] is_entry(inner, o, d, n, den) && k == n * (KEY_SCALE as int) / den;
    assert(is_entry(inner, o, d, nc, dc));
    lemma_inside_enclosing(outer, inner, o, d, nc, dc);
    if ko.is_none() {
        assert(!ray_inside_at(outer, o, d, nc, dc));
    } else {
        let (nb, db) = choose|n: int, den: int| #[trigger] is_entry(outer, o, d, n, den) && ko.unwrap() == n * (KEY_SCALE as int) / den;
        assert(is_entry(outer, o, d, nb, db));
        assert(frac_le(nb, db, nc, dc));
        let s = KEY_SCALE as int;
        assert(nb * s * dc <= nc * s * db) by (nonlinear_arith)
            requires
                nb * dc <= nc * db,
                s > 0,
        ;
        assert(nb * s >= 0) by (nonlinear_arith)
            requires
                nb >= 0,
                s > 0,
        ;
        lemma_div_mono(nb * s, db, nc * s, dc);
    }
}

/// The entry key of a ray into a box is unique.
pub proof fn lemma_entry_key_unique(b: Aabb, o: Point3, d: Point3, r1: Option<u64>, r2: Option<u64>)
    requires
        entry_key(b, o, d, r1),
        entry_key(b, o, d, r2),
    ensures
        r1 == r2,
{
    if r1.is_some() {
        let (n1, d1) = choose|n: int, den: int| #[trigger] is_entry(b, o, d, n, den) && r1.unwrap() == n * (KEY_SCALE as int) / den;
        assert(is_entry(b, o, d, n1, d1));
        if r2.is_none() {
            assert(!ray_inside_at(b, o, d, n1, d1));
        }
    }
    if r2.is_some() {
        let (n2, d2) = choose|n: int, den: int| #[trigger] is_entry(b, o, d, n, den) && r2.unwrap() == n * (KEY_SCALE as int) / den;
        assert(is_entry(b, o, d, n2, d2));
        if r1.is_none() {
            assert(!ray_inside_at(b, o, d, n2, d2));
        } else {
            let (n1, d1) = choose|n: int, den: int| #[trigger] is_entry(b, o, d, n, den) && r1.unwrap() == n * (KEY_SCALE as int) / den;
            assert(is_entry(b, o, d, n1, d1));
            let s = KEY_SCALE as int;
            assert(frac_le(n1, d1, n2, d2) && frac_le(n2, d2, n1, d1));
            assert(n1 * s * d2 <= n2 * s * d1 && n2 * s * d1 <= n1 * s * d2) by (nonlinear_arith)
                requires
                    n1 * d2 <= n2 * d1,
                    n2 * d1 <= n1 * d2,
                    s > 0,
            ;
            assert(n1 * s >= 0 && n2 * s >= 0) by (nonlinear_arith)
                requires
                    n1 >= 0,
                    n2 >= 0,
                    s > 0,
            ;
            lemma_div_mono(n1 * s, d1, n2 * s, d2);
            lemma_div_mono(n2 * s, d2, n1 * s, d1);
        }
    }
}

impl Aabb {
    /// The key of where the ray `o + t d` enters the box, for the octree's
    /// queries; `None` when the ray never enters it.
    pub fn ray_key(&self, o: Point3, d: Point3) -> (r: Option<u64>)
        ensures
            entry_key(*self, o, d, r),
    {
        match self.ray_entry(o, d) {
            Some((n, den)) => {
                proof {
                    assert(n * 1048576 <= 0x1_0000_0000 * 1048576) by (nonlinear_arith)
                        requires
                            0 <= n <= 0x1_0000_0000,
                    ;
                    let ni = n as int;
                    let di = den as int;
                    assert((ni * 1048576) / di <= ni * 1048576) by (nonlinear_arith)
                        requires
                            ni >= 0,
                            di > 0,
                    ;
                }
                let k = ((n * 1048576) / den) as u64;
                proof {
                    assert(is_entry(*self, o, d, n as int, den as int));
                }
                Some(k)
            },
            None => None,
        }
    }
}

impl Aabb {
    /// Where the ray `o + t d`, `t >= 0`, enters the box: the least such
    /// `t` at which the ray lies inside the box, borders included, as the
    /// fraction `n / den` with `den > 0`; `None` when the ray never does.
    pub fn ray_entry(&self, o: Point3, d: Point3) -> (r: Option<(i128, i128)>)
        ensures
            r.is_some() ==> is_entry(*self, o, d, r.unwrap().0 as int, r.unwrap().1 as int)
                && r.unwrap().0 <= 0x1_0000_0000,
            r.is_none() ==> never_inside(*self, o, d),
    {
        let ax = axis_interval(self.min.x, self.max.x, o.x, d.x);
        let ay = axis_interval(self.min.y, self.max.y, o.y, d.y);
        let az = axis_interval(self.min.z, self.max.z, o.z, d.z);
        if ax.is_none() || ay.is_none() || az.is_none() {
            return None;
        }
        let mut ln: i128 = 0;
        let mut ld: i128 = 1;
        let mut bounded = false;
        let mut hn: i128 = 0;
        let mut hd: i128 = 1;
        let ghost b = *self;
        // Every parameter n / den >= 0 at which the ray lies within the axes
        // looked at so far is in the interval, and no other.
        proof {
            assert forall|n: int, den: int| den > 0 implies (#[trigger] in_interval(
                ln as int,
                ld as int,
                bounded,
                hn as int,
                hd as int,
                n,
                den,
            ) <==> n >= 0) by {
                assert(0 * den == 0 && n * 1 == n) by (nonlinear_arith);
            }
        }
        match ax.unwrap() {
            Some((a, bb, c, e)) => {
                let t = narrow(ln, ld, bounded, hn, hd, a, bb, c, e);
                ln = t.0;
                ld = t.1;
                bounded = t.2;
                hn = t.3;
                hd = t.4;
            },
            None => {},
        }
        let ghost sx = (ln, ld, bounded, hn, hd);
        proof {
            assert forall|n: int, den: int| den > 0 implies (#[trigger] in_interval(
                ln as int,
                ld as int,
                bounded,
                hn as int,
                hd as int,
                n,
                den,
            ) <==> (n >= 0 && within_axis(b.min.x as int, b.max.x as int, o.x as int, d.x as int, n, den))) by {
                assert(0 * den == 0 && n * 1 == n) by (nonlinear_arith);
            }
        }
        match ay.unwrap() {
            Some((a, bb, c, e)) => {
                let t = narrow(ln, ld, bounded, hn, hd, a, bb, c, e);
                ln = t.0;
                ld = t.1;
                bounded = t.2;
                hn = t.3;
                hd = t.4;
            },
            None => {},
        }
        proof {
            assert forall|n: int, den: int| den > 0 implies (#[trigger] in_interval(
                ln as int,
                ld as int,
                bounded,
                hn as int,
                hd as int,
                n,
                den,
            ) <==> (n >= 0 && within_axis(b.min.x as int, b.max.x as int, o.x as int, d.x as int, n, den)
                && within_axis(b.min.y as int, b.max.y as int, o.y as int, d.y as int, n, den))) by {
                assert(in_interval(sx.0 as int, sx.1 as int, sx.2, sx.3 as int, sx.4 as int, n, den)
                    <==> (n >= 0 && within_axis(b.min.x as int, b.max.x as int, o.x as int, d.x as int, n, den)));
            }
        }
        let ghost sy = (ln, ld, bounded, hn, hd);
        match az.unwrap() {
            Some((a, bb, c, e)) => {
                let t = narrow(ln, ld, bounded, hn, hd, a, bb, c, e);
                ln = t.0;
                ld = t.1;
                bounded = t.2;
                hn = t.3;
                hd = t.4;
            },
            None => {},
        }
        proof {
            assert forall|n: int, den: int| den > 0 implies (#[trigger] in_interval(
                ln as int,
                ld as int,
                bounded,
                hn as int,
                hd as int,
                n,
                den,
            ) <==> (n >= 0 && ray_inside_at(b, o, d, n, den))) by {
                assert(in_interval(sy.0 as int, sy.1 as int, sy.2, sy.3 as int, sy.4 as int, n, den)
                    <==> (n >= 0 && within_axis(b.min.x as int, b.max.x as int, o.x as int, d.x as int, n, den)
                && within_axis(b.min.y as int, b.max.y as int, o.y as int, d.y as int, n, den)));
            }
        }
        proof {
            assert(-0x1_0000_0000_0000_0000 <= ln * hd <= 0x1_0000_0000_0000_0000) by (nonlinear_arith)
                requires
                    -0x1_0000_0000 <= ln <= 0x1_0000_0000,
                    0 < hd <= 0x8000_0000,
            ;
            assert(-0x1_0000_0000_0000_0000 <= hn * ld <= 0x1_0000_0000_0000_0000) by (nonlinear_arith)
                requires
                    -0x1_0000_0000 <= hn <= 0x1_0000_0000,
                    0 < ld <= 0x8000_0000,
            ;
        }
        if bounded && ln * hd > hn * ld {
            proof {
                assert forall|n2: int, den2: int|
                    den2 > 0 && n2 >= 0 implies !#[trigger] ray_inside_at(b, o, d, n2, den2) by {
                    if ray_inside_at(b, o, d, n2, den2) {
                        assert(in_interval(ln as int, ld as int, bounded, hn as int, hd as int, n2, den2));
                        lemma_frac_trans(ln as int, ld as int, n2, den2, hn as int, hd as int);
                    }
                }
            }
            return None;
        }
        proof {
            assert(in_interval(ln as int, ld as int, bounded, hn as int, hd as int, ln as int, ld as int));
            assert forall|n2: int, den2: int|
                den2 > 0 && n2 >= 0 && #[trigger] ray_inside_at(b, o, d, n2, den2) implies frac_le(
                ln as int,
                ld as int,
                n2,
                den2,
            ) by {
                assert(in_interval(ln as int, ld as int, bounded, hn as int, hd as int, n2, den2));
            }
        }
        Some((ln, ld))
    }
}

/// A ray inside a box is inside every box that encloses it: so the ray
/// enters an enclosing box no later than the box it encloses.
pub proof fn lemma_inside_enclosing(outer: Aabb, inner: Aabb, o: Point3, d: Point3, n: int, den: int)
    requires
        den > 0,
        box_inside(outer, inner),
        ray_inside_at(inner, o, d, n, den),
    ensures
        ray_inside_at(outer, o, d, n, den),
{
    assert(outer.min.x * den <= inner.min.x * den && inner.max.x * den <= outer.max.x * den) by (nonlinear_arith)
        requires
            outer.min.x <= inner.min.x,
            inner.max.x <= outer.max.x,
            den > 0,
    ;
    assert(outer.min.y * den <= inner.min.y * den && inner.max.y * den <= outer.max.y * den) by (nonlinear_arith)
        requires
            outer.min.y <= inner.min.y,
            inner.max.y <= outer.max.y,
            den > 0,
    ;
    assert(outer.min.z * den <= inner.min.z * den && inner.max.z * den <= outer.max.z * den) by (nonlinear_arith)
        requires
            outer.min.z <= inner.min.z,
            inner.max.z <= outer.max.z,
            den > 0,
    ;
}

} // verus!
