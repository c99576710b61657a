//! Sets of points no two of which are closer than a minimum distance.
use vstd::prelude::*;

use crate::aabb::Point3;

verus! {

/// The squared distance between two grid points.
pub open spec fn dist_sq(a: Point3, b: Point3) -> int {
    (a.x - b.x) * (a.x - b.x) + (a.y - b.y) * (a.y - b.y) + (a.z - b.z) * (a.z - b.z)
}

/// Some point of `s` is closer to `p` than the square root of `min_sq`.
pub open spec fn has_near(s: Seq<Point3>, p: Point3, min_sq: int) -> bool {
    exists|i: int| 0 <= i < s.len() && dist_sq(#[trigger] s[i], p) < min_sq
}

/// No two points of `s` are closer than the square root of `min_sq`.
pub open spec fn spaced(s: Seq<Point3>, min_sq: int) -> bool {
    forall|i: int, j: int|
        0 <= i < s.len() && 0 <= j < s.len() && i != j ==> dist_sq(#[trigger] s[i], #[trigger] s[j])
            >= min_sq
}

proof fn lemma_dist_sq_symmetric(a: Point3, b: Point3)
    ensures
        dist_sq(a, b) == dist_sq(b, a),
{
    assert(dist_sq(a, b) == dist_sq(b, a)) by (nonlinear_arith);
}

/// Accepted points, in the order they were accepted.
pub struct PoissonSet {
    points: Vec<Point3>,
    min_dist_sq: u128,
}

fn sq_diff(a: i32, b: i32) -> (r: u128)
    ensures
        r == (a - b) * (a - b),
        r <= 0x1_0000_0000_0000_0000,
{
    let d: i64 = a as i64 - b as i64;
    let m: u64 = if d < 0 { (-d) as u64 } else { d as u64 };
    proof {
        assert(m * m <= 0x1_0000_0000_0000_0000) by (nonlinear_arith)
            requires
                m <= 0x1_0000_0000,
        ;
        assert(m * m == (a - b) * (a - b)) by (nonlinear_arith)
            requires
                m == d || m == -d,
                d == a - b,
        ;
    }
    m as u128 * m as u128
}

fn dist_sq_of(a: Point3, b: Point3) -> (r: u128)
    ensures
        r == dist_sq(a, b),
{
    sq_diff(a.x, b.x) + sq_diff(a.y, b.y) + sq_diff(a.z, b.z)
}

impl PoissonSet {
    /// The accepted points.
    pub closed spec fn view(&self) -> Seq<Point3> {
        self.points@
    }

    /// The square of the minimum distance.
    pub closed spec fn min_sq(&self) -> int {
        self.min_dist_sq as int
    }

    pub closed spec fn wf(&self) -> bool {
        spaced(self.points@, self.min_dist_sq as int)
    }

    /// An empty set for points at least `min_distance` grid units apart.
    pub fn new(min_distance: u32) -> (r: PoissonSet)
        ensures
            r.wf(),
            r.view().len() == 0,
            r.min_sq() == min_distance * min_distance,
    {
        proof {
            assert(min_distance * min_distance <= 0xffff_ffff * 0xffff_ffff) by (nonlinear_arith)
                requires
                    min_distance <= 0xffff_ffff,
            ;
        }
        PoissonSet {
            points: Vec::new(),
            min_dist_sq: min_distance as u128 * min_distance as u128,
        }
    }

    /// Whether an accepted point is closer to `p` than the minimum distance.
    pub fn has_neighbor_in_range(&self, p: &Point3) -> (r: bool)
        ensures
            r == has_near(self.view(), *p, self.min_sq()),
    {
        let mut i: usize = 0;
        while i < self.points.len()
            invariant
                i <= self.points@.len(),
                forall|k: int| 0 <= k < i ==> dist_sq(#[trigger] self.points@[k], *p) >= self.min_dist_sq,
            decreases self.points@.len() - i,
        {
            if dist_sq_of(self.points[i], *p) < self.min_dist_sq {
                assert(dist_sq(self.points@[i as int], *p) < self.min_dist_sq);
                return true;
            }
            i = i + 1;
        }
        false
    }

    /// Accepts `p` when no accepted point is closer to it than the minimum
    /// distance, and says whether it did.
    pub fn try_insert(&mut self, p: Point3) -> (accepted: bool)
        requires
            old(self).wf(),
        ensures
            final(self).wf(),
            final(self).min_sq() == old(self).min_sq(),
            accepted == !has_near(old(self).view(), p, old(self).min_sq()),
            accepted ==> final(self).view() == old(self).view().push(p),
            !accepted ==> final(self).view() == old(self).view(),
    {
        if self.has_neighbor_in_range(&p) {
            return false;
        }
        let ghost before = self.points@;
        self.points.push(p);
        proof {
            let s = self.points@;
            let m = self.min_dist_sq as int;
            assert forall|i: int, j: int|
                0 <= i < s.len() && 0 <= j < s.len() && i != j implies dist_sq(
                #[trigger] s[i],
                #[trigger] s[j],
            ) >= m by {
                if i == before.len() as int {
                    assert(!(dist_sq(before[j], p) < m));
                    lemma_dist_sq_symmetric(p, before[j]);
                } else if j == before.len() as int {
                    assert(!(dist_sq(before[i], p) < m));
                } else {
                    assert(s[i] == before[i] && s[j] == before[j]);
                }
            }
        }
        true
    }

    pub fn len(&self) -> (r: usize)
        ensures
            r == self.view().len(),
    {
        self.points.len()
    }

    pub fn point(&self, i: usize) -> (r: Point3)
        requires
            i < self.view().len(),
        ensures
            r == self.view()[i as int],
    {
        self.points[i]
    }
}

/// Minimum distance: any two points of a set are at least the minimum
/// distance apart.
pub proof fn lemma_min_distance(set: &PoissonSet, i: int, j: int)
    requires
        set.wf(),
        0 <= i < set.view().len(),
        0 <= j < set.view().len(),
        i != j,
    ensures
        dist_sq(set.view()[i], set.view()[j]) >= set.min_sq(),
{
}

} // verus!
