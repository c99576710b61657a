//! Area-weighted selection of triangles, binned by area.
//!
//! Areas are counted in integral area units. Bin `k` holds the items whose
//! area `a` satisfies `a * 2^k <= max < a * 2^(k+1)`, where `max` is the
//! largest area of the items the bins were made from. Adding and taking away
//! integers keeps the per-bin totals exact over any number of updates.
use vstd::prelude::*;

use crate::random::random_below;

verus! {

/// How often a bin is sampled by rejection before it is scanned instead.
pub const REJECTION_ATTEMPTS: u32 = 64;

pub open spec fn sum_seq(s: Seq<u64>) -> int
    decreases s.len(),
{
    if s.len() == 0 {
        0
    } else {
        sum_seq(s.drop_last()) + s.last()
    }
}

/// The total of the area units of the entries.
pub open spec fn sum_units<T>(s: Seq<(T, u64)>) -> int
    decreases s.len(),
{
    if s.len() == 0 {
        0
    } else {
        sum_units(s.drop_last()) + s.last().1
    }
}

/// The index of the bin for an item of `units` area units when the largest
/// item has `max` units: the largest `k` with `units * 2^k <= max`.
pub open spec fn bin_of(max: int, units: int) -> int
    decreases max - units,
{
    if units <= 0 || 2 * units > max {
        0
    } else {
        1 + bin_of(max, 2 * units)
    }
}

/// Whether an entry belongs into bin `k`.
pub open spec fn in_bin<T>(max: int, k: int, e: (T, u64)) -> bool {
    e.1 > 0 && e.1 <= max && bin_of(max, e.1 as int) == k
}

/// The largest area of the entries, 0 for none.
pub open spec fn max_units<T>(s: Seq<(T, u64)>) -> int
    decreases s.len(),
{
    if s.len() == 0 {
        0
    } else {
        let m = max_units(s.drop_last());
        if s.last().1 > m { s.last().1 as int } else { m }
    }
}

pub open spec fn bin_max_of(max: int, k: int) -> int
    decreases k,
{
    if k <= 0 {
        max
    } else {
        bin_max_of(max, k - 1) / 2
    }
}

proof fn lemma_sum_seq_update(s: Seq<u64>, i: int, v: u64)
    requires
        0 <= i < s.len(),
    ensures
        sum_seq(s.update(i, v)) == sum_seq(s) - s[i] + v,
    decreases s.len(),
{
    if i == s.len() - 1 {
        assert(s.update(i, v).drop_last() =~= s.drop_last());
    } else {
        lemma_sum_seq_update(s.drop_last(), i, v);
        assert(s.update(i, v).drop_last() =~= s.drop_last().update(i, v));
    }
}

proof fn lemma_sum_seq_bound(s: Seq<u64>, i: int)
    requires
        0 <= i < s.len(),
    ensures
        0 <= s[i] <= sum_seq(s),
        0 <= sum_seq(s),
    decreases s.len(),
{
    lemma_sum_seq_nonneg(s.drop_last());
    if i < s.len() - 1 {
        lemma_sum_seq_bound(s.drop_last(), i);
    }
}

proof fn lemma_sum_seq_nonneg(s: Seq<u64>)
    ensures
        0 <= sum_seq(s),
    decreases s.len(),
{
    if s.len() > 0 {
        lemma_sum_seq_nonneg(s.drop_last());
    }
}

proof fn lemma_sum_units_nonneg<T>(s: Seq<(T, u64)>)
    ensures
        0 <= sum_units(s),
    decreases s.len(),
{
    if s.len() > 0 {
        lemma_sum_units_nonneg(s.drop_last());
    }
}

proof fn lemma_sum_units_push<T>(s: Seq<(T, u64)>, v: (T, u64))
    ensures
        sum_units(s.push(v)) == sum_units(s) + v.1,
{
    assert(s.push(v).drop_last() =~= s);
}

proof fn lemma_sum_units_update<T>(s: Seq<(T, u64)>, i: int, v: (T, u64))
    requires
        0 <= i < s.len(),
    ensures
        sum_units(s.update(i, v)) == sum_units(s) - s[i].1 + v.1,
    decreases s.len(),
{
    if i == s.len() - 1 {
        assert(s.update(i, v).drop_last() =~= s.drop_last());
    } else {
        lemma_sum_units_update(s.drop_last(), i, v);
        assert(s.update(i, v).drop_last() =~= s.drop_last().update(i, v));
    }
}

proof fn lemma_sum_units_swap_remove<T>(s: Seq<(T, u64)>, i: int)
    requires
        0 <= i < s.len(),
    ensures
        sum_units(s.update(i, s.last()).drop_last()) == sum_units(s) - s[i].1,
{
    lemma_sum_units_update(s, i, s.last());
    let t = s.update(i, s.last());
    assert(t.last() == s.last());
}

proof fn lemma_sum_units_positive<T>(s: Seq<(T, u64)>)
    requires
        s.len() > 0,
        forall|j: int| 0 <= j < s.len() ==> (#[trigger] s[j]).1 > 0,
    ensures
        sum_units(s) > 0,
{
    lemma_sum_units_nonneg(s.drop_last());
}

proof fn lemma_sum_units_elem<T>(s: Seq<(T, u64)>, i: int)
    requires
        0 <= i < s.len(),
    ensures
        s[i].1 <= sum_units(s),
    decreases s.len(),
{
    lemma_sum_units_nonneg(s.drop_last());
    if i < s.len() - 1 {
        lemma_sum_units_elem(s.drop_last(), i);
    }
}

proof fn lemma_sum_units_prefix<T>(s: Seq<(T, u64)>, i: int)
    requires
        0 <= i <= s.len(),
    ensures
        sum_units(s.subrange(0, i)) <= sum_units(s),
    decreases s.len(),
{
    if i < s.len() {
        assert(s.drop_last().subrange(0, i) =~= s.subrange(0, i));
        lemma_sum_units_prefix(s.drop_last(), i);
    } else {
        assert(s.subrange(0, i) =~= s);
    }
}

proof fn lemma_bin_of_bound(max: int, u: int)
    requires
        0 < u <= max,
    ensures
        u <= bin_max_of(max, bin_of(max, u)),
        0 <= bin_of(max, u),
    decreases max - u,
{
    if 2 * u <= max {
        lemma_bin_of_bound(max, 2 * u);
        let k = bin_of(max, 2 * u);
        assert(bin_of(max, u) == k + 1);
        assert(bin_max_of(max, k + 1) == bin_max_of(max, k) / 2);
    }
}

/// The entries of `s` that belong into bin `k`, in order.
pub open spec fn binned<T>(s: Seq<(T, u64)>, max: int, k: int) -> Seq<(T, u64)>
    decreases s.len(),
{
    if s.len() == 0 {
        Seq::empty()
    } else {
        let b = binned(s.drop_last(), max, k);
        if in_bin(max, k, s.last()) {
            b.push(s.last())
        } else {
            b
        }
    }
}

/// The bin index for an item of `units` area units when the largest has
/// `max`.
pub fn bin_idx_by_area(max: u64, units: u64) -> (r: u64)
    requires
        0 < units <= max,
    ensures
        r == bin_of(max as int, units as int),
{
    let mut k: u64 = 0;
    let mut u: u64 = units;
    while u <= max / 2
        invariant
            0 < u <= max,
            units <= u,
            k <= u - units,
            bin_of(max as int, units as int) == k + bin_of(max as int, u as int),
        decreases max - u,
    {
        u = u * 2;
        k = k + 1;
    }
    k
}

/// The number of entries of all bins.
pub open spec fn entry_count<T>(c: Seq<Seq<(T, u64)>>) -> int
    decreases c.len(),
{
    if c.len() == 0 {
        0
    } else {
        entry_count(c.drop_last()) + c.last().len()
    }
}

/// The area units of the entries of all bins.
pub open spec fn area_total<T>(c: Seq<Seq<(T, u64)>>) -> int
    decreases c.len(),
{
    if c.len() == 0 {
        0
    } else {
        area_total(c.drop_last()) + sum_units(c.last())
    }
}

proof fn lemma_entry_count<T>(v: Seq<Vec<(T, u64)>>)
    ensures
        crate::octree::total_len(v) == entry_count(v.map_values(|b: Vec<(T, u64)>| b@)),
    decreases v.len(),
{
    if v.len() > 0 {
        lemma_entry_count(v.drop_last());
        assert(v.drop_last().map_values(|b: Vec<(T, u64)>| b@) =~= v.map_values(
            |b: Vec<(T, u64)>| b@,
        ).drop_last());
    }
}

proof fn lemma_area_total<T>(a: Seq<u64>, c: Seq<Seq<(T, u64)>>)
    requires
        a.len() == c.len(),
        forall|k: int| 0 <= k < a.len() ==> #[trigger] a[k] == sum_units(c[k]),
    ensures
        sum_seq(a) == area_total(c),
    decreases a.len(),
{
    if a.len() > 0 {
        lemma_area_total(a.drop_last(), c.drop_last());
    }
}

/// The entries of all bins, their area units, and the per-bin bounds that
/// make the bins.
pub struct TriangleBins<T> {
    bins: Vec<Vec<(T, u64)>>,
    /// The area units of each bin; their sum is `bin_areas_sum`.
    bin_areas: Vec<u64>,
    bin_areas_sum: u64,
    /// The largest area an entry of each bin may have.
    bin_max_areas: Vec<u64>,
    triangle_count: usize,
}

impl<T> TriangleBins<T> {
    /// The entries of each bin, in order.
    pub closed spec fn contents(&self) -> Seq<Seq<(T, u64)>> {
        self.bins@.map_values(|b: Vec<(T, u64)>| b@)
    }

    /// The largest area an entry of bin `k` may have.
    pub closed spec fn bin_max(&self, k: int) -> int {
        self.bin_max_areas@[k] as int
    }

    /// The area units of bin `k`.
    pub closed spec fn bin_area(&self, k: int) -> int {
        self.bin_areas@[k] as int
    }

    /// The area units of all bins.
    pub closed spec fn area_sum(&self) -> int {
        self.bin_areas_sum as int
    }

    pub closed spec fn count(&self) -> int {
        self.triangle_count as int
    }

    pub closed spec fn wf(&self) -> bool {
        &&& self.bins@.len() > 0
        &&& self.bin_areas@.len() == self.bins@.len()
        &&& self.bin_max_areas@.len() == self.bins@.len()
        &&& forall|k: int|
            0 <= k < self.bins@.len() ==> #[trigger] self.bin_areas@[k] == sum_units(
                self.bins@[k]@,
            )
        &&& forall|k: int, j: int|
            0 <= k < self.bins@.len() && 0 <= j < self.bins@[k]@.len() ==> 0 < (
            #[trigger] self.bins@[k]@[j]).1 <= self.bin_max_areas@[k]
        &&& forall|k: int|
            0 <= k < self.bins@.len() ==> #[trigger] self.bin_max_areas@[k] == bin_max_of(
                self.bin_max_areas@[0] as int,
                k,
            )
        &&& self.bin_areas_sum == sum_seq(self.bin_areas@)
        &&& self.triangle_count == crate::octree::total_len(self.bins@)
    }

    /// What the invariant says of the bins, over their contents: the count
    /// is the number of entries, each bin's area units are the units of its
    /// entries, the total is the units of all entries, every entry has area
    /// and fits its bin, and the bounds halve from bin to bin.
    pub open spec fn consistent(&self) -> bool {
        &&& self.contents().len() > 0
        &&& self.count() == entry_count(self.contents())
        &&& self.area_sum() == area_total(self.contents())
        &&& forall|k: int|
            0 <= k < self.contents().len() ==> #[trigger] self.bin_area(k) == sum_units(
                self.contents()[k],
            )
        &&& forall|k: int, j: int|
            0 <= k < self.contents().len() && 0 <= j < self.contents()[k].len() ==> 0 < (
            #[trigger] self.contents()[k][j]).1 <= self.bin_max(k)
        &&& forall|k: int|
            0 <= k < self.contents().len() ==> #[trigger] self.bin_max(k) == bin_max_of(
                self.bin_max(0),
                k,
            )
    }

    proof fn lemma_consistent(&self)
        requires
            self.wf(),
        ensures
            self.consistent(),
    {
        lemma_entry_count(self.bins@);
        lemma_area_total(self.bin_areas@, self.contents());
        assert forall|k: int, j: int|
            0 <= k < self.contents().len() && 0 <= j < self.contents()[k].len() implies 0 < (
            #[trigger] self.contents()[k][j]).1 <= self.bin_max(k) by {
            assert(self.contents()[k] == self.bins@[k]@);
            assert(self.bins@[k]@[j] == self.contents()[k][j]);
        }
        assert forall|k: int| 0 <= k < self.contents().len() implies #[trigger] self.bin_area(k)
            == sum_units(self.contents()[k]) by {
            assert(self.contents()[k] == self.bins@[k]@);
        }
    }
}

impl<T> TriangleBins<T> {
    /// The number of bins.
    pub fn bin_count(&self) -> (r: usize)
        requires
            self.wf(),
        ensures
            r == self.contents().len(),
    {
        self.bins.len()
    }

    /// The number of entries in all bins.
    pub fn triangle_count(&self) -> (r: usize)
        requires
            self.wf(),
        ensures
            r == self.count(),
    {
        self.triangle_count
    }

    /// The largest area an entry of the first bin may have.
    pub fn max_units(&self) -> (r: u64)
        requires
            self.wf(),
        ensures
            r == self.bin_max(0),
    {
        self.bin_max_areas[0]
    }

    /// The area units of all bins together.
    pub fn area_units(&self) -> (r: u64)
        requires
            self.wf(),
        ensures
            r == self.area_sum(),
    {
        self.bin_areas_sum
    }

    /// Adds an entry of `units` area units to the bin that its area selects,
    /// or drops it when it has no area or that bin index is past the last
    /// bin.
    pub fn push(&mut self, item: T, units: u64)
        requires
            old(self).wf(),
            units <= old(self).bin_max(0),
            old(self).area_sum() + units <= u64::MAX,
            old(self).count() < usize::MAX,
        ensures
            final(self).wf(),
            final(self).consistent(),
            final(self).bin_max(0) == old(self).bin_max(0),
            ({
                let k = bin_of(old(self).bin_max(0), units as int);
                if units > 0 && k < old(self).contents().len() {
                    &&& final(self).contents() == old(self).contents().update(
                        k,
                        old(self).contents()[k].push((item, units)),
                    )
                    &&& final(self).bin_area(k) == old(self).bin_area(k) + units
                    &&& final(self).area_sum() == old(self).area_sum() + units
                    &&& final(self).count() == old(self).count() + 1
                } else {
                    &&& final(self).contents() == old(self).contents()
                    &&& final(self).area_sum() == old(self).area_sum()
                    &&& final(self).count() == old(self).count()
                }
            }),
    {
        if units == 0 {
            proof {
                self.lemma_consistent();
            }
            return;
        }
        let max0 = self.bin_max_areas[0];
        let k = bin_idx_by_area(max0, units);
        if k < self.bins.len() as u64 {
            let k = k as usize;
            proof {
                lemma_bin_of_bound(max0 as int, units as int);
                lemma_sum_seq_bound(self.bin_areas@, k as int);
            }
            let ghost old_bins = self.bins@;
            let ghost old_areas = self.bin_areas@;
            self.bins[k].push((item, units));
            let a = self.bin_areas[k];
            self.bin_areas.set(k, a + units);
            self.bin_areas_sum = self.bin_areas_sum + units;
            self.triangle_count = self.triangle_count + 1;
            proof {
                lemma_sum_units_push(old_bins[k as int]@, (item, units));
                lemma_sum_seq_update(old_areas, k as int, (a + units) as u64);
                assert(self.bins@ =~= old_bins.update(k as int, self.bins@[k as int]));
                crate::octree::lemma_total_len_update(old_bins, k as int, self.bins@[k as int]);
                assert(self.contents() =~= old(self).contents().update(
                    k as int,
                    old(self).contents()[k as int].push((item, units)),
                ));
                assert forall|i: int, j: int|
                    0 <= i < self.bins@.len() && 0 <= j < self.bins@[i]@.len() implies 0 < (
                    #[trigger] self.bins@[i]@[j]).1 <= self.bin_max_areas@[i] by {
                    if i == k {
                        if j < old_bins[i]@.len() {
                            assert(self.bins@[i]@[j] == old_bins[i]@[j]);
                        }
                    } else {
                        assert(self.bins@[i] == old_bins[i]);
                    }
                }
            }
        }
        proof {
            self.lemma_consistent();
        }
    }

    /// Removes entry `p` of bin `k`: the last entry of the bin takes its
    /// place.
    fn take(&mut self, k: usize, p: usize) -> (r: T)
        requires
            old(self).wf(),
            k < old(self).contents().len(),
            p < old(self).contents()[k as int].len(),
        ensures
            final(self).wf(),
            final(self).bin_max(0) == old(self).bin_max(0),
            r == old(self).contents()[k as int][p as int].0,
            final(self).contents() == old(self).contents().update(
                k as int,
                old(self).contents()[k as int].update(
                    p as int,
                    old(self).contents()[k as int].last(),
                ).drop_last(),
            ),
            final(self).area_sum() == old(self).area_sum() - old(self).contents()[k as int][p as int].1,
            final(self).bin_area(k as int) == old(self).bin_area(k as int) - old(self).contents()[k as int][p as int].1,
            final(self).count() == old(self).count() - 1,
    {
        let ghost old_bins = self.bins@;
        let ghost old_areas = self.bin_areas@;
        proof {
            assert(self.contents()[k as int] == old_bins[k as int]@);
            lemma_sum_units_elem(old_bins[k as int]@, p as int);
            lemma_sum_seq_bound(old_areas, k as int);
            crate::octree::lemma_total_len_elem(old_bins, k as int);
        }
        let (item, units) = self.bins[k].swap_remove(p);
        let a = self.bin_areas[k];
        self.bin_areas.set(k, a - units);
        self.bin_areas_sum = self.bin_areas_sum - units;
        self.triangle_count = self.triangle_count - 1;
        proof {
            lemma_sum_units_swap_remove(old_bins[k as int]@, p as int);
            lemma_sum_seq_update(old_areas, k as int, (a - units) as u64);
            assert(self.bins@ =~= old_bins.update(k as int, self.bins@[k as int]));
            crate::octree::lemma_total_len_update(old_bins, k as int, self.bins@[k as int]);
            assert(self.contents() =~= old(self).contents().update(
                k as int,
                old(self).contents()[k as int].update(
                    p as int,
                    old(self).contents()[k as int].last(),
                ).drop_last(),
            ));
            assert forall|i: int, j: int|
                0 <= i < self.bins@.len() && 0 <= j < self.bins@[i]@.len() implies 0 < (
                #[trigger] self.bins@[i]@[j]).1 <= self.bin_max_areas@[i] by {
                if i == k {
                    let ob = old_bins[i]@;
                    if j == p {
                        assert(self.bins@[i]@[j] == ob[ob.len() - 1]);
                    } else {
                        assert(self.bins@[i]@[j] == ob[j]);
                    }
                } else {
                    assert(self.bins@[i] == old_bins[i]);
                }
            }
        }
        item
    }
}

impl<T> TriangleBins<T> {
    /// The area units of the bins before bin `k`.
    pub closed spec fn area_before(&self, k: int) -> int {
        sum_seq(self.bin_areas@.subrange(0, k))
    }

    /// Picks the bin into whose share of the area units `r` falls: the bin
    /// `k` with `area_before(k) <= r < area_before(k + 1)`. Drawing `r`
    /// uniformly below `area_sum` picks each bin with a chance proportional
    /// to its area.
    pub fn pick_bin(&self, r: u64) -> (k: usize)
        requires
            self.wf(),
            r < self.area_sum(),
        ensures
            k < self.contents().len(),
            self.area_before(k as int) <= r < self.area_before(k as int + 1),
            self.area_before(k as int + 1) == self.area_before(k as int) + self.bin_area(k as int),
            self.contents()[k as int].len() > 0,
    {
        let mut rest: u64 = r;
        let mut i: usize = 0;
        while i < self.bin_areas.len()
            invariant
                self.wf(),
                i <= self.bin_areas.len(),
                rest == r - sum_seq(self.bin_areas@.subrange(0, i as int)),
                sum_seq(self.bin_areas@.subrange(0, i as int)) <= r,
            decreases self.bin_areas.len() - i,
        {
            let a = self.bin_areas[i];
            assert(self.bin_areas@.subrange(0, i + 1).drop_last() =~= self.bin_areas@.subrange(
                0,
                i as int,
            ));
            if rest < a {
                proof {
                    if self.bins@[i as int]@.len() == 0 {
                        assert(sum_units(self.bins@[i as int]@) == 0);
                    }
                }
                return i;
            }
            rest = rest - a;
            i = i + 1;
        }
        assert(self.bin_areas@.subrange(0, i as int) =~= self.bin_areas@);
        i
    }

    /// The area units of the first `p` entries of bin `k`.
    pub closed spec fn units_before(&self, k: int, p: int) -> int {
        sum_units(self.bins@[k]@.subrange(0, p))
    }

    /// Picks the entry of bin `k` into whose share of the bin's area units
    /// `r` falls: the entry `p` with
    /// `units_before(k, p) <= r < units_before(k, p + 1)`.
    pub fn pick_in_bin(&self, k: usize, r: u64) -> (p: usize)
        requires
            self.wf(),
            k < self.contents().len(),
            r < self.bin_area(k as int),
        ensures
            p < self.contents()[k as int].len(),
            self.units_before(k as int, p as int) <= r < self.units_before(k as int, p as int + 1),
    {
        let bin = &self.bins[k];
        let mut rest: u64 = r;
        let mut i: usize = 0;
        while i < bin.len()
            invariant
                self.wf(),
                k < self.bins@.len(),
                *bin == self.bins@[k as int],
                i <= bin.len(),
                rest == r - sum_units(bin@.subrange(0, i as int)),
                sum_units(bin@.subrange(0, i as int)) <= r,
            decreases bin.len() - i,
        {
            let a = bin[i].1;
            assert(bin@.subrange(0, i + 1).drop_last() =~= bin@.subrange(0, i as int));
            if rest < a {
                return i;
            }
            rest = rest - a;
            i = i + 1;
        }
        assert(bin@.subrange(0, i as int) =~= bin@);
        i
    }

    /// The rejection step within bin `k`: entry `p` is accepted for a draw
    /// out of `0..bin_max(k)` when the draw falls below the entry's area
    /// units, a chance of its area over the bin's bound.
    pub fn accepts(&self, k: usize, p: usize, draw: u64) -> (r: bool)
        requires
            self.wf(),
            k < self.contents().len(),
            p < self.contents()[k as int].len(),
        ensures
            r == (draw < self.contents()[k as int][p as int].1),
    {
        draw < self.bins[k][p].1
    }

    /// Chooses an entry at random, with a chance proportional to its area:
    /// first a bin by its area, then within the bin by rejection, accepting
    /// an entry with a chance of its area over the bin's bound. Should every
    /// attempt be rejected, the bin's area units are scanned instead.
    fn choose_entry(&self) -> (r: (usize, usize))
        requires
            self.wf(),
            self.area_sum() > 0,
        ensures
            r.0 < self.contents().len(),
            r.1 < self.contents()[r.0 as int].len(),
    {
        let k = self.pick_bin(random_below(self.bin_areas_sum));
        let len = self.bins[k].len();
        let bound = self.bin_max_areas[k];
        proof {
            assert(self.bins@[k as int]@[0].1 <= bound);
        }
        let mut attempts: u32 = 0;
        while attempts < REJECTION_ATTEMPTS
            invariant
                self.wf(),
                k < self.bins@.len(),
                len == self.bins@[k as int]@.len(),
                len > 0,
                bound > 0,
            decreases REJECTION_ATTEMPTS - attempts,
        {
            let p = random_below(len as u64) as usize;
            if self.accepts(k, p, random_below(bound)) {
                return (k, p);
            }
            attempts = attempts + 1;
        }
        proof {
            lemma_sum_units_positive(self.bins@[k as int]@);
        }
        let p = self.pick_in_bin(k, random_below(self.bin_areas[k]));
        (k, p)
    }

    /// Removes an entry chosen at random with a chance proportional to its
    /// area, and returns it.
    pub fn sample_triangle(&mut self) -> (r: T)
        requires
            old(self).wf(),
            old(self).area_sum() > 0,
        ensures
            final(self).wf(),
            final(self).consistent(),
            final(self).bin_max(0) == old(self).bin_max(0),
            final(self).count() == old(self).count() - 1,
            exists|k: int, p: int|
                0 <= k < old(self).contents().len() && 0 <= p < old(self).contents()[k].len()
                    && r == old(self).contents()[k][p].0 && final(self).contents() == old(
                    self,
                ).contents().update(
                    k,
                    old(self).contents()[k].update(p, old(self).contents()[k].last()).drop_last(),
                ) && final(self).area_sum() == old(self).area_sum() - old(self).contents()[k][p].1
                    && final(self).bin_area(k) == old(self).bin_area(k) - old(self).contents()[k][p].1,
    {
        let (k, p) = self.choose_entry();
        let r = self.take(k, p);
        proof {
            self.lemma_consistent();
        }
        r
    }

    /// An entry chosen at random with a chance proportional to its area; the
    /// bins are left as they are.
    pub fn sample(&self) -> (r: &T)
        requires
            self.wf(),
            self.area_sum() > 0,
        ensures
            exists|k: int, p: int|
                0 <= k < self.contents().len() && 0 <= p < self.contents()[k].len() && *r
                    == self.contents()[k][p].0,
    {
        let (k, p) = self.choose_entry();
        &self.bins[k][p].0
    }
}

proof fn lemma_max_units_elem<T>(s: Seq<(T, u64)>, i: int)
    requires
        0 <= i < s.len(),
    ensures
        s[i].1 <= max_units(s),
    decreases s.len(),
{
    if i < s.len() - 1 {
        lemma_max_units_elem(s.drop_last(), i);
    }
}

proof fn lemma_sum_seq_zeros(s: Seq<u64>)
    requires
        forall|m: int| 0 <= m < s.len() ==> #[trigger] s[m] == 0,
    ensures
        sum_seq(s) == 0,
    decreases s.len(),
{
    if s.len() > 0 {
        lemma_sum_seq_zeros(s.drop_last());
    }
}

impl<T> TriangleBins<T> {
    /// Bins the items, each given with its area units, into `bin_count`
    /// bins by the largest area among them. Items of no area, and items too
    /// small for the last bin, are left out.
    pub fn new(items: Vec<(T, u64)>, bin_count: usize) -> (r: TriangleBins<T>)
        requires
            bin_count > 0,
            sum_units(items@) <= u64::MAX,
        ensures
            r.wf(),
            r.consistent(),
            r.contents().len() == bin_count,
            r.bin_max(0) == max_units(items@),
            forall|k: int|
                0 <= k < bin_count ==> #[trigger] r.contents()[k] == binned(
                    items@,
                    max_units(items@),
                    k,
                ),
    {
        let ghost all = items@;
        let n = items.len();
        let mut max: u64 = 0;
        let mut i: usize = 0;
        while i < n
            invariant
                n == items@.len(),
                i <= n,
                max == max_units(items@.subrange(0, i as int)),
            decreases n - i,
        {
            assert(items@.subrange(0, i + 1).drop_last() =~= items@.subrange(0, i as int));
            if items[i].1 > max {
                max = items[i].1;
            }
            i = i + 1;
        }
        assert(items@.subrange(0, n as int) =~= items@);
        let mut bins: Vec<Vec<(T, u64)>> = Vec::new();
        let mut bin_areas: Vec<u64> = Vec::new();
        let mut bin_max_areas: Vec<u64> = Vec::new();
        let mut cur: u64 = max;
        let mut k: usize = 0;
        while k < bin_count
            invariant
                k <= bin_count,
                bins@.len() == k,
                bin_areas@.len() == k,
                bin_max_areas@.len() == k,
                cur == bin_max_of(max as int, k as int),
                forall|j: int| 0 <= j < k ==> #[trigger] bins@[j]@.len() == 0,
                forall|j: int| 0 <= j < k ==> #[trigger] bin_areas@[j] == 0,
                forall|j: int|
                    0 <= j < k ==> #[trigger] bin_max_areas@[j] == bin_max_of(max as int, j),
            decreases bin_count - k,
        {
            bins.push(Vec::new());
            bin_areas.push(0);
            bin_max_areas.push(cur);
            cur = cur / 2;
            k = k + 1;
        }
        proof {
            lemma_sum_seq_zeros(bin_areas@);
            crate::octree::lemma_total_len_all_empty(bins@);
            assert forall|j: int| 0 <= j < bins@.len() implies #[trigger] bin_areas@[j]
                == sum_units(bins@[j]@) by {
                assert(bins@[j]@.len() == 0);
            }
        }
        let mut r = TriangleBins {
            bins,
            bin_areas,
            bin_areas_sum: 0,
            bin_max_areas,
            triangle_count: 0,
        };
        proof {
            assert forall|j: int| 0 <= j < bin_count implies #[trigger] r.contents()[j] == binned(
                all.subrange(0, 0),
                max as int,
                j,
            ) by {
                assert(r.contents()[j] =~= Seq::<(T, u64)>::empty());
            }
        }
        let mut rest = items;
        let mut pending: Vec<(T, u64)> = Vec::new();
        while rest.len() > 0
            invariant
                rest@.len() + pending@.len() == n,
                n == all.len(),
                rest@ == all.subrange(0, rest@.len() as int),
                forall|j: int| 0 <= j < pending@.len() ==> #[trigger] pending@[j] == all[n - 1 - j],
            decreases rest.len(),
        {
            let e = rest.pop().unwrap();
            pending.push(e);
        }
        let mut i: usize = 0;
        while pending.len() > 0
            invariant
                r.wf(),
                n == all.len(),
                i + pending@.len() == n,
                r.contents().len() == bin_count,
                r.bin_max(0) == max,
                max == max_units(all),
                sum_units(all) <= u64::MAX,
                r.area_sum() <= sum_units(all.subrange(0, i as int)),
                r.count() <= i,
                forall|j: int| 0 <= j < pending@.len() ==> #[trigger] pending@[j] == all[n - 1 - j],
                forall|j: int|
                    0 <= j < bin_count ==> #[trigger] r.contents()[j] == binned(
                        all.subrange(0, i as int),
                        max as int,
                        j,
                    ),
            decreases pending.len(),
        {
            let e = pending.pop().unwrap();
            let ghost old_contents = r.contents();
            proof {
                assert(e == all[i as int]);
                assert(all.subrange(0, i + 1).drop_last() =~= all.subrange(0, i as int));
                assert(all.subrange(0, i + 1).last() == all[i as int]);
                lemma_max_units_elem(all, i as int);
                lemma_sum_units_prefix(all, i + 1);
            }
            let (item, units) = e;
            if units > 0 {
                proof {
                    lemma_bin_of_bound(max as int, units as int);
                }
                r.push(item, units);
            }
            proof {
                let s = all.subrange(0, i + 1);
                assert forall|j: int| 0 <= j < bin_count implies #[trigger] r.contents()[j]
                    == binned(s, max as int, j) by {
                    assert(s.drop_last() =~= all.subrange(0, i as int));
                    assert(old_contents[j] == binned(s.drop_last(), max as int, j));
                    if units > 0 {
                        let k = bin_of(max as int, units as int);
                        if j == k && k < bin_count {
                            assert(r.contents()[j] == old_contents[j].push((item, units)));
                        } else {
                            assert(r.contents()[j] == old_contents[j]);
                        }
                    }
                }
            }
            i = i + 1;
        }
        proof {
            r.lemma_consistent();
        }
        r
    }
}

} // verus!
