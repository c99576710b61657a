//! Octrees over objects that occupy a box of space.
//!
//! The tree is stored as an arena: a vector of nodes in which every child
//! stands before its parent, and the root stands last.
use vstd::prelude::*;
use vstd::multiset::Multiset;

use crate::aabb::{
    Aabb, divisible, extent_sum, extent_x, octant_of, union_of, box_inside, volume_of,
    lemma_octant_inside, lemma_inside_trans, lemma_union_encloses, proper, Point3, entry_key,
    lemma_entry_keys_agree, lemma_entry_key_unique,
};

verus! {

/// Something that occupies a box of space.
pub trait Spatial {
    spec fn spec_bounds(&self) -> Aabb;

    /// The axis-aligned box that encloses the object.
    fn bounds(&self) -> (r: Aabb)
        ensures
            r == self.spec_bounds(),
    ;
}

impl Spatial for Aabb {
    open spec fn spec_bounds(&self) -> Aabb {
        *self
    }

    fn bounds(&self) -> (r: Aabb) {
        *self
    }
}

/// An element known by its index into a list held elsewhere, with its box.
#[derive(Clone, Copy, Debug, PartialEq, Eq, Structural)]
pub struct Indexed {
    pub bounds: Aabb,
    pub index: usize,
}

impl Spatial for Indexed {
    open spec fn spec_bounds(&self) -> Aabb {
        self.bounds
    }

    fn bounds(&self) -> (r: Aabb) {
        self.bounds
    }
}

/// A node of an octree: its box, the elements that fit into none of its
/// octants, and the arena index of the child node for each octant that
/// holds something.
pub struct OctreeNode<T> {
    pub bounds: Aabb,
    pub data: Vec<T>,
    pub children: Vec<Option<usize>>,
}

/// An octree held as an arena of nodes. Every child stands before its
/// parent, and `root` names the last node.
pub struct Octree<T> {
    pub nodes: Vec<OctreeNode<T>>,
    pub root: usize,
}

/// The total length of a sequence of vectors.
pub open spec fn total_len<T>(s: Seq<Vec<T>>) -> int
    decreases s.len(),
{
    if s.len() == 0 {
        0
    } else {
        total_len(s.drop_last()) + s.last().len()
    }
}

/// All elements of a sequence of vectors, as a multiset.
pub open spec fn bag_of<T>(s: Seq<Vec<T>>) -> Multiset<T>
    decreases s.len(),
{
    if s.len() == 0 {
        Multiset::empty()
    } else {
        bag_of(s.drop_last()).add(s.last()@.to_multiset())
    }
}

/// The elements held by all of the nodes together, as a multiset.
pub open spec fn stored<T>(nodes: Seq<OctreeNode<T>>) -> Multiset<T> {
    bag_of(node_data(nodes))
}

proof fn lemma_bag_update<T>(s: Seq<Vec<T>>, i: int, v: Vec<T>)
    requires
        0 <= i < s.len(),
    ensures
        bag_of(s.update(i, v)).add(s[i]@.to_multiset()) =~= bag_of(s).add(v@.to_multiset()),
    decreases s.len(),
{
    broadcast use vstd::multiset::group_multiset_axioms;

    let u = s.update(i, v);
    let vi = v@.to_multiset();
    let si = s[i]@.to_multiset();
    if i == s.len() - 1 {
        assert(u.drop_last() =~= s.drop_last());
        assert(u.last() == v);
        assert(bag_of(u) == bag_of(s.drop_last()).add(vi));
        assert(bag_of(s) == bag_of(s.drop_last()).add(si));
    } else {
        lemma_bag_update(s.drop_last(), i, v);
        assert(u.drop_last() =~= s.drop_last().update(i, v));
        assert(u.last() == s.last());
        let l = s.last()@.to_multiset();
        assert(bag_of(u) == bag_of(s.drop_last().update(i, v)).add(l));
        assert(bag_of(s) == bag_of(s.drop_last()).add(l));
        assert(s.drop_last()[i] == s[i]);
        assert(bag_of(s.drop_last().update(i, v)).add(si) =~= bag_of(s.drop_last()).add(vi));
        assert forall|x: T| #[trigger] bag_of(u).add(si).count(x) == bag_of(s).add(vi).count(x) by {
            assert(bag_of(s.drop_last().update(i, v)).add(si).count(x) == bag_of(s.drop_last()).add(vi).count(x));
        }
    }
    assert forall|x: T| #[trigger] bag_of(u).add(si).count(x) == bag_of(s).add(vi).count(x) by {
    }
}

proof fn lemma_bag_all_empty<T>(s: Seq<Vec<T>>)
    requires
        forall|m: int| 0 <= m < s.len() ==> (#[trigger] s[m]).len() == 0,
    ensures
        bag_of(s) =~= Multiset::<T>::empty(),
    decreases s.len(),
{
    broadcast use vstd::seq_lib::group_to_multiset_ensures;

    if s.len() > 0 {
        lemma_bag_all_empty(s.drop_last());
        assert(s.last()@.to_multiset().len() == 0);
    }
}

proof fn lemma_stored_push<T>(nodes: Seq<OctreeNode<T>>, n: OctreeNode<T>)
    ensures
        stored(nodes.push(n)) == stored(nodes).add(n.data@.to_multiset()),
{
    assert(node_data(nodes.push(n)) =~= node_data(nodes).push(n.data));
    assert(node_data(nodes).push(n.data).drop_last() =~= node_data(nodes));
}

pub open spec fn node_data<T>(nodes: Seq<OctreeNode<T>>) -> Seq<Vec<T>> {
    nodes.map_values(|n: OctreeNode<T>| n.data)
}

/// The number of elements held by all of the nodes together.
pub open spec fn element_count<T>(nodes: Seq<OctreeNode<T>>) -> int {
    total_len(node_data(nodes))
}

/// A node at arena index `i` has eight child slots, each empty or naming a
/// node that stands before it.
pub open spec fn node_wf<T>(n: OctreeNode<T>, i: int) -> bool {
    &&& n.children.len() == 8
    &&& forall|j: int|
        0 <= j < 8 && (#[trigger] n.children@[j]).is_some() ==> n.children@[j].unwrap() < i
}

pub open spec fn nodes_wf<T>(nodes: Seq<OctreeNode<T>>) -> bool {
    forall|i: int| 0 <= i < nodes.len() ==> node_wf(#[trigger] nodes[i], i)
}

pub(crate) proof fn lemma_total_len_push<T>(s: Seq<Vec<T>>, v: Vec<T>)
    ensures
        total_len(s.push(v)) == total_len(s) + v.len(),
{
    assert(s.push(v).drop_last() =~= s);
}

pub(crate) proof fn lemma_total_len_elem<T>(s: Seq<Vec<T>>, i: int)
    requires
        0 <= i < s.len(),
    ensures
        s[i].len() <= total_len(s),
    decreases s.len(),
{
    lemma_total_len_nonneg(s.drop_last());
    if i < s.len() - 1 {
        lemma_total_len_elem(s.drop_last(), i);
    }
}

pub(crate) proof fn lemma_total_len_nonneg<T>(s: Seq<Vec<T>>)
    ensures
        0 <= total_len(s),
    decreases s.len(),
{
    if s.len() > 0 {
        lemma_total_len_nonneg(s.drop_last());
    }
}

proof fn lemma_total_len_prefix<T>(s: Seq<Vec<T>>, i: int)
    requires
        0 <= i <= s.len(),
    ensures
        total_len(s.subrange(0, i)) <= total_len(s),
        0 <= total_len(s.subrange(0, i)),
    decreases s.len(),
{
    if i < s.len() {
        assert(s.drop_last().subrange(0, i) =~= s.subrange(0, i));
        lemma_total_len_prefix(s.drop_last(), i);
    } else {
        assert(s.subrange(0, i) =~= s);
        if s.len() > 0 {
            lemma_total_len_prefix(s.drop_last(), i - 1);
            assert(s.drop_last().subrange(0, i - 1) =~= s.drop_last());
        }
    }
}

pub(crate) proof fn lemma_total_len_update<T>(s: Seq<Vec<T>>, i: int, v: Vec<T>)
    requires
        0 <= i < s.len(),
    ensures
        total_len(s.update(i, v)) == total_len(s) - s[i].len() + v.len(),
    decreases s.len(),
{
    if i == s.len() - 1 {
        assert(s.update(i, v).drop_last() =~= s.drop_last());
    } else {
        lemma_total_len_update(s.drop_last(), i, v);
        assert(s.update(i, v).drop_last() =~= s.drop_last().update(i, v));
    }
}

pub(crate) proof fn lemma_total_len_all_empty<T>(s: Seq<Vec<T>>)
    requires
        forall|m: int| 0 <= m < s.len() ==> (#[trigger] s[m]).len() == 0,
    ensures
        total_len(s) == 0,
    decreases s.len(),
{
    if s.len() > 0 {
        lemma_total_len_all_empty(s.drop_last());
    }
}

proof fn lemma_element_count_push<T>(nodes: Seq<OctreeNode<T>>, n: OctreeNode<T>)
    ensures
        element_count(nodes.push(n)) == element_count(nodes) + n.data.len(),
{
    assert(node_data(nodes.push(n)) =~= node_data(nodes).push(n.data));
    lemma_total_len_push(node_data(nodes), n.data);
}

/// The first of the eight octants that encloses `b` entirely, or 8 when
/// none does.
fn first_enclosing_octant(octs: &Vec<Aabb>, b: &Aabb) -> (r: usize)
    requires
        octs.len() == 8,
    ensures
        r <= 8,
        r < 8 ==> box_inside(octs@[r as int], *b),
        forall|j: int| 0 <= j < r ==> !box_inside(#[trigger] octs@[j], *b),
{
    let mut i: usize = 0;
    while i < 8
        invariant
            i <= 8,
            octs.len() == 8,
            forall|j: int| 0 <= j < i ==> !box_inside(#[trigger] octs@[j], *b),
        decreases 8 - i,
    {
        if octs[i].is_aabb_inside(b) {
            return i;
        }
        i = i + 1;
    }
    8
}

/// The number of elements in the subtree of node `k`.
pub open spec fn subtree_count<T>(nodes: Seq<OctreeNode<T>>, k: int) -> int
    decreases k, 9int,
{
    if 0 <= k < nodes.len() {
        nodes[k].data@.len() + slot_sum(nodes, nodes[k].children@, k, 8)
    } else {
        0
    }
}

/// The number of elements in the subtrees that the first `j` child slots
/// `ch` name, counting only children before `bound`.
pub open spec fn slot_sum<T>(nodes: Seq<OctreeNode<T>>, ch: Seq<Option<usize>>, bound: int, j: int) -> int
    decreases bound, j,
{
    if j <= 0 {
        0
    } else {
        slot_sum(nodes, ch, bound, j - 1) + if ch[j - 1].is_some() && 0 <= ch[j - 1].unwrap() < bound {
            subtree_count(nodes, ch[j - 1].unwrap() as int)
        } else {
            0
        }
    }
}

proof fn lemma_subtree_frame<T>(nodes: Seq<OctreeNode<T>>, more: Seq<OctreeNode<T>>, k: int)
    requires
        nodes.len() <= more.len(),
        forall|m: int| 0 <= m < nodes.len() ==> more[m] == nodes[m],
        0 <= k < nodes.len(),
    ensures
        subtree_count(more, k) == subtree_count(nodes, k),
    decreases k, 9int,
{
    lemma_slot_frame(nodes, more, nodes[k].children@, nodes[k].children@, k, k, 8);
}

proof fn lemma_slot_frame<T>(
    nodes: Seq<OctreeNode<T>>,
    more: Seq<OctreeNode<T>>,
    ch: Seq<Option<usize>>,
    ch2: Seq<Option<usize>>,
    bound: int,
    bound2: int,
    j: int,
)
    requires
        nodes.len() <= more.len(),
        forall|m: int| 0 <= m < nodes.len() ==> more[m] == nodes[m],
        0 <= bound <= nodes.len(),
        forall|s: int|
            0 <= s < j ==> ch[s] == ch2[s] && (ch[s].is_some() ==> (ch[s].unwrap() < bound
                <==> ch[s].unwrap() < bound2)),
    ensures
        slot_sum(more, ch2, bound2, j) == slot_sum(nodes, ch, bound, j),
    decreases bound, j,
{
    if j > 0 {
        lemma_slot_frame(nodes, more, ch, ch2, bound, bound2, j - 1);
        let c = ch[j - 1];
        if c.is_some() && 0 <= c.unwrap() < bound {
            lemma_subtree_frame(nodes, more, c.unwrap() as int);
        }
    }
}

proof fn lemma_slot_sum_none<T>(nodes: Seq<OctreeNode<T>>, ch: Seq<Option<usize>>, bound: int, j: int)
    requires
        forall|s: int| 0 <= s < j ==> (#[trigger] ch[s]).is_none(),
    ensures
        slot_sum(nodes, ch, bound, j) == 0,
    decreases j,
{
    if j > 0 {
        lemma_slot_sum_none(nodes, ch, bound, j - 1);
    }
}

/// Node `p`, which stands after node `k`, names `k` as a child.
pub open spec fn parent_at<T>(nodes: Seq<OctreeNode<T>>, k: int, p: int) -> bool {
    &&& 0 <= k < p < nodes.len()
    &&& exists|j: int| 0 <= j < 8 && nodes[p].children@[j] == Some(k as usize)
}

/// Some node after node `k` names it as a child. When this holds of every
/// node but the last, each node is reached from the last by following
/// children.
pub open spec fn has_parent<T>(nodes: Seq<OctreeNode<T>>, k: int) -> bool {
    exists|p: int| #[trigger] parent_at(nodes, k, p)
}

proof fn lemma_has_parent_frame<T>(nodes: Seq<OctreeNode<T>>, more: Seq<OctreeNode<T>>, k: int)
    requires
        nodes.len() <= more.len(),
        forall|m: int| 0 <= m < nodes.len() ==> more[m] == nodes[m],
        has_parent(nodes, k),
    ensures
        has_parent(more, k),
{
    let p = choose|p: int| #[trigger] parent_at(nodes, k, p);
    assert(parent_at(nodes, k, p));
    assert(0 <= p < nodes.len());
    assert(more[p] == nodes[p]);
    assert(parent_at(more, k, p));
}

/// The box of every child lies inside the box of its parent.
pub open spec fn nested<T>(nodes: Seq<OctreeNode<T>>) -> bool {
    forall|k: int, j: int|
        0 <= k < nodes.len() && 0 <= j < 8 && (#[trigger] nodes[k].children@[j]).is_some() ==> box_inside(
            nodes[k].bounds,
            nodes[nodes[k].children@[j].unwrap() as int].bounds,
        )
}

proof fn lemma_laid_out_nested<T: Spatial>(nodes: Seq<OctreeNode<T>>, m: i128)
    requires
        laid_out(nodes, m),
    ensures
        nested(nodes),
{
    assert forall|k: int, j: int|
        0 <= k < nodes.len() && 0 <= j < 8 && (#[trigger] nodes[k].children@[j]).is_some() implies box_inside(
        nodes[k].bounds,
        nodes[nodes[k].children@[j].unwrap() as int].bounds,
    ) by {
        assert(node_laid_out(nodes, k, m));
        assert(has_child(nodes[k]));
        lemma_octant_inside(nodes[k].bounds, j);
    }
}

/// Every element of the node lies inside the node's box.
pub open spec fn holds_inside<T: Spatial>(n: OctreeNode<T>) -> bool {
    forall|e: int| 0 <= e < n.data@.len() ==> box_inside(n.bounds, #[trigger] n.data@[e].spec_bounds())
}

/// No element of the node fits inside any of the node's octants.
pub open spec fn straddles<T: Spatial>(n: OctreeNode<T>) -> bool {
    forall|e: int, j: int|
        0 <= e < n.data@.len() && 0 <= j < 8 ==> !(#[trigger] box_inside(
            octant_of(n.bounds, j),
            n.data@[e].spec_bounds(),
        ))
}

pub open spec fn has_child<T>(n: OctreeNode<T>) -> bool {
    exists|j: int| 0 <= j < 8 && (#[trigger] n.children@[j]).is_some()
}

/// Whether a node with more than one element is split.
pub open spec fn splits(b: Aabb, min_node_volume: i128) -> bool {
    volume_of(b) >= min_node_volume && divisible(b)
}

/// Node `k` is laid out as the build lays out nodes: the box of the child in
/// slot `j` is octant `j` of the node's box, and a node that was split (it
/// has a child, or holds more than one element in a box that splits) keeps
/// only elements that straddle its octants.
pub open spec fn node_laid_out<T: Spatial>(nodes: Seq<OctreeNode<T>>, k: int, min_node_volume: i128) -> bool {
    &&& forall|j: int|
        0 <= j < 8 && (#[trigger] nodes[k].children@[j]).is_some() ==> nodes[nodes[k].children@[j].unwrap() as int].bounds
            == octant_of(nodes[k].bounds, j)
    &&& (has_child(nodes[k]) || (nodes[k].data@.len() > 1 && splits(nodes[k].bounds, min_node_volume)))
        ==> straddles(nodes[k])
    &&& has_child(nodes[k]) ==> splits(nodes[k].bounds, min_node_volume) && subtree_count(nodes, k) > 1
    &&& forall|j: int|
        0 <= j < 8 && (#[trigger] nodes[k].children@[j]).is_some() ==> subtree_count(
            nodes,
            nodes[k].children@[j].unwrap() as int,
        ) >= 1
}

pub open spec fn laid_out<T: Spatial>(nodes: Seq<OctreeNode<T>>, min_node_volume: i128) -> bool {
    forall|k: int| 0 <= k < nodes.len() ==> #[trigger] node_laid_out(nodes, k, min_node_volume)
}

/// Builds the subtree for `data` within `bounds` onto the end of the arena
/// and returns the index of its root, which is the last node pushed.
///
/// The node is split when it holds more than one element, its volume is at
/// least `min_node_volume` and it is divisible; each element then moves to
/// the first octant that encloses it entirely, and elements that straddle
/// octants stay with the node.
fn build_node<T: Spatial>(
    nodes: &mut Vec<OctreeNode<T>>,
    data: Vec<T>,
    bounds: Aabb,
    min_node_volume: i128,
) -> (idx: usize)
    requires
        nodes_wf(old(nodes)@),
        laid_out(old(nodes)@, min_node_volume),
        min_node_volume > 0,
    ensures
        old(nodes)@.len() < final(nodes)@.len(),
        idx == final(nodes)@.len() - 1,
        forall|k: int| 0 <= k < old(nodes)@.len() ==> final(nodes)@[k] == old(nodes)@[k],
        nodes_wf(final(nodes)@),
        laid_out(final(nodes)@, min_node_volume),
        element_count(final(nodes)@) == element_count(old(nodes)@) + data.len(),
        stored(final(nodes)@) =~= stored(old(nodes)@).add(data@.to_multiset()),
        subtree_count(final(nodes)@, idx as int) == data@.len(),
        forall|k: int| old(nodes)@.len() <= k < idx ==> #[trigger] has_parent(final(nodes)@, k),
        final(nodes)@[idx as int].bounds == bounds,
        forall|k: int| old(nodes)@.len() <= k < idx ==> holds_inside(#[trigger] final(nodes)@[k]),
        (forall|e: int| 0 <= e < data@.len() ==> box_inside(bounds, #[trigger] data@[e].spec_bounds()))
            ==> holds_inside(final(nodes)@[idx as int]),
    decreases extent_sum(bounds),
{
    let ghost old_nodes = nodes@;
    let ghost all = data@;
    let ghost all_inside = forall|e: int|
        0 <= e < all.len() ==> box_inside(bounds, #[trigger] all[e].spec_bounds());
    let ghost ms = all.to_multiset();
    let n = data.len();
    let mut children: Vec<Option<usize>> = vec![None, None, None, None, None, None, None, None];
    let mut own: Vec<T> = Vec::new();
    if n > 1 && bounds.volume() >= min_node_volume && bounds.is_divisible() {
        let octs = bounds.octants();
        let mut child_data: Vec<Vec<T>> = vec![
            Vec::new(),
            Vec::new(),
            Vec::new(),
            Vec::new(),
            Vec::new(),
            Vec::new(),
            Vec::new(),
            Vec::new(),
        ];
        proof {
            assert(child_data@.len() == 8);
            lemma_total_len_all_empty(child_data@);
            lemma_bag_all_empty(child_data@);
        }
        // Reverse the elements once, so that popping hands them out in the
        // order they came in.
        let mut rest = data;
        let mut pending: Vec<T> = Vec::new();
        proof {
            broadcast use vstd::seq_lib::group_to_multiset_ensures;
            broadcast use vstd::multiset::group_multiset_axioms;

            assert(pending@.to_multiset().len() == 0);
            assert(rest@ == all);
        }
        while rest.len() > 0
            invariant
                rest.len() + pending.len() == n,
                n == all.len(),
                rest@ == all.subrange(0, rest@.len() as int),
                forall|j: int| 0 <= j < pending@.len() ==> #[trigger] pending@[j] == all[n - 1 - j],
                forall|x: T|
                    #[trigger] ms.count(x) == rest@.to_multiset().count(x) + pending@.to_multiset().count(
                        x,
                    ),
                ms == all.to_multiset(),
            decreases rest.len(),
        {
            broadcast use vstd::seq_lib::group_to_multiset_ensures;

            let ghost r0 = rest@;
            let ghost p0 = pending@;
            let e = rest.pop().unwrap();
            pending.push(e);
            proof {
                assert(r0 =~= rest@.push(e));
                assert forall|x: T| #[trigger] ms.count(x) == rest@.to_multiset().count(x)
                    + pending@.to_multiset().count(x) by {
                    assert(ms.count(x) == r0.to_multiset().count(x) + p0.to_multiset().count(x));
                }
            }
        }
        proof {
            broadcast use vstd::seq_lib::group_to_multiset_ensures;
            broadcast use vstd::multiset::group_multiset_axioms;

            assert(rest@.to_multiset().len() == 0);
            assert(own@.to_multiset().len() == 0);
        }
        while pending.len() > 0
            invariant
                child_data.len() == 8,
                octs.len() == 8,
                n == all.len(),
                pending.len() <= n,
                all_inside == (forall|e: int|
                    0 <= e < all.len() ==> box_inside(bounds, #[trigger] all[e].spec_bounds())),
                own.len() + total_len(child_data@) + pending.len() == n,
                forall|x: T|
                    #[trigger] ms.count(x) == own@.to_multiset().count(x) + bag_of(child_data@).count(x)
                        + pending@.to_multiset().count(x),
                forall|j: int| 0 <= j < 8 ==> #[trigger] octs@[j] == octant_of(bounds, j),
                forall|j: int| 0 <= j < pending@.len() ==> #[trigger] pending@[j] == all[n - 1 - j],
                forall|e: int, j: int|
                    0 <= e < own@.len() && 0 <= j < 8 ==> !(#[trigger] box_inside(
                        octant_of(bounds, j),
                        own@[e].spec_bounds(),
                    )),
                all_inside ==> forall|e: int|
                    0 <= e < own@.len() ==> box_inside(bounds, #[trigger] own@[e].spec_bounds()),
                forall|j: int, e: int|
                    0 <= j < 8 && 0 <= e < child_data@[j]@.len() ==> box_inside(
                        octs@[j],
                        #[trigger] child_data@[j]@[e].spec_bounds(),
                    ),
            decreases pending.len(),
        {
            broadcast use vstd::seq_lib::group_to_multiset_ensures;

            let ghost pl = pending@.len();
            let ghost p0 = pending@;
            let ghost o0 = own@;
            let ghost c0 = child_data@;
            let e = pending.pop().unwrap();
            proof {
                assert(p0 =~= pending@.push(e));
            }
            proof {
                assert(e == all[n - pl]);
            }
            let b = e.bounds();
            let slot = first_enclosing_octant(&octs, &b);
            if slot < 8 {
                let ghost before = child_data@;
                child_data[slot].push(e);
                proof {
                    assert(child_data@ =~= before.update(slot as int, child_data@[slot as int]));
                    lemma_total_len_update(before, slot as int, child_data@[slot as int]);
                    lemma_bag_update(before, slot as int, child_data@[slot as int]);
                    assert(child_data@[slot as int]@ =~= before[slot as int]@.push(e));
                    assert forall|x: T| #[trigger] ms.count(x) == own@.to_multiset().count(x)
                        + bag_of(child_data@).count(x) + pending@.to_multiset().count(x) by {
                        assert(ms.count(x) == o0.to_multiset().count(x) + bag_of(c0).count(x)
                            + p0.to_multiset().count(x));
                        assert(bag_of(child_data@).add(before[slot as int]@.to_multiset()).count(x)
                            == bag_of(before).add(child_data@[slot as int]@.to_multiset()).count(x));
                    }
                    assert forall|j: int, k: int|
                        0 <= j < 8 && 0 <= k < child_data@[j]@.len() implies box_inside(
                        octs@[j],
                        #[trigger] child_data@[j]@[k].spec_bounds(),
                    ) by {
                        if j == slot as int {
                            if k < before[j]@.len() {
                                assert(child_data@[j]@[k] == before[j]@[k]);
                            }
                        } else {
                            assert(child_data@[j] == before[j]);
                        }
                    }
                }
            } else {
                let ghost before_own = own@;
                own.push(e);
                proof {
                    assert forall|x: T| #[trigger] ms.count(x) == own@.to_multiset().count(x)
                        + bag_of(child_data@).count(x) + pending@.to_multiset().count(x) by {
                        assert(ms.count(x) == o0.to_multiset().count(x) + bag_of(c0).count(x)
                            + p0.to_multiset().count(x));
                    }
                    assert forall|k: int, j: int|
                        0 <= k < own@.len() && 0 <= j < 8 implies !(#[trigger] box_inside(
                        octant_of(bounds, j),
                        own@[k].spec_bounds(),
                    )) by {
                        if k < before_own.len() {
                            assert(own@[k] == before_own[k]);
                        } else {
                            assert(octs@[j] == octant_of(bounds, j));
                        }
                    }
                    if all_inside {
                        assert(box_inside(bounds, all[n - pl].spec_bounds()));
                        assert forall|k: int| 0 <= k < own@.len() implies box_inside(
                            bounds,
                            #[trigger] own@[k].spec_bounds(),
                        ) by {
                            if k < before_own.len() {
                                assert(own@[k] == before_own[k]);
                            }
                        }
                    }
                }
            }
        }
        let mut i: usize = 0;
        while i < 8
            invariant
                i <= 8,
                child_data.len() == 8,
                octs.len() == 8,
                children.len() == 8,
                divisible(bounds),
                forall|j: int|
                    0 <= j < 8 ==> #[trigger] octs@[j] == octant_of(bounds, j) && 0 <= extent_x(
                        octs@[j],
                    ) && extent_sum(octs@[j]) < extent_sum(bounds),
                forall|j: int| 0 <= j < 8 ==> 0 <= extent_sum(#[trigger] octs@[j]),
                nodes_wf(nodes@),
                laid_out(nodes@, min_node_volume),
                old_nodes.len() <= nodes@.len(),
                forall|k: int| 0 <= k < old_nodes.len() ==> nodes@[k] == old_nodes[k],
                forall|k: int| old_nodes.len() <= k < nodes@.len() ==> holds_inside(#[trigger] nodes@[k]),
                forall|j: int|
                    0 <= j < 8 && (#[trigger] children@[j]).is_some() ==> children@[j].unwrap()
                        < nodes@.len() && nodes@[children@[j].unwrap() as int].bounds == octant_of(
                        bounds,
                        j,
                    ),
                forall|j: int| i <= j < 8 ==> (#[trigger] children@[j]).is_none(),
                forall|j: int|
                    0 <= j < 8 && (#[trigger] children@[j]).is_some() ==> subtree_count(
                        nodes@,
                        children@[j].unwrap() as int,
                    ) >= 1,
                slot_sum(nodes@, children@, nodes@.len() as int, i as int) + total_len(child_data@)
                    + own.len() == n,
                forall|k: int|
                    old_nodes.len() <= k < nodes@.len() ==> #[trigger] has_parent(nodes@, k) || exists|
                        j: int,
                    | 0 <= j < 8 && children@[j] == Some(k as usize),
                element_count(nodes@) + total_len(child_data@) + own.len() == element_count(
                    old_nodes,
                ) + n,
                forall|j: int| 0 <= j < i ==> (#[trigger] child_data@[j]).len() == 0,
                forall|x: T|
                    #[trigger] stored(nodes@).count(x) + bag_of(child_data@).count(x)
                        + own@.to_multiset().count(x) == stored(old_nodes).count(x) + ms.count(x),
                forall|j: int, e: int|
                    0 <= j < 8 && 0 <= e < child_data@[j]@.len() ==> box_inside(
                        octs@[j],
                        #[trigger] child_data@[j]@[e].spec_bounds(),
                    ),
                min_node_volume > 0,
            decreases 8 - i,
        {
            let ghost ch0 = children@;
            let ghost n0 = nodes@;
            if child_data[i].len() > 0 {
                let mut d: Vec<T> = Vec::new();
                let ghost before = child_data@;
                let ghost empty = d;
                std::mem::swap(&mut child_data[i], &mut d);
                proof {
                    assert(child_data@ =~= before.update(i as int, empty));
                    lemma_total_len_update(before, i as int, empty);
                    lemma_bag_update(before, i as int, empty);
                    assert(empty@.to_multiset() =~= Multiset::<T>::empty()) by {
                        broadcast use vstd::seq_lib::group_to_multiset_ensures;

                    }
                    assert forall|j: int, e: int|
                        0 <= j < 8 && 0 <= e < child_data@[j]@.len() implies box_inside(
                        octs@[j],
                        #[trigger] child_data@[j]@[e].spec_bounds(),
                    ) by {
                        assert(j != i as int);
                        assert(child_data@[j] == before[j]);
                    }
                    assert(d@ == before[i as int]@);
                }
                let ghost mid = nodes@;
                let ghost dd = d@;
                let ghost cb = child_data@;
                let c = build_node(nodes, d, octs[i], min_node_volume);
                children.set(i, Some(c));
                proof {
                    assert forall|x: T| #[trigger] stored(nodes@).count(x) + bag_of(child_data@).count(x)
                        + own@.to_multiset().count(x) == stored(old_nodes).count(x) + ms.count(x) by {
                        assert(bag_of(cb).add(before[i as int]@.to_multiset()).count(x) == bag_of(
                            before,
                        ).add(empty@.to_multiset()).count(x));
                        assert(stored(nodes@).count(x) == stored(mid).count(x) + dd.to_multiset().count(x));
                    }
                    assert forall|k: int| old_nodes.len() <= k < nodes@.len() implies holds_inside(
                        #[trigger] nodes@[k],
                    ) by {
                        if k < mid.len() {
                            assert(nodes@[k] == mid[k]);
                        }
                    }
                    lemma_slot_frame(mid, nodes@, ch0, children@, mid.len() as int, nodes@.len() as int, i as int);
                    assert(children@[i as int] == Some(c));
                    assert forall|k: int| old_nodes.len() <= k < nodes@.len() implies #[trigger] has_parent(
                        nodes@,
                        k,
                    ) || exists|j: int| 0 <= j < 8 && children@[j] == Some(k as usize) by {
                        if k < mid.len() {
                            if has_parent(mid, k) {
                                lemma_has_parent_frame(mid, nodes@, k);
                            } else {
                                let j = choose|j: int| 0 <= j < 8 && ch0[j] == Some(k as usize);
                                assert(j != i as int);
                                assert(children@[j] == Some(k as usize));
                            }
                        } else if k == c {
                            assert(children@[i as int] == Some(k as usize));
                        }
                    }
                    assert forall|j: int|
                        0 <= j < 8 && (#[trigger] children@[j]).is_some() implies subtree_count(
                            nodes@,
                            children@[j].unwrap() as int,
                        ) >= 1 by {
                        if j != i as int {
                            assert(children@[j] == ch0[j]);
                            lemma_subtree_frame(mid, nodes@, ch0[j].unwrap() as int);
                        }
                    }
                }
            } else {
                proof {
                    assert(slot_sum(nodes@, children@, nodes@.len() as int, i + 1) == slot_sum(
                        nodes@,
                        children@,
                        nodes@.len() as int,
                        i as int,
                    ));
                }
            }
            i = i + 1;
        }
        proof {
            lemma_total_len_all_empty(child_data@);
            lemma_bag_all_empty(child_data@);
        }
    } else {
        own = data;
    }
    let idx = nodes.len();
    let node = OctreeNode { bounds, data: own, children };
    proof {
        lemma_element_count_push(nodes@, node);
        lemma_stored_push(nodes@, node);
    }
    let ghost before_push = nodes@;
    let ghost split = n > 1 && volume_of(bounds) >= min_node_volume && divisible(bounds);
    proof {
        if !split {
            lemma_slot_sum_none(before_push, children@, idx as int, 8);
        }
    }
    nodes.push(node);
    proof {
        lemma_slot_frame(before_push, nodes@, children@, nodes@[idx as int].children@, idx as int, idx as int, 8);
        assert forall|k: int| old_nodes.len() <= k < idx implies #[trigger] has_parent(nodes@, k) by {
            if has_parent(before_push, k) {
                lemma_has_parent_frame(before_push, nodes@, k);
            } else {
                let j = choose|j: int| 0 <= j < 8 && children@[j] == Some(k as usize);
                assert(nodes@[idx as int].children@[j] == Some(k as usize));
                assert(parent_at(nodes@, k, idx as int));
            }
        }
        assert(subtree_count(nodes@, idx as int) == n);
        assert forall|k: int| 0 <= k < nodes@.len() implies node_wf(#[trigger] nodes@[k], k) by {
            if k < idx {
                assert(nodes@[k] == before_push[k]);
            }
        }
        assert forall|k: int| 0 <= k < nodes@.len() implies #[trigger] node_laid_out(
            nodes@,
            k,
            min_node_volume,
        ) by {
            if k < idx {
                assert(nodes@[k] == before_push[k]);
                assert(node_laid_out(before_push, k, min_node_volume));
                assert(node_wf(before_push[k], k));
                assert forall|j: int|
                    0 <= j < 8 && (#[trigger] nodes@[k].children@[j]).is_some() implies nodes@[nodes@[k].children@[j].unwrap() as int].bounds
                    == octant_of(nodes@[k].bounds, j) by {
                    let c = before_push[k].children@[j].unwrap() as int;
                    assert(c < k);
                    assert(nodes@[c] == before_push[c]);
                }
                lemma_subtree_frame(before_push, nodes@, k);
                assert forall|j: int|
                    0 <= j < 8 && (#[trigger] nodes@[k].children@[j]).is_some() implies subtree_count(
                        nodes@,
                        nodes@[k].children@[j].unwrap() as int,
                    ) >= 1 by {
                    let c = before_push[k].children@[j].unwrap() as int;
                    lemma_subtree_frame(before_push, nodes@, c);
                }
            } else {
                assert forall|j: int|
                    0 <= j < 8 && (#[trigger] nodes@[k].children@[j]).is_some() implies nodes@[nodes@[k].children@[j].unwrap() as int].bounds
                    == octant_of(nodes@[k].bounds, j) by {
                    let c = children@[j].unwrap() as int;
                    assert(nodes@[c] == before_push[c]);
                }
                assert forall|j: int|
                    0 <= j < 8 && (#[trigger] nodes@[k].children@[j]).is_some() implies subtree_count(
                        nodes@,
                        nodes@[k].children@[j].unwrap() as int,
                    ) >= 1 by {
                    let c = children@[j].unwrap() as int;
                    lemma_subtree_frame(before_push, nodes@, c);
                }
            }
        }
        assert forall|k: int| old_nodes.len() <= k < idx implies holds_inside(#[trigger] nodes@[k]) by {
            assert(nodes@[k] == before_push[k]);
        }
        assert forall|x: T| #[trigger] stored(nodes@).count(x) == stored(old_nodes).add(ms).count(x) by {
        }
    }
    idx
}

impl<T: Spatial> Octree<T> {
    /// Builds an octree over `data` within `bounds`. A node is split only
    /// when it holds more than one element, its volume is at least
    /// `min_node_volume`, and its box is at least two grid units wide along
    /// every axis: narrower boxes have no octants smaller than themselves on
    /// the grid, so they are not split whatever their volume.
    pub fn from_vec_with_bounds(data: Vec<T>, bounds: Aabb, min_node_volume: i128) -> (r: Octree<
        T,
    >)
        requires
            min_node_volume > 0,
        ensures
            r.wf(),
            r.bounds() == bounds,
            element_count(r.nodes@) == data.len(),
            stored(r.nodes@) =~= data@.to_multiset(),
            subtree_count(r.nodes@, r.root as int) == data.len(),
            forall|k: int| 0 <= k < r.root ==> #[trigger] has_parent(r.nodes@, k),
            nested(r.nodes@),
            laid_out(r.nodes@, min_node_volume),
            forall|k: int| 0 <= k < r.root ==> holds_inside(#[trigger] r.nodes@[k]),
            (forall|e: int| 0 <= e < data@.len() ==> box_inside(bounds, #[trigger] data@[e].spec_bounds()))
                ==> holds_inside(r.nodes@[r.root as int]) && searchable(&r),
    {
        let mut nodes: Vec<OctreeNode<T>> = Vec::new();
        proof {
            assert(node_data(nodes@) =~= Seq::<Vec<T>>::empty());
        }
        let ghost ms = data@.to_multiset();
        let root = build_node(&mut nodes, data, bounds, min_node_volume);
        proof {
            lemma_laid_out_nested(nodes@, min_node_volume);
            broadcast use vstd::multiset::group_multiset_axioms;

            assert forall|x: T| #[trigger] stored(nodes@).count(x) == ms.count(x) by {
                assert(stored(nodes@).count(x) == Multiset::<T>::empty().add(ms).count(x));
            }
        }
        Octree { nodes, root }
    }
}

impl<T> Octree<T> {
    pub open spec fn wf(&self) -> bool {
        &&& nodes_wf(self.nodes@)
        &&& self.root as int == self.nodes@.len() - 1
    }

    pub open spec fn bounds(&self) -> Aabb {
        self.nodes@[self.root as int].bounds
    }
}

/// The number of levels of the subtree rooted at node `i`.
pub open spec fn depth_of<T>(nodes: Seq<OctreeNode<T>>, i: int) -> int
    decreases i, 9int,
{
    1 + max_child_depth(nodes, i, 8)
}

/// The largest depth among the first `j` children of node `i`, 0 for none.
pub open spec fn max_child_depth<T>(nodes: Seq<OctreeNode<T>>, i: int, j: int) -> int
    decreases i, j,
{
    if j <= 0 {
        0
    } else {
        let m = max_child_depth(nodes, i, j - 1);
        let c = nodes[i].children@[j - 1];
        if c.is_some() && 0 <= c.unwrap() < i {
            let d = depth_of(nodes, c.unwrap() as int);
            if d > m { d } else { m }
        } else {
            m
        }
    }
}

/// The smallest volume of a node that is split when the tree's box is `b`:
/// a tenth of its width along x, but at least 1.
pub open spec fn default_min_volume(b: Aabb) -> i128 {
    let tenth = (b.max.x - b.min.x) / 10;
    if tenth >= 1 { tenth as i128 } else { 1 }
}

/// The element bounds of a sequence of spatial objects.
pub open spec fn bounds_of<T: Spatial>(data: Seq<T>) -> Seq<Aabb> {
    data.map_values(|e: T| e.spec_bounds())
}

impl<T: Spatial> Octree<T> {
    /// Builds an octree over `data` within the union of the elements'
    /// boxes. The smallest volume of a node that is split is a tenth of the
    /// union's width along x, but at least 1; as with `from_vec_with_bounds`,
    /// boxes narrower than two grid units along some axis are not split.
    pub fn from_elements(data: Vec<T>) -> (r: Octree<T>)
        ensures
            r.wf(),
            r.bounds() == union_of(bounds_of(data@)),
            element_count(r.nodes@) == data.len(),
            stored(r.nodes@) =~= data@.to_multiset(),
            subtree_count(r.nodes@, r.root as int) == data.len(),
            forall|k: int| 0 <= k < r.root ==> #[trigger] has_parent(r.nodes@, k),
            nested(r.nodes@),
            laid_out(r.nodes@, default_min_volume(r.bounds())),
            (forall|e: int| 0 <= e < data@.len() ==> proper(#[trigger] data@[e].spec_bounds()))
                ==> searchable(&r),
            forall|k: int| 0 <= k < r.root ==> holds_inside(#[trigger] r.nodes@[k]),
    {
        let mut boxes: Vec<Aabb> = Vec::new();
        let mut i: usize = 0;
        while i < data.len()
            invariant
                i <= data.len(),
                boxes@ == bounds_of(data@.subrange(0, i as int)),
            decreases data.len() - i,
        {
            boxes.push(data[i].bounds());
            assert(bounds_of(data@.subrange(0, i + 1)) =~= bounds_of(data@.subrange(0, i as int)).push(
                data@[i as int].spec_bounds(),
            ));
            i = i + 1;
        }
        assert(data@.subrange(0, i as int) =~= data@);
        let bounds = Aabb::union(&boxes);
        let width: i64 = bounds.max.x as i64 - bounds.min.x as i64;
        let tenth: i64 = width / 10;
        let min_node_volume: i128 = if tenth >= 1 {
            tenth as i128
        } else {
            1
        };
        assert(min_node_volume == default_min_volume(bounds));
        proof {
            assert(boxes@ =~= bounds_of(data@));
            if forall|e: int| 0 <= e < data@.len() ==> proper(#[trigger] data@[e].spec_bounds()) {
                assert forall|e: int| 0 <= e < data@.len() implies box_inside(
                    bounds,
                    #[trigger] data@[e].spec_bounds(),
                ) by {
                    assert(boxes@[e] == data@[e].spec_bounds());
                    lemma_union_encloses(boxes@, e);
                }
            }
        }
        Self::from_vec_with_bounds(data, bounds, min_node_volume)
    }
}

impl<T> Octree<T> {
    /// The root node.
    pub fn root(&self) -> (r: &OctreeNode<T>)
        requires
            self.wf(),
        ensures
            *r == self.nodes@[self.root as int],
    {
        &self.nodes[self.root]
    }

    /// The number of nodes.
    pub fn node_count(&self) -> (r: usize)
        ensures
            r == self.nodes@.len(),
    {
        self.nodes.len()
    }

    /// The number of elements held by all nodes together.
    pub fn entity_count(&self) -> (r: usize)
        requires
            element_count(self.nodes@) <= usize::MAX,
        ensures
            r == element_count(self.nodes@),
    {
        let ghost all = node_data(self.nodes@);
        let mut sum: usize = 0;
        let mut i: usize = 0;
        while i < self.nodes.len()
            invariant
                i <= self.nodes@.len(),
                all == node_data(self.nodes@),
                element_count(self.nodes@) <= usize::MAX,
                sum == total_len(all.subrange(0, i as int)),
            decreases self.nodes@.len() - i,
        {
            proof {
                assert(all.subrange(0, i + 1).drop_last() =~= all.subrange(0, i as int));
                lemma_total_len_prefix(all, i + 1);
            }
            sum = sum + self.nodes[i].data.len();
            i = i + 1;
        }
        assert(all.subrange(0, i as int) =~= all);
        sum
    }

    /// The number of levels of the tree.
    pub fn depth(&self) -> (r: usize)
        requires
            self.wf(),
        ensures
            r == depth_of(self.nodes@, self.root as int),
    {
        let ghost nodes = self.nodes@;
        let mut depths: Vec<usize> = Vec::new();
        let mut i: usize = 0;
        while i < self.nodes.len()
            invariant
                nodes == self.nodes@,
                nodes_wf(nodes),
                i <= nodes.len(),
                depths@.len() == i,
                forall|k: int|
                    0 <= k < i ==> #[trigger] depths@[k] == depth_of(nodes, k) && depths@[k] <= k
                        + 1,
            decreases nodes.len() - i,
        {
            let node = &self.nodes[i];
            proof {
                assert(node_wf(nodes[i as int], i as int));
            }
            let mut m: usize = 0;
            let mut j: usize = 0;
            while j < 8
                invariant
                    nodes == self.nodes@,
                    *node == nodes[i as int],
                    node.children@.len() == 8,
                    node_wf(nodes[i as int], i as int),
                    i < nodes.len(),
                    depths@.len() == i,
                    forall|k: int|
                        0 <= k < i ==> #[trigger] depths@[k] == depth_of(nodes, k) && depths@[k]
                            <= k + 1,
                    j <= 8,
                    m == max_child_depth(nodes, i as int, j as int),
                    m <= i,
                decreases 8 - j,
            {
                match node.children[j] {
                    Some(c) => {
                        proof {
                            assert(node.children@[j as int].is_some());
                        }
                        let d = depths[c];
                        if d > m {
                            m = d;
                        }
                    },
                    None => {},
                }
                j = j + 1;
            }
            depths.push(m + 1);
            i = i + 1;
        }
        depths[self.root]
    }
}

/// The ray enters box `b` at a parameter whose key is at most `range`.
pub open spec fn enters_box<F: Fn(&Aabb) -> Option<u64>>(f: F, b: Aabb, range: u64) -> bool {
    exists|k: u64| k <= range && f.ensures((&b,), Some(k))
}

/// Element `e` is hit at a parameter with key `k`, at most `range`.
pub open spec fn hits_elem<T, G: Fn(&T) -> Option<u64>>(g: G, e: T, k: u64, range: u64) -> bool {
    k <= range && g.ensures((&e,), Some(k))
}

/// A test that gives one answer for each argument.
pub open spec fn box_test_is_function<F: Fn(&Aabb) -> Option<u64>>(f: F) -> bool {
    &&& forall|b: &Aabb| f.requires((b,))
    &&& forall|b: &Aabb, x: Option<u64>, y: Option<u64>|
        f.ensures((b,), x) && f.ensures((b,), y) ==> x == y
}

pub open spec fn elem_test_is_function<T, G: Fn(&T) -> Option<u64>>(g: G) -> bool {
    &&& forall|e: &T| g.requires((e,))
    &&& forall|e: &T, x: Option<u64>, y: Option<u64>|
        g.ensures((e,), x) && g.ensures((e,), y) ==> x == y
}

/// Node `j` is reached from node `i`: the ray enters the box of every node
/// on the path of children from `i` to `j`, `i` and `j` included.
pub open spec fn reaches<T, F: Fn(&Aabb) -> Option<u64>>(
    nodes: Seq<OctreeNode<T>>,
    f: F,
    range: u64,
    i: int,
    j: int,
) -> bool
    decreases i, 9int,
{
    &&& 0 <= i < nodes.len()
    &&& enters_box(f, nodes[i].bounds, range)
    &&& (j == i || child_reaches(nodes, f, range, i, j, 8))
}

/// Node `j` is reached through one of the first `s` children of node `i`.
pub open spec fn child_reaches<T, F: Fn(&Aabb) -> Option<u64>>(
    nodes: Seq<OctreeNode<T>>,
    f: F,
    range: u64,
    i: int,
    j: int,
    s: int,
) -> bool
    decreases i, s,
{
    if s <= 0 || i < 0 || i >= nodes.len() {
        false
    } else {
        child_reaches(nodes, f, range, i, j, s - 1) || {
            let c = nodes[i].children@[s - 1];
            c.is_some() && 0 <= c.unwrap() < i && reaches(nodes, f, range, c.unwrap() as int, j)
        }
    }
}

proof fn lemma_child_reaches_mono<T, F: Fn(&Aabb) -> Option<u64>>(
    nodes: Seq<OctreeNode<T>>,
    f: F,
    range: u64,
    i: int,
    j: int,
    s: int,
    t: int,
)
    requires
        s <= t,
        child_reaches(nodes, f, range, i, j, s),
    ensures
        child_reaches(nodes, f, range, i, j, t),
    decreases t - s,
{
    if s < t {
        lemma_child_reaches_mono(nodes, f, range, i, j, s, t - 1);
    }
}

/// Node `j` lies in the subtree of node `i`: it is `i`, or it lies in the
/// subtree of one of `i`'s children.
pub open spec fn descends<T>(nodes: Seq<OctreeNode<T>>, i: int, j: int) -> bool
    decreases i, 9int,
{
    &&& 0 <= i < nodes.len()
    &&& 0 <= j < nodes.len()
    &&& (j == i || child_descends(nodes, i, j, 8))
}

/// Node `j` lies in the subtree of one of the first `s` children of `i`.
pub open spec fn child_descends<T>(nodes: Seq<OctreeNode<T>>, i: int, j: int, s: int) -> bool
    decreases i, s,
{
    if s <= 0 || i < 0 || i >= nodes.len() {
        false
    } else {
        child_descends(nodes, i, j, s - 1) || {
            let c = nodes[i].children@[s - 1];
            c.is_some() && 0 <= c.unwrap() < i && descends(nodes, c.unwrap() as int, j)
        }
    }
}

proof fn lemma_child_descends_mono<T>(nodes: Seq<OctreeNode<T>>, i: int, j: int, s: int, t: int)
    requires
        s <= t,
        child_descends(nodes, i, j, s),
    ensures
        child_descends(nodes, i, j, t),
    decreases t - s,
{
    if s < t {
        lemma_child_descends_mono(nodes, i, j, s, t - 1);
    }
}

/// Whatever lies inside the box of a node in the subtree of `i` lies inside
/// the box of `i`.
proof fn lemma_descends_encloses<T>(nodes: Seq<OctreeNode<T>>, i: int, j: int, b: Aabb)
    requires
        nested(nodes),
        descends(nodes, i, j),
        box_inside(nodes[j].bounds, b),
    ensures
        box_inside(nodes[i].bounds, b),
    decreases i, 9int,
{
    if j != i {
        lemma_child_descends_encloses(nodes, i, j, 8, b);
    }
}

proof fn lemma_child_descends_encloses<T>(nodes: Seq<OctreeNode<T>>, i: int, j: int, s: int, b: Aabb)
    requires
        nested(nodes),
        0 <= s <= 8,
        child_descends(nodes, i, j, s),
        box_inside(nodes[j].bounds, b),
    ensures
        box_inside(nodes[i].bounds, b),
    decreases i, s,
{
    if child_descends(nodes, i, j, s - 1) {
        lemma_child_descends_encloses(nodes, i, j, s - 1, b);
    } else {
        let c = nodes[i].children@[s - 1].unwrap() as int;
        assert(nodes[i].children@[s - 1].is_some());
        lemma_descends_encloses(nodes, c, j, b);
        assert(box_inside(nodes[i].bounds, nodes[c].bounds));
        lemma_inside_trans(nodes[i].bounds, nodes[c].bounds, b);
    }
}

/// In a tree where every node but the last is a child of a later node,
/// every node lies in the subtree of the last.
proof fn lemma_descends_from_root<T>(nodes: Seq<OctreeNode<T>>, cur: int, j: int)
    requires
        0 < nodes.len() <= usize::MAX,
        0 <= cur < nodes.len(),
        descends(nodes, cur, j),
        forall|k: int| 0 <= k < nodes.len() - 1 ==> #[trigger] has_parent(nodes, k),
    ensures
        descends(nodes, nodes.len() - 1, j),
    decreases nodes.len() - cur,
{
    if cur < nodes.len() - 1 {
        assert(has_parent(nodes, cur));
        let p = choose|p: int| #[trigger] parent_at(nodes, cur, p);
        assert(parent_at(nodes, cur, p));
        let s = choose|s: int| 0 <= s < 8 && nodes[p].children@[s] == Some(cur as usize);
        assert(nodes[p].children@[s].unwrap() as int == cur);
        assert(child_descends(nodes, p, j, s + 1));
        lemma_child_descends_mono(nodes, p, j, s + 1, 8);
        lemma_descends_from_root(nodes, p, j);
    }
}

/// A found hit: an element of a reached node, hit within range.
pub open spec fn valid_hit<T, F: Fn(&Aabb) -> Option<u64>, G: Fn(&T) -> Option<u64>>(
    nodes: Seq<OctreeNode<T>>,
    f: F,
    g: G,
    range: u64,
    from: int,
    h: (usize, usize, u64),
) -> bool {
    &&& h.0 < nodes.len()
    &&& h.1 < nodes[h.0 as int].data@.len()
    &&& hits_elem(g, nodes[h.0 as int].data@[h.1 as int], h.2, range)
    &&& reaches(nodes, f, range, from, h.0 as int)
}

/// No element of a node in the subtree of `from` is hit within range
/// before `best`, and when one is hit at all, there is a best.
pub open spec fn none_before<T, G: Fn(&T) -> Option<u64>>(
    nodes: Seq<OctreeNode<T>>,
    g: G,
    range: u64,
    from: int,
    best: Option<(usize, usize, u64)>,
) -> bool {
    forall|j: int, p: int, k: u64|
        descends(nodes, from, j) && 0 <= p < nodes[j].data@.len() && #[trigger] hits_elem(
            g,
            nodes[j].data@[p],
            k,
            range,
        ) ==> best.is_some() && best.unwrap().2 <= k
}

/// Whenever the element test hits an element at key `k`, the box test
/// gives every box that encloses the element a key, and one at most `k`:
/// the two tests agree as a ray's tests do.
pub open spec fn entry_before_hit<T: Spatial, F: Fn(&Aabb) -> Option<u64>, G: Fn(&T) -> Option<u64>>(
    f: F,
    g: G,
) -> bool {
    forall|b: Aabb, e: T, k: u64, o: Option<u64>|
        #[trigger] g.ensures((&e,), Some(k)) && #[trigger] box_inside(b, e.spec_bounds())
            && #[trigger] f.ensures((&b,), o) ==> o.is_some() && o.unwrap() <= k
}

pub open spec fn key_not_above(best: Option<(usize, usize, u64)>, prev: Option<(usize, usize, u64)>) -> bool {
    prev.is_some() ==> best.is_some() && best.unwrap().2 <= prev.unwrap().2
}

impl<T: Spatial> Octree<T> {
    /// Visits the subtree of node `i`, keeping in `best` the earliest hit.
    fn visit<F: Fn(&Aabb) -> Option<u64>, G: Fn(&T) -> Option<u64>>(
        &self,
        i: usize,
        enters: &F,
        hits: &G,
        range: u64,
        best: &mut Option<(usize, usize, u64)>,
    )
        requires
            nodes_wf(self.nodes@),
            nested(self.nodes@),
            forall|k: int| 0 <= k < self.nodes@.len() ==> holds_inside(#[trigger] self.nodes@[k]),
            i < self.nodes@.len(),
            box_test_is_function(*enters),
            elem_test_is_function::<T, G>(*hits),
            entry_before_hit::<T, F, G>(*enters, *hits),
        ensures
            key_not_above(*final(best), *old(best)),
            *final(best) == *old(best) || valid_hit(
                self.nodes@,
                *enters,
                *hits,
                range,
                i as int,
                final(best).unwrap(),
            ),
            none_before(self.nodes@, *hits, range, i as int, *final(best)),
        decreases i,
    {
        let ghost nodes = self.nodes@;
        let ghost b0 = *best;
        let node = &self.nodes[i];
        let entry = enters(&node.bounds);
        let entered = match entry {
            Some(k) => k <= range,
            None => false,
        };
        if !entered {
            proof {
                assert forall|j: int, p: int, k: u64|
                    descends(nodes, i as int, j) && 0 <= p < nodes[j].data@.len()
                        && #[trigger] hits_elem(*hits, nodes[j].data@[p], k, range) implies best.is_some()
                        && best.unwrap().2 <= k by {
                    let e = nodes[j].data@[p];
                    assert(holds_inside(nodes[j]));
                    assert(box_inside(nodes[j].bounds, e.spec_bounds()));
                    lemma_descends_encloses(nodes, i as int, j, e.spec_bounds());
                    assert(hits.ensures((&e,), Some(k)));
                    assert(enters.ensures((&nodes[i as int].bounds,), entry));
                }
            }
            return;
        }
        proof {
            assert(enters_box(*enters, nodes[i as int].bounds, range)) by {
                assert(enters.ensures((&nodes[i as int].bounds,), entry));
            }
            assert(node_wf(nodes[i as int], i as int));
        }
        let mut p: usize = 0;
        while p < node.data.len()
            invariant
                nodes == self.nodes@,
                nodes_wf(nodes),
                i < nodes.len(),
                *node == nodes[i as int],
                enters_box(*enters, nodes[i as int].bounds, range),
                box_test_is_function(*enters),
                elem_test_is_function::<T, G>(*hits),
                nested(nodes),
                forall|k: int| 0 <= k < nodes.len() ==> holds_inside(#[trigger] nodes[k]),
                entry_before_hit::<T, F, G>(*enters, *hits),
                p <= node.data@.len(),
                key_not_above(*best, b0),
                *best == b0 || valid_hit(nodes, *enters, *hits, range, i as int, best.unwrap()),
                forall|q: int, k: u64|
                    0 <= q < p && #[trigger] hits_elem(*hits, nodes[i as int].data@[q], k, range)
                        ==> best.is_some() && best.unwrap().2 <= k,
            decreases node.data@.len() - p,
        {
            let v = hits(&node.data[p]);
            match v {
                Some(k) => {
                    if k <= range {
                        let better = match *best {
                            Some((_, _, bk)) => k < bk,
                            None => true,
                        };
                        if better {
                            *best = Some((i, p, k));
                        }
                    }
                },
                None => {},
            }
            proof {
                assert forall|q: int, k: u64|
                    0 <= q < p + 1 && #[trigger] hits_elem(*hits, nodes[i as int].data@[q], k, range)
                        implies best.is_some() && best.unwrap().2 <= k by {
                    if q == p {
                        assert(hits.ensures((&nodes[i as int].data@[q],), v));
                    }
                }
            }
            p = p + 1;
        }
        let mut s: usize = 0;
        while s < 8
            invariant
                nodes == self.nodes@,
                nodes_wf(nodes),
                i < nodes.len(),
                *node == nodes[i as int],
                node.children@.len() == 8,
                enters_box(*enters, nodes[i as int].bounds, range),
                box_test_is_function(*enters),
                elem_test_is_function::<T, G>(*hits),
                nested(nodes),
                forall|k: int| 0 <= k < nodes.len() ==> holds_inside(#[trigger] nodes[k]),
                entry_before_hit::<T, F, G>(*enters, *hits),
                s <= 8,
                key_not_above(*best, b0),
                *best == b0 || valid_hit(nodes, *enters, *hits, range, i as int, best.unwrap()),
                forall|j: int, q: int, k: u64|
                    (j == i || child_descends(nodes, i as int, j, s as int)) && 0 <= q
                        < nodes[j].data@.len() && #[trigger] hits_elem(
                        *hits,
                        nodes[j].data@[q],
                        k,
                        range,
                    ) ==> best.is_some() && best.unwrap().2 <= k,
            decreases 8 - s,
        {
            match node.children[s] {
                Some(c) => {
                    proof {
                        assert(node.children@[s as int].is_some());
                    }
                    let ghost before = *best;
                    self.visit(c, enters, hits, range, best);
                    proof {
                        if *best != b0 {
                            if *best != before {
                                let h = best.unwrap();
                                assert(reaches(nodes, *enters, range, c as int, h.0 as int));
                                assert(child_reaches(nodes, *enters, range, i as int, h.0 as int, s + 1));
                                lemma_child_reaches_mono(nodes, *enters, range, i as int, h.0 as int, s + 1, 8);
                            } else {
                                let h = best.unwrap();
                                assert(reaches(nodes, *enters, range, i as int, h.0 as int));
                            }
                        }
                    }
                },
                None => {},
            }
            s = s + 1;
        }
        proof {
            assert forall|j: int, q: int, k: u64|
                descends(nodes, i as int, j) && 0 <= q < nodes[j].data@.len()
                    && #[trigger] hits_elem(*hits, nodes[j].data@[q], k, range) implies best.is_some()
                    && best.unwrap().2 <= k by {
            }
            if *best != b0 {
                let h = best.unwrap();
                assert(reaches(nodes, *enters, range, i as int, h.0 as int));
            }
        }
    }
}

/// What a query for the earliest hit within `range` returns: a hit is an
/// element of a node the ray reaches from the root, hit within range; and
/// when some element of the tree is hit within range there is a result,
/// at a key no later than that hit's.
pub open spec fn earliest_hit<T, F: Fn(&Aabb) -> Option<u64>, G: Fn(&T) -> Option<u64>>(
    tree: &Octree<T>,
    f: F,
    g: G,
    range: u64,
    r: Option<(&T, u64)>,
) -> bool {
    &&& r.is_some() ==> exists|n: usize, p: usize|
        valid_hit(tree.nodes@, f, g, range, tree.root as int, (n, p, r.unwrap().1)) && *r.unwrap().0
            == tree.nodes@[n as int].data@[p as int]
    &&& forall|j: int, p: int, k: u64|
        descends(tree.nodes@, tree.root as int, j) && 0 <= p < tree.nodes@[j].data@.len()
            && #[trigger] hits_elem(g, tree.nodes@[j].data@[p], k, range) ==> r.is_some()
            && r.unwrap().1 <= k
}

/// Box tests that give the entry key of one ray, used both for the nodes'
/// boxes and for boxes as elements, meet what the queries ask of them.
pub proof fn lemma_entry_keys_meet_queries<F: Fn(&Aabb) -> Option<u64>, G: Fn(&Aabb) -> Option<u64>>(
    f: F,
    g: G,
    o: Point3,
    d: Point3,
)
    requires
        forall|b: &Aabb| f.requires((b,)),
        forall|b: &Aabb| g.requires((b,)),
        forall|b: &Aabb, r: Option<u64>| #[trigger] f.ensures((b,), r) ==> entry_key(*b, o, d, r),
        forall|b: &Aabb, r: Option<u64>| #[trigger] g.ensures((b,), r) ==> entry_key(*b, o, d, r),
    ensures
        box_test_is_function(f),
        elem_test_is_function::<Aabb, G>(g),
        entry_before_hit::<Aabb, F, G>(f, g),
{
    assert forall|b: Aabb, e: Aabb, k: u64, ov: Option<u64>|
        #[trigger] g.ensures((&e,), Some(k)) && #[trigger] box_inside(b, e.spec_bounds())
            && #[trigger] f.ensures((&b,), ov) implies ov.is_some() && ov.unwrap() <= k by {
        lemma_entry_keys_agree(b, e, o, d, ov, k);
    }
    assert forall|b: &Aabb, x: Option<u64>, y: Option<u64>|
        f.ensures((b,), x) && f.ensures((b,), y) implies x == y by {
        lemma_entry_key_unique(*b, o, d, x, y);
    }
    assert forall|b: &Aabb, x: Option<u64>, y: Option<u64>|
        g.ensures((b,), x) && g.ensures((b,), y) implies x == y by {
        lemma_entry_key_unique(*b, o, d, x, y);
    }
}

/// The tree has the shape a build gives it: every element lies inside the
/// box of its node, every child's box inside its parent's, and every node
/// but the root is a child of a later node.
pub open spec fn searchable<T: Spatial>(tree: &Octree<T>) -> bool {
    &&& tree.wf()
    &&& nested(tree.nodes@)
    &&& forall|k: int| 0 <= k < tree.nodes@.len() ==> holds_inside(#[trigger] tree.nodes@[k])
    &&& forall|k: int| 0 <= k < tree.root ==> #[trigger] has_parent(tree.nodes@, k)
}

/// No element stored anywhere in the tree is hit within range before the
/// returned key, and when one is hit, a key is returned.
pub open spec fn earliest_of_all<T, G: Fn(&T) -> Option<u64>>(
    tree: &Octree<T>,
    g: G,
    range: u64,
    r: Option<(&T, u64)>,
) -> bool {
    forall|j: int, p: int, k: u64|
        0 <= j < tree.nodes@.len() && 0 <= p < tree.nodes@[j].data@.len() && #[trigger] hits_elem(
            g,
            tree.nodes@[j].data@[p],
            k,
            range,
        ) ==> r.is_some() && r.unwrap().1 <= k
}

proof fn lemma_all_descend_from_root<T>(tree: &Octree<T>, j: int)
    requires
        tree.wf(),
        forall|k: int| 0 <= k < tree.root ==> #[trigger] has_parent(tree.nodes@, k),
        0 <= j < tree.nodes@.len(),
    ensures
        descends(tree.nodes@, tree.root as int, j),
{
    assert(tree.nodes@.len() == tree.nodes.len());
    assert(descends(tree.nodes@, j, j));
    lemma_descends_from_root(tree.nodes@, j, j);
}

impl<T: Spatial> Octree<T> {
    /// The element that a line segment hits first. `enters(b)` is the key of
    /// the parameter at which the segment's ray enters box `b`, `None` when it
    /// misses it; `hits(e)` is the key of the parameter at which it hits
    /// element `e`. Keys order as the parameters do. Subtrees whose box the
    /// ray misses, or enters beyond `range`, are pruned, and hits beyond
    /// `range` do not count. Among equal keys the first one found wins.
    ///
    /// On a tree of the shape a build gives it, and with a box test that
    /// never enters a box enclosing an element later than the element test
    /// hits it, pruning loses nothing: the result is `None` exactly when no
    /// stored element is hit within range, and otherwise a hit at the least
    /// key among all stored elements.
    pub fn line_segment_intersection_target_and_parameter<
        F: Fn(&Aabb) -> Option<u64>,
        G: Fn(&T) -> Option<u64>,
    >(&self, enters: &F, hits: &G, range: u64) -> (r: Option<(&T, u64)>)
        requires
            searchable(self),
            box_test_is_function(*enters),
            elem_test_is_function::<T, G>(*hits),
            entry_before_hit::<T, F, G>(*enters, *hits),
        ensures
            earliest_hit(self, *enters, *hits, range, r),
            earliest_of_all(self, *hits, range, r),
    {
        let mut best: Option<(usize, usize, u64)> = None;
        self.visit(self.root, enters, hits, range, &mut best);
        let r = match best {
            Some((n, p, k)) => {
                let e = &self.nodes[n].data[p];
                proof {
                    let r = Some((e, k));
                    assert(r.unwrap().1 == k);
                    assert(*r.unwrap().0 == self.nodes@[n as int].data@[p as int]);
                    assert(valid_hit(self.nodes@, *enters, *hits, range, self.root as int, (n, p, r.unwrap().1)));
                }
                Some((e, k))
            },
            None => None,
        };
        proof {
            assert forall|j: int, p: int, k: u64|
                0 <= j < self.nodes@.len() && 0 <= p < self.nodes@[j].data@.len() && #[trigger] hits_elem(
                    *hits,
                    self.nodes@[j].data@[p],
                    k,
                    range,
                ) implies r.is_some() && r.unwrap().1 <= k by {
                lemma_all_descend_from_root(self, j);
            }
        }
        r
    }

    /// The element that a ray hits first: a line segment of unbounded range.
    pub fn ray_intersection_target_and_parameter<
        F: Fn(&Aabb) -> Option<u64>,
        G: Fn(&T) -> Option<u64>,
    >(&self, enters: &F, hits: &G) -> (r: Option<(&T, u64)>)
        requires
            searchable(self),
            box_test_is_function(*enters),
            elem_test_is_function::<T, G>(*hits),
            entry_before_hit::<T, F, G>(*enters, *hits),
        ensures
            earliest_hit(self, *enters, *hits, u64::MAX, r),
            earliest_of_all(self, *hits, u64::MAX, r),
    {
        self.line_segment_intersection_target_and_parameter(enters, hits, u64::MAX)
    }

    /// The key of the parameter at which a ray first hits an element.
    pub fn ray_intersection_parameter<F: Fn(&Aabb) -> Option<u64>, G: Fn(&T) -> Option<u64>>(
        &self,
        enters: &F,
        hits: &G,
    ) -> (r: Option<u64>)
        requires
            searchable(self),
            box_test_is_function(*enters),
            elem_test_is_function::<T, G>(*hits),
            entry_before_hit::<T, F, G>(*enters, *hits),
        ensures
            exists|h: Option<(&T, u64)>|
                earliest_hit(self, *enters, *hits, u64::MAX, h) && earliest_of_all(self, *hits, u64::MAX, h) && r == match h {
                    Some((_, k)) => Some(k),
                    None => None,
                },
    {
        match self.ray_intersection_target_and_parameter(enters, hits) {
            Some((_, k)) => Some(k),
            None => None,
        }
    }
}

} // verus!
