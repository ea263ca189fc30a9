//! Bounding volume hierarchy construction.
//!
//! The tree is built once per render over the set of primitive bounding
//! boxes, then answers ray queries in expected logarithmic time. Construction
//! is a recursive median split: sort the current span of elements by the
//! centroid of their boxes along a cycling axis, split at the median, recurse
//! on each half, and bound each branch by the union of its children's boxes.
//! Nodes are stored in a flat table addressed by index, children before their
//! parent, so the tree is immutable after construction.
//!
//! The build reads geometry only through comparisons and componentwise minima
//! and maxima, never through arithmetic, so a coordinate here is an unsigned
//! integer order key: the application maps each floating-point coordinate to
//! a key by an order-preserving bijection, under which comparisons, minima
//! and maxima agree with the floating-point ones, and hands boxes and
//! centroids over in key form.

use vstd::prelude::*;
use vstd::math::{max, min};
use vstd::multiset::Multiset;
use vstd::seq_lib::to_multiset_update;

verus! {

// ------------------------------------------- Bounding boxes -------------------------------------------
/// An axis-aligned bounding box; coordinates are order keys (see the module
/// doc), one `min`/`max` pair per axis.
#[derive(Debug, Clone, Copy, PartialEq, Eq)]
pub struct Aabb {
    pub min: [u64; 3],
    pub max: [u64; 3],
}

/// The box has a nonempty extent description on every axis.
pub open spec fn aabb_wf(b: Aabb) -> bool {
    forall|a: int| 0 <= a < 3 ==> b.min[a] <= b.max[a]
}

/// `outer` bounds everything `inner` bounds.
pub open spec fn aabb_contains(outer: Aabb, inner: Aabb) -> bool {
    forall|a: int| 0 <= a < 3 ==> outer.min[a] <= inner.min[a] && inner.max[a] <= outer.max[a]
}

/// `r` is the smallest box containing both `x` and `y`: componentwise minima
/// and maxima.
pub open spec fn is_union(r: Aabb, x: Aabb, y: Aabb) -> bool {
    forall|a: int|
        0 <= a < 3 ==> r.min[a] == min(x.min[a] as int, y.min[a] as int) && r.max[a] == max(
            x.max[a] as int,
            y.max[a] as int,
        )
}

impl Aabb {
    /// The smallest box containing both boxes.
    pub fn union(&self, other: &Aabb) -> (r: Aabb)
        ensures
            is_union(r, *self, *other),
    {
        Aabb {
            min: [
                self.min[0].min(other.min[0]),
                self.min[1].min(other.min[1]),
                self.min[2].min(other.min[2]),
            ],
            max: [
                self.max[0].max(other.max[0]),
                self.max[1].max(other.max[1]),
                self.max[2].max(other.max[2]),
            ],
        }
    }
}

// ------------------------------------------- Tree data -------------------------------------------
/// One primitive to bound: its position in the caller's primitive list, its
/// bounding box, and the order keys of the box centroid along each axis.
#[derive(Debug, Clone, Copy)]
pub struct BvhElement {
    pub leaf: u32,
    pub aabb: Aabb,
    pub centroid: [u64; 3],
}

/// A node of the flat tree table: a branch bounds its two children, a leaf
/// bounds one primitive.
#[derive(Debug, Clone)]
pub enum BvhNode {
    Branch { aabb: Aabb, left: u32, right: u32 },
    Leaf { aabb: Aabb, leaf: u32 },
}

pub open spec fn spec_node_aabb(n: BvhNode) -> Aabb {
    match n {
        BvhNode::Branch { aabb, .. } => aabb,
        BvhNode::Leaf { aabb, .. } => aabb,
    }
}

impl BvhNode {
    pub fn bounding_box(&self) -> (r: &Aabb)
        ensures
            *r == spec_node_aabb(*self),
    {
        match self {
            BvhNode::Leaf { aabb, .. } => aabb,
            BvhNode::Branch { aabb, .. } => aabb,
        }
    }
}

/// A node is well formed when its children stand strictly before it in the
/// table, are themselves well formed, and its box is exactly the union of
/// its children's boxes (for a leaf: a well-formed box).
pub open spec fn node_wf(nodes: Seq<BvhNode>, i: int) -> bool
    decreases i,
{
    &&& 0 <= i < nodes.len()
    &&& match nodes[i] {
        BvhNode::Leaf { aabb, leaf } => aabb_wf(aabb),
        BvhNode::Branch { aabb, left, right } => {
            &&& left < i
            &&& right < i
            &&& node_wf(nodes, left as int)
            &&& node_wf(nodes, right as int)
            &&& is_union(
                aabb,
                spec_node_aabb(nodes[left as int]),
                spec_node_aabb(nodes[right as int]),
            )
        },
    }
}

/// The leaves of the subtree rooted at `i`: each primitive's list position
/// paired with its bounding box.
pub open spec fn subtree_leaves(nodes: Seq<BvhNode>, i: int) -> Multiset<(u32, Aabb)>
    decreases i,
{
    if 0 <= i < nodes.len() {
        match nodes[i] {
            BvhNode::Leaf { aabb, leaf } => Multiset::singleton((leaf, aabb)),
            BvhNode::Branch { left, right, .. } => {
                if left < i && right < i {
                    subtree_leaves(nodes, left as int).add(subtree_leaves(nodes, right as int))
                } else {
                    Multiset::empty()
                }
            },
        }
    } else {
        Multiset::empty()
    }
}

/// The primitives of a span of elements, paired with their boxes.
pub open spec fn element_pairs(s: Seq<BvhElement>, lo: int, hi: int) -> Multiset<(u32, Aabb)> {
    s.subrange(lo, hi).map_values(|e: BvhElement| (e.leaf, e.aabb)).to_multiset()
}

pub open spec fn all_elements_wf(s: Seq<BvhElement>) -> bool {
    forall|k: int| 0 <= k < s.len() ==> aabb_wf((#[trigger] s[k]).aabb)
}

/// A bounding volume hierarchy: the flat node table and the index of the
/// root node. The primitives themselves stay with the caller; leaves refer to
/// them by list position.
#[derive(Debug, Clone)]
pub struct Bvh {
    pub nodes: Vec<BvhNode>,
    pub root: u32,
}

impl Bvh {
    pub open spec fn wf(&self) -> bool {
        &&& node_wf(self.nodes@, self.root as int)
        &&& self.root as int == self.nodes@.len() - 1
    }

    /// The leaves of the whole tree.
    pub open spec fn leaves(&self) -> Multiset<(u32, Aabb)> {
        subtree_leaves(self.nodes@, self.root as int)
    }

    /// The box of the root node.
    pub open spec fn root_box(&self) -> Aabb {
        spec_node_aabb(self.nodes@[self.root as int])
    }

    /// Builds the tree over the given elements. The element span is
    /// reordered by the median splits; every element becomes exactly one
    /// leaf.
    pub fn new(elements: &mut Vec<BvhElement>) -> (r: Bvh)
        requires
            1 <= old(elements)@.len(),
            2 * old(elements)@.len() <= u32::MAX,
            all_elements_wf(old(elements)@),
        ensures
            final(elements)@.len() == old(elements)@.len(),
            r.wf(),
            r.nodes@.len() == 2 * old(elements)@.len() - 1,
            r.leaves() == element_pairs(old(elements)@, 0, old(elements)@.len() as int),
            r.leaves().len() == old(elements)@.len(),
    {
        let n = elements.len();
        let mut nodes = Vec::<BvhNode>::new();
        let root = make_bvh(elements, 0, n, 0, &mut nodes);
        proof {
            assert(element_pairs(elements@, 0, n as int) == element_pairs(
                old(elements)@,
                0,
                n as int,
            ));
            broadcast use vstd::seq_lib::group_to_multiset_ensures;

            assert(element_pairs(old(elements)@, 0, n as int).len() == n) by {
                let mapped = old(elements)@.subrange(0, n as int).map_values(
                    |e: BvhElement| (e.leaf, e.aabb),
                );
                assert(mapped.to_multiset().len() == mapped.len());
            }
        }
        Bvh { nodes, root }
    }
}

// ------------------------------------------- Construction -------------------------------------------
/// Builds the subtree over `content[lo..hi]`, appending its nodes to
/// `nodes` with the subtree root last, and returns the root's index.
#[verifier::rlimit(30)]
fn make_bvh(
    content: &mut Vec<BvhElement>,
    lo: usize,
    hi: usize,
    sort_axis: usize,
    nodes: &mut Vec<BvhNode>,
) -> (root: u32)
    requires
        lo < hi <= old(content)@.len(),
        sort_axis < 3,
        all_elements_wf(old(content)@),
        old(nodes)@.len() + 2 * (hi - lo) <= u32::MAX + 1,
    ensures
        final(content)@.len() == old(content)@.len(),
        final(content)@.subrange(0, lo as int) == old(content)@.subrange(0, lo as int),
        final(content)@.subrange(hi as int, old(content)@.len() as int) == old(
            content,
        )@.subrange(hi as int, old(content)@.len() as int),
        all_elements_wf(final(content)@),
        element_pairs(final(content)@, lo as int, hi as int) == element_pairs(
            old(content)@,
            lo as int,
            hi as int,
        ),
        final(nodes)@.len() == old(nodes)@.len() + 2 * (hi - lo) - 1,
        final(nodes)@.subrange(0, old(nodes)@.len() as int) == old(nodes)@,
        root as int == final(nodes)@.len() - 1,
        node_wf(final(nodes)@, root as int),
        subtree_leaves(final(nodes)@, root as int) == element_pairs(
            final(content)@,
            lo as int,
            hi as int,
        ),
    decreases hi - lo,
{
    if hi - lo == 1 {
        let element = content[lo];
        nodes.push(BvhNode::Leaf { aabb: element.aabb, leaf: element.leaf });
        let root = (nodes.len() - 1) as u32;
        proof {
            let ns = nodes@;
            let i = root as int;
            assert(ns.subrange(0, old(nodes)@.len() as int) =~= old(nodes)@);
            assert(content@.subrange(0, lo as int) =~= old(content)@.subrange(0, lo as int));
            assert(content@.subrange(hi as int, old(content)@.len() as int) =~= old(
                content,
            )@.subrange(hi as int, old(content)@.len() as int));
            assert(subtree_leaves(ns, i) == Multiset::singleton((element.leaf, element.aabb)));
            let mapped = content@.subrange(lo as int, hi as int).map_values(
                |e: BvhElement| (e.leaf, e.aabb),
            );
            assert(mapped =~= seq![(element.leaf, element.aabb)]);
            assert(mapped.to_multiset() =~= Multiset::singleton((element.leaf, element.aabb)))
                by {
                broadcast use vstd::seq_lib::group_to_multiset_ensures;

                assert(mapped == mapped.drop_last().push((element.leaf, element.aabb)));
                assert(mapped.drop_last() =~= Seq::<(u32, Aabb)>::empty());
            }
        }
        root
    } else {
        sort_range(content, lo, hi, sort_axis);
        let mid = lo + (hi - lo) / 2;
        let next_axis = (sort_axis + 1) % 3;
        let ghost content_sorted = content@;
        let left = make_bvh(content, lo, mid, next_axis, nodes);
        let ghost nodes_after_left = nodes@;
        let ghost content_after_left = content@;
        let right = make_bvh(content, mid, hi, next_axis, nodes);
        let ghost nodes_after_right = nodes@;
        proof {
            lemma_node_table_grow(nodes_after_left, nodes_after_right, left as int);
        }
        let aabb = nodes[left as usize].bounding_box().union(nodes[right as usize].bounding_box());
        nodes.push(BvhNode::Branch { left, right, aabb });
        let root = (nodes.len() - 1) as u32;
        proof {
            let ns = nodes@;
            let i = root as int;
            let n = old(content)@.len() as int;
            let cs = content_sorted;
            let cal = content_after_left;
            let cur = content@;
            // The earlier node tables are prefixes of the final one.
            assert(ns.subrange(0, nodes_after_right.len() as int) =~= nodes_after_right);
            lemma_node_table_grow(nodes_after_right, ns, left as int);
            lemma_node_table_grow(nodes_after_right, ns, right as int);
            assert(ns.subrange(0, old(nodes)@.len() as int) =~= old(nodes)@) by {
                assert forall|k: int| 0 <= k < old(nodes)@.len() implies ns.subrange(
                    0,
                    old(nodes)@.len() as int,
                )[k] == old(nodes)@[k] by {
                    assert(nodes_after_right.subrange(0, nodes_after_left.len() as int)[k]
                        == nodes_after_left[k]);
                    assert(nodes_after_left.subrange(0, old(nodes)@.len() as int)[k] == old(
                        nodes,
                    )@[k]);
                    assert(ns.subrange(0, nodes_after_right.len() as int)[k]
                        == nodes_after_right[k]);
                }
            }
            // The spans outside [lo, hi) carry through all three passes.
            lemma_subrange_restrict(cur, cal, 0, mid as int, 0, lo as int);
            assert(cur.subrange(0, lo as int) =~= old(content)@.subrange(0, lo as int)) by {
                assert forall|k: int| 0 <= k < lo implies cur.subrange(0, lo as int)[k] == old(
                    content,
                )@.subrange(0, lo as int)[k] by {
                    assert(cur.subrange(0, lo as int)[k] == cal.subrange(0, lo as int)[k]);
                    assert(cal.subrange(0, lo as int)[k] == cs.subrange(0, lo as int)[k]);
                    assert(cs.subrange(0, lo as int)[k] == old(content)@.subrange(0, lo as int)[k]);
                }
            }
            lemma_subrange_restrict(cal, cs, mid as int, n, hi as int, n);
            assert(cur.subrange(hi as int, n) =~= old(content)@.subrange(hi as int, n)) by {
                assert forall|k: int| 0 <= k < n - hi implies cur.subrange(hi as int, n)[k] == old(
                    content,
                )@.subrange(hi as int, n)[k] by {
                    assert(cur.subrange(hi as int, n)[k] == cal.subrange(hi as int, n)[k]);
                    assert(cal.subrange(hi as int, n)[k] == cs.subrange(hi as int, n)[k]);
                    assert(cs.subrange(hi as int, n)[k] == old(content)@.subrange(hi as int, n)[k]);
                }
            }
            // The left span kept its element pairs through the right build.
            lemma_subrange_restrict(cur, cal, 0, mid as int, lo as int, mid as int);
            lemma_element_pairs_framed(cal, cur, lo as int, mid as int);
            // Pairs of the whole span split at the median.
            lemma_element_pairs_split(cur, lo as int, mid as int, hi as int);
            lemma_element_pairs_split(cs, lo as int, mid as int, hi as int);
            lemma_subrange_restrict(cal, cs, mid as int, n, mid as int, hi as int);
            lemma_element_pairs_framed(cs, cal, mid as int, hi as int);
        }
        root
    }
}

/// A sequence equality over a span restricts to any inner span.
proof fn lemma_subrange_restrict<A>(s1: Seq<A>, s2: Seq<A>, a: int, b: int, c: int, d: int)
    requires
        0 <= a <= c <= d <= b <= s1.len(),
        s1.len() == s2.len(),
        s1.subrange(a, b) == s2.subrange(a, b),
    ensures
        s1.subrange(c, d) == s2.subrange(c, d),
{
    assert forall|k: int| 0 <= k < d - c implies s1.subrange(c, d)[k] == s2.subrange(c, d)[k] by {
        assert(s1.subrange(a, b)[c - a + k] == s2.subrange(a, b)[c - a + k]);
        assert(s1.subrange(a, b)[c - a + k] == s1[c + k]);
        assert(s2.subrange(a, b)[c - a + k] == s2[c + k]);
        assert(s1.subrange(c, d)[k] == s1[c + k]);
        assert(s2.subrange(c, d)[k] == s2[c + k]);
    }
    assert(s1.subrange(c, d) =~= s2.subrange(c, d));
}

/// Well-formedness and the leaf multiset of an existing subtree are
/// unaffected when the node table grows at the end.
proof fn lemma_node_table_grow(nodes1: Seq<BvhNode>, nodes2: Seq<BvhNode>, i: int)
    requires
        nodes1.len() <= nodes2.len(),
        nodes2.subrange(0, nodes1.len() as int) == nodes1,
        node_wf(nodes1, i),
    ensures
        node_wf(nodes2, i),
        subtree_leaves(nodes2, i) == subtree_leaves(nodes1, i),
    decreases i,
{
    assert(nodes2[i] == nodes2.subrange(0, nodes1.len() as int)[i]);
    match nodes1[i] {
        BvhNode::Leaf { .. } => {},
        BvhNode::Branch { left, right, .. } => {
            lemma_node_table_grow(nodes1, nodes2, left as int);
            lemma_node_table_grow(nodes1, nodes2, right as int);
        },
    }
}

/// Two states of the element list with equal entries over `[lo, hi)` have
/// the same element pairs there.
proof fn lemma_element_pairs_framed(s1: Seq<BvhElement>, s2: Seq<BvhElement>, lo: int, hi: int)
    requires
        s1.len() == s2.len(),
        0 <= lo <= hi <= s1.len(),
        s2.subrange(lo, hi) == s1.subrange(lo, hi),
    ensures
        element_pairs(s2, lo, hi) == element_pairs(s1, lo, hi),
{
}

/// The element pairs of a span are those of its two halves together.
proof fn lemma_element_pairs_split(s: Seq<BvhElement>, lo: int, mid: int, hi: int)
    requires
        0 <= lo <= mid <= hi <= s.len(),
    ensures
        element_pairs(s, lo, hi) == element_pairs(s, lo, mid).add(element_pairs(s, mid, hi)),
{
    let f = |e: BvhElement| (e.leaf, e.aabb);
    let whole = s.subrange(lo, hi).map_values(f);
    let first = s.subrange(lo, mid).map_values(f);
    let second = s.subrange(mid, hi).map_values(f);
    assert(whole =~= first + second);
    vstd::seq_lib::lemma_multiset_commutative(first, second);
}

// ------------------------------------------- Sorting -------------------------------------------
/// Sorts `content[lo..hi]` by the centroid key along `axis` (insertion
/// sort); the span keeps its elements, everything outside it stays put.
#[verifier::rlimit(30)]
fn sort_range(content: &mut Vec<BvhElement>, lo: usize, hi: usize, axis: usize)
    requires
        lo <= hi <= old(content)@.len(),
        axis < 3,
    ensures
        final(content)@.len() == old(content)@.len(),
        final(content)@.subrange(0, lo as int) == old(content)@.subrange(0, lo as int),
        final(content)@.subrange(hi as int, old(content)@.len() as int) == old(
            content,
        )@.subrange(hi as int, old(content)@.len() as int),
        final(content)@.subrange(lo as int, hi as int).to_multiset() == old(content)@.subrange(
            lo as int,
            hi as int,
        ).to_multiset(),
        element_pairs(final(content)@, lo as int, hi as int) == element_pairs(
            old(content)@,
            lo as int,
            hi as int,
        ),
        all_elements_wf(old(content)@) ==> all_elements_wf(final(content)@),
        forall|p: int, q: int|
            lo <= p <= q < hi ==> (#[trigger] final(content)@[p]).centroid[axis as int]
                <= (#[trigger] final(content)@[q]).centroid[axis as int],
{
    if hi - lo < 2 {
        proof {
            lemma_pairs_of_equal_multisets(content@, content@, lo as int, hi as int);
        }
        return ;
    }
    let mut i = lo + 1;
    while i < hi
        invariant
            lo < i <= hi <= content@.len(),
            axis < 3,
            content@.len() == old(content)@.len(),
            content@.subrange(0, lo as int) == old(content)@.subrange(0, lo as int),
            content@.subrange(hi as int, content@.len() as int) == old(content)@.subrange(
                hi as int,
                old(content)@.len() as int,
            ),
            content@.subrange(lo as int, hi as int).to_multiset() == old(content)@.subrange(
                lo as int,
                hi as int,
            ).to_multiset(),
            all_elements_wf(old(content)@) ==> all_elements_wf(content@),
            forall|p: int, q: int|
                lo <= p <= q < i ==> (#[trigger] content@[p]).centroid[axis as int]
                    <= (#[trigger] content@[q]).centroid[axis as int],
        decreases hi - i,
    {
        let mut j = i;
        while j > lo && content[j - 1].centroid[axis] > content[j].centroid[axis]
            invariant
                lo <= j <= i < hi <= content@.len(),
                axis < 3,
                content@.len() == old(content)@.len(),
                content@.subrange(0, lo as int) == old(content)@.subrange(0, lo as int),
                content@.subrange(hi as int, content@.len() as int) == old(content)@.subrange(
                    hi as int,
                    old(content)@.len() as int,
                ),
                content@.subrange(lo as int, hi as int).to_multiset() == old(content)@.subrange(
                    lo as int,
                    hi as int,
                ).to_multiset(),
                all_elements_wf(old(content)@) ==> all_elements_wf(content@),
                forall|p: int, q: int|
                    lo <= p <= q <= i && p != j && q != j ==> (#[trigger] content@[p]).centroid[axis as int]
                        <= (#[trigger] content@[q]).centroid[axis as int],
                forall|q: int|
                    j < q <= i ==> (#[trigger] content@[q]).centroid[axis as int]
                        >= content@[j as int].centroid[axis as int],
            decreases j,
        {
            let ghost before = content@;
            let a = content[j - 1];
            let b = content[j];
            content.set(j - 1, b);
            content.set(j, a);
            proof {
                lemma_swap_frame(before, content@, lo as int, hi as int, j as int - 1, j as int);
            }
            j = j - 1;
        }
        i = i + 1;
    }
    proof {
        lemma_pairs_of_equal_multisets(old(content)@, content@, lo as int, hi as int);
    }
}

/// Swapping two entries inside `[lo, hi)` keeps the span's multiset, the
/// outside entries, and the set of boxes.
proof fn lemma_swap_frame(s1: Seq<BvhElement>, s2: Seq<BvhElement>, lo: int, hi: int, u: int, v: int)
    requires
        0 <= lo <= u < v < hi <= s1.len(),
        s2 == s1.update(u, s1[v]).update(v, s1[u]),
    ensures
        s2.len() == s1.len(),
        s2.subrange(0, lo) == s1.subrange(0, lo),
        s2.subrange(hi, s1.len() as int) == s1.subrange(hi, s1.len() as int),
        s2.subrange(lo, hi).to_multiset() == s1.subrange(lo, hi).to_multiset(),
        all_elements_wf(s1) ==> all_elements_wf(s2),
{
    assert(s2.subrange(0, lo) =~= s1.subrange(0, lo));
    assert(s2.subrange(hi, s1.len() as int) =~= s1.subrange(hi, s1.len() as int));
    let sub1 = s1.subrange(lo, hi);
    let sub2 = s2.subrange(lo, hi);
    assert(sub2 =~= sub1.update(u - lo, sub1[v - lo]).update(v - lo, sub1[u - lo]));
    lemma_swap_to_multiset(sub1, u - lo, v - lo);
}

/// Exchanging two entries of a sequence keeps its multiset.
proof fn lemma_swap_to_multiset<A>(s: Seq<A>, u: int, v: int)
    requires
        0 <= u < v < s.len(),
    ensures
        s.update(u, s[v]).update(v, s[u]).to_multiset() == s.to_multiset(),
{
    broadcast use vstd::seq_lib::group_to_multiset_ensures;

    let s1 = s.update(u, s[v]);
    let s2 = s1.update(v, s[u]);
    to_multiset_update(s, u, s[v]);
    to_multiset_update(s1, v, s[u]);
    assert(s.contains(s[u]));
    assert(s.to_multiset().count(s[u]) > 0);
    assert(s1[v] == s[v]);
    assert(s2.to_multiset() =~= s.to_multiset());
}

/// Spans with equal multisets of elements have equal element pairs.
proof fn lemma_pairs_of_equal_multisets(
    s1: Seq<BvhElement>,
    s2: Seq<BvhElement>,
    lo: int,
    hi: int,
)
    requires
        0 <= lo <= hi <= s1.len(),
        0 <= hi <= s2.len(),
        s2.subrange(lo, hi).to_multiset() == s1.subrange(lo, hi).to_multiset(),
    ensures
        element_pairs(s2, lo, hi) == element_pairs(s1, lo, hi),
{
    let f = |e: BvhElement| (e.leaf, e.aabb);
    lemma_map_values_multiset(s1.subrange(lo, hi), s2.subrange(lo, hi), f);
}

/// Mapping a function over sequences with equal multisets gives equal
/// multisets.
proof fn lemma_map_values_multiset<A, B>(s1: Seq<A>, s2: Seq<A>, f: spec_fn(A) -> B)
    requires
        s1.to_multiset() == s2.to_multiset(),
    ensures
        s1.map_values(f).to_multiset() == s2.map_values(f).to_multiset(),
    decreases s1.len(),
{
    broadcast use vstd::seq_lib::group_to_multiset_ensures;

    if s1.len() > 0 {
        let a = s1.last();
        assert(s1.to_multiset().count(a) > 0);
        assert(s2.contains(a));
        let i = s2.index_of(a);
        assert(s1.drop_last() == s1.remove(s1.len() - 1));
        assert(s1.drop_last().to_multiset() == s2.remove(i).to_multiset());
        lemma_map_values_multiset(s1.drop_last(), s2.remove(i), f);
        assert(s1.map_values(f) =~= s1.drop_last().map_values(f).push(f(a)));
        assert(s2.remove(i).map_values(f) =~= s2.map_values(f).remove(i));
        assert(s2.map_values(f)[i] == f(a));
        assert(s2.map_values(f).contains(f(a)));
        assert(s2.map_values(f).to_multiset().count(f(a)) > 0);
        assert(s1.map_values(f).to_multiset() =~= s2.map_values(f).to_multiset());
    } else {
        assert(s2.to_multiset().len() == 0);
        assert(s1.map_values(f) =~= s2.map_values(f));
    }
}

// ------------------------------------------- Soundness -------------------------------------------
/// The box of every well-formed node bounds the box of every leaf below it.
pub proof fn lemma_node_contains_leaves(nodes: Seq<BvhNode>, i: int)
    requires
        node_wf(nodes, i),
    ensures
        aabb_wf(spec_node_aabb(nodes[i])),
        forall|p: (u32, Aabb)|
            subtree_leaves(nodes, i).contains(p) ==> aabb_contains(spec_node_aabb(nodes[i]), p.1),
    decreases i,
{
    match nodes[i] {
        BvhNode::Leaf { .. } => {},
        BvhNode::Branch { aabb, left, right } => {
            lemma_node_contains_leaves(nodes, left as int);
            lemma_node_contains_leaves(nodes, right as int);
            let ls = subtree_leaves(nodes, left as int);
            let rs = subtree_leaves(nodes, right as int);
            assert forall|p: (u32, Aabb)|
                subtree_leaves(nodes, i).contains(p) implies aabb_contains(
                spec_node_aabb(nodes[i]),
                p.1,
            ) by {
                assert(ls.count(p) + rs.count(p) > 0);
                if ls.count(p) > 0 {
                    assert(ls.contains(p));
                } else {
                    assert(rs.contains(p));
                }
            }
        },
    }
}

/// On axis `a`, some leaf below node `i` reaches the node's box minimum.
pub open spec fn some_leaf_attains_min(nodes: Seq<BvhNode>, i: int, a: int) -> bool {
    exists|p: (u32, Aabb)|
        #[trigger] subtree_leaves(nodes, i).contains(p) && p.1.min[a] == spec_node_aabb(
            nodes[i],
        ).min[a]
}

/// On axis `a`, some leaf below node `i` reaches the node's box maximum.
pub open spec fn some_leaf_attains_max(nodes: Seq<BvhNode>, i: int, a: int) -> bool {
    exists|p: (u32, Aabb)|
        #[trigger] subtree_leaves(nodes, i).contains(p) && p.1.max[a] == spec_node_aabb(
            nodes[i],
        ).max[a]
}

/// The box of every well-formed node is tight: on each axis some leaf below
/// it reaches the node's minimum, and some leaf its maximum. Together with
/// `lemma_node_contains_leaves` this says the node's box is exactly the
/// union of its leaves' boxes.
pub proof fn lemma_node_box_tight(nodes: Seq<BvhNode>, i: int)
    requires
        node_wf(nodes, i),
    ensures
        forall|a: int| 0 <= a < 3 ==> #[trigger] some_leaf_attains_min(nodes, i, a),
        forall|a: int| 0 <= a < 3 ==> #[trigger] some_leaf_attains_max(nodes, i, a),
    decreases i,
{
    match nodes[i] {
        BvhNode::Leaf { aabb, leaf } => {
            assert forall|a: int| 0 <= a < 3 implies #[trigger] some_leaf_attains_min(
                nodes,
                i,
                a,
            ) by {
                let p = (leaf, aabb);
                assert(subtree_leaves(nodes, i).contains(p) && p.1.min[a] == spec_node_aabb(
                    nodes[i],
                ).min[a]);
            }
            assert forall|a: int| 0 <= a < 3 implies #[trigger] some_leaf_attains_max(
                nodes,
                i,
                a,
            ) by {
                let p = (leaf, aabb);
                assert(subtree_leaves(nodes, i).contains(p) && p.1.max[a] == spec_node_aabb(
                    nodes[i],
                ).max[a]);
            }
        },
        BvhNode::Branch { aabb, left, right } => {
            lemma_node_box_tight(nodes, left as int);
            lemma_node_box_tight(nodes, right as int);
            let ls = subtree_leaves(nodes, left as int);
            let rs = subtree_leaves(nodes, right as int);
            assert forall|a: int| 0 <= a < 3 implies #[trigger] some_leaf_attains_min(
                nodes,
                i,
                a,
            ) by {
                if spec_node_aabb(nodes[left as int]).min[a] <= spec_node_aabb(
                    nodes[right as int],
                ).min[a] {
                    assert(some_leaf_attains_min(nodes, left as int, a));
                    let p = choose|p: (u32, Aabb)|
                        #[trigger] ls.contains(p) && p.1.min[a] == spec_node_aabb(
                            nodes[left as int],
                        ).min[a];
                    assert(subtree_leaves(nodes, i).contains(p) && p.1.min[a] == spec_node_aabb(
                        nodes[i],
                    ).min[a]);
                } else {
                    assert(some_leaf_attains_min(nodes, right as int, a));
                    let p = choose|p: (u32, Aabb)|
                        #[trigger] rs.contains(p) && p.1.min[a] == spec_node_aabb(
                            nodes[right as int],
                        ).min[a];
                    assert(subtree_leaves(nodes, i).contains(p) && p.1.min[a] == spec_node_aabb(
                        nodes[i],
                    ).min[a]);
                }
            }
            assert forall|a: int| 0 <= a < 3 implies #[trigger] some_leaf_attains_max(
                nodes,
                i,
                a,
            ) by {
                if spec_node_aabb(nodes[left as int]).max[a] >= spec_node_aabb(
                    nodes[right as int],
                ).max[a] {
                    assert(some_leaf_attains_max(nodes, left as int, a));
                    let p = choose|p: (u32, Aabb)|
                        #[trigger] ls.contains(p) && p.1.max[a] == spec_node_aabb(
                            nodes[left as int],
                        ).max[a];
                    assert(subtree_leaves(nodes, i).contains(p) && p.1.max[a] == spec_node_aabb(
                        nodes[i],
                    ).max[a]);
                } else {
                    assert(some_leaf_attains_max(nodes, right as int, a));
                    let p = choose|p: (u32, Aabb)|
                        #[trigger] rs.contains(p) && p.1.max[a] == spec_node_aabb(
                            nodes[right as int],
                        ).max[a];
                    assert(subtree_leaves(nodes, i).contains(p) && p.1.max[a] == spec_node_aabb(
                        nodes[i],
                    ).max[a]);
                }
            }
        },
    }
}

/// Soundness of a built tree: the root's box is the union of every leaf's
/// box — it contains each of them, and on every axis its minimum and its
/// maximum are attained by some leaf. Since `Bvh::new` makes the leaves
/// exactly the input primitives paired with their boxes, the root bounds
/// every primitive handed to the build.
pub proof fn lemma_bvh_soundness(b: &Bvh)
    requires
        b.wf(),
    ensures
        aabb_wf(b.root_box()),
        forall|p: (u32, Aabb)| b.leaves().contains(p) ==> aabb_contains(b.root_box(), p.1),
        forall|a: int| 0 <= a < 3 ==> #[trigger] some_leaf_attains_min(b.nodes@, b.root as int, a),
        forall|a: int| 0 <= a < 3 ==> #[trigger] some_leaf_attains_max(b.nodes@, b.root as int, a),
{
    lemma_node_contains_leaves(b.nodes@, b.root as int);
    lemma_node_box_tight(b.nodes@, b.root as int);
}

} // verus!
