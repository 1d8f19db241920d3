//! The bounding volume hierarchy: a binary tree over triangle indices.
//!
//! Construction splits a set of triangles on the longest axis of their enclosing
//! box, at the median of their box centers on that axis, until a set is small
//! enough or deep enough to become a leaf. Only the order of coordinates enters
//! these decisions, so boxes and centers are given as order keys; which axis is the
//! longest is measured in floating point by the caller, through `longest_axis`.
use vstd::prelude::*;
use vstd::relations::{sorted_by, total_ordering};
use vstd::seq_lib::{lemma_multiset_commutative, lemma_sorted_unique};
use crate::aabb::{Boundingbox, empty_box, union_spec};
use crate::keys::KeyVec3;

verus! {

broadcast use vstd::seq_lib::group_to_multiset_ensures, vstd::multiset::group_multiset_axioms;

/// A set of at most this many triangles becomes a leaf.
pub const MAX_TRIANGLES_PER_LEAF: usize = 4;

/// The depth at which every set becomes a leaf, whatever its size.
pub const MAX_DEPTH: usize = 32;

/// Above this many triangles the median is taken over this many evenly spaced ones.
pub const MEDIAN_SAMPLES: usize = 100;

/// The box that holds the boxes of the triangles `idx`.
pub open spec fn enclosing(boxes: Seq<Boundingbox>, idx: Seq<usize>) -> Boundingbox
    decreases idx.len(),
{
    if idx.len() == 0 {
        empty_box()
    } else {
        union_spec(enclosing(boxes, idx.drop_last()), boxes[idx.last() as int])
    }
}

/// Every index lies below `n`.
pub open spec fn indices_below(idx: Seq<usize>, n: nat) -> bool {
    forall|k: int| 0 <= k < idx.len() ==> #[trigger] idx[k] < n
}

/// The center keys, on `axis`, from which the median is taken: all of them, or
/// `MEDIAN_SAMPLES` evenly spaced ones from a larger set.
pub open spec fn center_sample(centers: Seq<KeyVec3>, idx: Seq<usize>, axis: int) -> Seq<u32> {
    if idx.len() > MEDIAN_SAMPLES as nat {
        let step = (idx.len() / (MEDIAN_SAMPLES as nat)) as int;
        Seq::new(MEDIAN_SAMPLES as nat, |j: int| centers[idx[j * step] as int].at(axis))
    } else {
        Seq::new(idx.len(), |j: int| centers[idx[j] as int].at(axis))
    }
}

/// The ascending order of keys.
pub open spec fn key_order() -> spec_fn(u32, u32) -> bool {
    |a: u32, b: u32| a <= b
}

/// The element in the middle (at index `len / 2`) of the sorted sample.
pub open spec fn median_key(centers: Seq<KeyVec3>, idx: Seq<usize>, axis: int) -> u32 {
    let s = center_sample(centers, idx, axis);
    s.sort_by(key_order())[(s.len() / 2) as int]
}

/// The triangles whose center on `axis` lies below `split`.
pub open spec fn below(centers: Seq<KeyVec3>, axis: int, split: u32) -> spec_fn(usize) -> bool {
    |i: usize| centers[i as int].at(axis) < split
}

pub open spec fn not_below(centers: Seq<KeyVec3>, axis: int, split: u32) -> spec_fn(usize) -> bool {
    |i: usize| !(centers[i as int].at(axis) < split)
}

/// The two halves of a split: the triangles below `split` and the others, kept in
/// their order; where one of them is empty, the first and the second half of `idx`.
pub open spec fn split_spec(centers: Seq<KeyVec3>, idx: Seq<usize>, axis: int, split: u32) -> (
    Seq<usize>,
    Seq<usize>,
) {
    let l = idx.filter(below(centers, axis, split));
    let r = idx.filter(not_below(centers, axis, split));
    if l.len() == 0 || r.len() == 0 {
        (idx.subrange(0, (idx.len() / 2) as int), idx.subrange((idx.len() / 2) as int, idx.len() as int))
    } else {
        (l, r)
    }
}

pub proof fn lemma_enclosing_contains(boxes: Seq<Boundingbox>, idx: Seq<usize>, j: int)
    requires
        0 <= j < idx.len(),
    ensures
        enclosing(boxes, idx).contains(boxes[idx[j] as int]),
    decreases idx.len(),
{
    if j < idx.len() - 1 {
        lemma_enclosing_contains(boxes, idx.drop_last(), j);
    }
}

/// The two filters of a sequence by a predicate and its negation hold, together,
/// its elements.
pub proof fn lemma_filter_halves(s: Seq<usize>, p: spec_fn(usize) -> bool, q: spec_fn(usize) -> bool)
    requires
        forall|x: usize| #[trigger] q(x) == !p(x),
    ensures
        s.filter(p).to_multiset().add(s.filter(q).to_multiset()) == s.to_multiset(),
    decreases s.len(),
{
    if s.len() == 0 {
        assert(s.filter(p) =~= Seq::<usize>::empty());
        assert(s.filter(q) =~= Seq::<usize>::empty());
        assert(s.filter(p).to_multiset().add(s.filter(q).to_multiset()) =~= s.to_multiset());
    } else {
        let t = s.drop_last();
        let x = s.last();
        lemma_filter_halves(t, p, q);
        assert(t.push(x) == s);
        t.lemma_filter_push(x, p);
        t.lemma_filter_push(x, q);
        assert(s.filter(p).to_multiset().add(s.filter(q).to_multiset()) =~= s.to_multiset());
    }
}

/// The two halves of a split hold, together, the triangles that were split.
pub proof fn lemma_split_keeps_all(centers: Seq<KeyVec3>, idx: Seq<usize>, axis: int, split: u32)
    ensures
        split_spec(centers, idx, axis, split).0.to_multiset().add(
            split_spec(centers, idx, axis, split).1.to_multiset(),
        ) == idx.to_multiset(),
{
    let l = idx.filter(below(centers, axis, split));
    let r = idx.filter(not_below(centers, axis, split));
    if l.len() == 0 || r.len() == 0 {
        let m = (idx.len() / 2) as int;
        assert(idx.subrange(0, m) + idx.subrange(m, idx.len() as int) =~= idx);
        lemma_multiset_commutative(idx.subrange(0, m), idx.subrange(m, idx.len() as int));
    } else {
        lemma_filter_halves(idx, below(centers, axis, split), not_below(centers, axis, split));
    }
}

/// The box that holds the boxes of the triangles `indices`; the empty box for none.
pub fn get_enclosing_box(boxes: &Vec<Boundingbox>, indices: &Vec<usize>) -> (r: Boundingbox)
    requires
        indices_below(indices@, boxes@.len()),
    ensures
        r == enclosing(boxes@, indices@),
{
    let mut bbox = Boundingbox::new_empty();
    let mut k: usize = 0;
    while k < indices.len()
        invariant
            k <= indices.len(),
            indices_below(indices@, boxes@.len()),
            bbox == enclosing(boxes@, indices@.subrange(0, k as int)),
        decreases indices.len() - k,
    {
        assert(indices@.subrange(0, k as int + 1).drop_last() =~= indices@.subrange(0, k as int));
        bbox.expand(&boxes[indices[k]]);
        k += 1;
    }
    assert(indices@.subrange(0, k as int) =~= indices@);
    bbox
}

/// Relies on `slice::sort_unstable`: the slice ends in ascending order and holds
/// the same elements.
#[verifier::external_body]
fn sort_keys(v: &mut Vec<u32>)
    ensures
        sorted_by(final(v)@, key_order()),
        final(v)@.to_multiset() == old(v)@.to_multiset(),
{
    v.sort_unstable();
}

/// The median of the triangles' centers on `axis` (see `median_key`).
pub fn find_median(centers: &Vec<KeyVec3>, indices: &Vec<usize>, axis: usize) -> (r: u32)
    requires
        indices.len() >= 1,
        axis < 3,
        indices_below(indices@, centers@.len()),
    ensures
        r == median_key(centers@, indices@, axis as int),
{
    let ghost s = center_sample(centers@, indices@, axis as int);
    let mut samples: Vec<u32> = Vec::new();
    let n = indices.len();
    if n > MEDIAN_SAMPLES {
        let step = n / MEDIAN_SAMPLES;
        let mut j: usize = 0;
        while j < MEDIAN_SAMPLES
            invariant
                n == indices.len(),
                n > MEDIAN_SAMPLES,
                step == n / MEDIAN_SAMPLES,
                j <= MEDIAN_SAMPLES,
                axis < 3,
                indices_below(indices@, centers@.len()),
                s == center_sample(centers@, indices@, axis as int),
                samples@ =~= s.subrange(0, j as int),
            decreases MEDIAN_SAMPLES - j,
        {
            assert(j * step <= 99 * step < n) by (nonlinear_arith)
                requires
                    j < 100,
                    step == n / 100,
                    n > 100,
            ;
            let i = indices[j * step];
            samples.push(centers[i].get(axis));
            j += 1;
        }
    } else {
        let mut j: usize = 0;
        while j < n
            invariant
                n == indices.len(),
                n <= MEDIAN_SAMPLES,
                j <= n,
                axis < 3,
                indices_below(indices@, centers@.len()),
                s == center_sample(centers@, indices@, axis as int),
                samples@ =~= s.subrange(0, j as int),
            decreases n - j,
        {
            let i = indices[j];
            samples.push(centers[i].get(axis));
            j += 1;
        }
    }
    assert(samples@ =~= s);
    sort_keys(&mut samples);
    proof {
        assert(total_ordering(key_order()));
        s.lemma_sort_by_ensures(key_order());
        lemma_sorted_unique(samples@, s.sort_by(key_order()), key_order());
        assert(samples@ == s.sort_by(key_order()));
        assert(s.len() >= 1);
        assert(samples@.to_multiset().len() == s.to_multiset().len());
        assert(samples@.len() == s.len());
    }
    samples[samples.len() / 2]
}

/// Splits the triangles `indices` at `split` on `axis` (see `split_spec`).
pub fn partition_indices(centers: &Vec<KeyVec3>, indices: &Vec<usize>, axis: usize, split: u32) -> (r: (Vec<usize>, Vec<usize>))
    requires
        axis < 3,
        indices_below(indices@, centers@.len()),
    ensures
        (r.0@, r.1@) == split_spec(centers@, indices@, axis as int, split),
{
    let ghost p = below(centers@, axis as int, split);
    let ghost q = not_below(centers@, axis as int, split);
    let mut left: Vec<usize> = Vec::new();
    let mut right: Vec<usize> = Vec::new();
    let mut k: usize = 0;
    while k < indices.len()
        invariant
            k <= indices.len(),
            axis < 3,
            indices_below(indices@, centers@.len()),
            p == below(centers@, axis as int, split),
            q == not_below(centers@, axis as int, split),
            left@ == indices@.subrange(0, k as int).filter(p),
            right@ == indices@.subrange(0, k as int).filter(q),
        decreases indices.len() - k,
    {
        let i = indices[k];
        proof {
            assert(indices@.subrange(0, k as int + 1) =~= indices@.subrange(0, k as int).push(i));
            indices@.subrange(0, k as int).lemma_filter_push(i, p);
            indices@.subrange(0, k as int).lemma_filter_push(i, q);
        }
        if centers[i].get(axis) < split {
            left.push(i);
        } else {
            right.push(i);
        }
        k += 1;
    }
    assert(indices@.subrange(0, k as int) =~= indices@);
    if left.len() == 0 || right.len() == 0 {
        let mid = indices.len() / 2;
        let mut first: Vec<usize> = Vec::new();
        let mut second: Vec<usize> = Vec::new();
        let mut k: usize = 0;
        while k < indices.len()
            invariant
                k <= indices.len(),
                mid == indices.len() / 2,
                k <= mid ==> first@ =~= indices@.subrange(0, k as int) && second@.len() == 0,
                k > mid ==> first@ =~= indices@.subrange(0, mid as int)
                    && second@ =~= indices@.subrange(mid as int, k as int),
            decreases indices.len() - k,
        {
            if k < mid {
                first.push(indices[k]);
            } else {
                second.push(indices[k]);
            }
            k += 1;
        }
        (first, second)
    } else {
        (left, right)
    }
}

/// A node of the hierarchy: a leaf, with the indices of its triangles, or an inner
/// node with two children. Each node has the box of the triangles below it.
#[derive(Debug)]
pub struct BvhNode {
    pub bbox: Boundingbox,
    pub left: Option<Box<BvhNode>>,
    pub right: Option<Box<BvhNode>>,
    pub triangle_indices: Option<Vec<usize>>,
}

/// The sequence `0, 1, ..., n - 1`.
pub open spec fn index_range(n: nat) -> Seq<usize> {
    Seq::new(n, |i: int| i as usize)
}

impl BvhNode {
    /// A leaf has indices and no children; an inner node has two children and no indices.
    pub open spec fn wf(self) -> bool
        decreases self,
    {
        match self.triangle_indices {
            Some(_) => self.left is None && self.right is None,
            None => match (self.left, self.right) {
                (Some(l), Some(r)) => l.wf() && r.wf(),
                _ => false,
            },
        }
    }

    /// The triangle indices of the leaves, from left to right.
    pub open spec fn leaves(self) -> Seq<usize>
        decreases self,
    {
        match self.triangle_indices {
            Some(v) => v@,
            None => {
                let l = match self.left {
                    Some(n) => n.leaves(),
                    None => Seq::empty(),
                };
                let r = match self.right {
                    Some(n) => n.leaves(),
                    None => Seq::empty(),
                };
                l + r
            },
        }
    }

    /// The number of edges on the longest path from this node down to a leaf.
    pub open spec fn height(self) -> nat
        decreases self,
    {
        let l = match self.left {
            Some(n) => n.height() + 1,
            None => 0,
        };
        let r = match self.right {
            Some(n) => n.height() + 1,
            None => 0,
        };
        if l >= r { l } else { r }
    }

    /// At this node and every node below it, the node's box holds the box of each
    /// triangle below it.
    pub open spec fn bounds_all(self, boxes: Seq<Boundingbox>) -> bool
        decreases self,
    {
        &&& forall|k: int|
            0 <= k < self.leaves().len() ==> #[trigger] self.leaves()[k] < boxes.len()
                && self.bbox.contains(boxes[self.leaves()[k] as int])
        &&& match self.left {
            Some(n) => n.bounds_all(boxes),
            None => true,
        }
        &&& match self.right {
            Some(n) => n.bounds_all(boxes),
            None => true,
        }
    }

    /// The rule of leaves for a node at `depth`: a leaf holds at most
    /// `MAX_TRIANGLES_PER_LEAF` triangles unless it lies at `MAX_DEPTH`; an inner node
    /// lies above `MAX_DEPTH` and has more triangles below it than a leaf may hold.
    pub open spec fn shaped(self, depth: nat) -> bool
        decreases self,
    {
        match self.triangle_indices {
            Some(v) => v@.len() <= MAX_TRIANGLES_PER_LEAF || depth >= MAX_DEPTH,
            None => {
                &&& depth < MAX_DEPTH
                &&& self.leaves().len() > MAX_TRIANGLES_PER_LEAF
                &&& match self.left {
                    Some(n) => n.shaped(depth + 1),
                    None => true,
                }
                &&& match self.right {
                    Some(n) => n.shaped(depth + 1),
                    None => true,
                }
            },
        }
    }

    /// What a hierarchy built over the boxes `boxes` is: well formed, every triangle
    /// in exactly one leaf, every box holding what lies below it, no path longer
    /// than `MAX_DEPTH`, and leaves no larger than the rule allows.
    pub open spec fn is_hierarchy_over(self, boxes: Seq<Boundingbox>) -> bool {
        &&& self.wf()
        &&& self.leaves().to_multiset() == index_range(boxes.len()).to_multiset()
        &&& self.bounds_all(boxes)
        &&& self.height() <= MAX_DEPTH
        &&& self.shaped(0)
    }

    /// This node is what construction makes of the triangles `idx` at `depth`: the box
    /// that encloses them; a leaf holding `idx` when there are at most
    /// `MAX_TRIANGLES_PER_LEAF` of them or `depth` has reached `MAX_DEPTH`; else an
    /// inner node whose children are made, one level deeper, of the two halves of
    /// `idx` split at the median center on an axis that `longest_axis` gave for the box.
    pub open spec fn built_from<F: Fn(Boundingbox) -> usize>(
        self,
        idx: Seq<usize>,
        depth: nat,
        boxes: Seq<Boundingbox>,
        centers: Seq<KeyVec3>,
        longest_axis: F,
    ) -> bool
        decreases self,
    {
        &&& self.bbox == enclosing(boxes, idx)
        &&& if idx.len() <= MAX_TRIANGLES_PER_LEAF || depth >= MAX_DEPTH {
            &&& self.triangle_indices is Some
            &&& self.triangle_indices->Some_0@ == idx
            &&& self.left is None
            &&& self.right is None
        } else {
            &&& self.triangle_indices is None
            &&& exists|a: usize|
                #![trigger longest_axis.ensures((self.bbox,), a)]
                longest_axis.ensures((self.bbox,), a) && a < 3 && {
                    let halves = split_spec(centers, idx, a as int, median_key(centers, idx, a as int));
                    &&& self.left is Some
                    &&& self.right is Some
                    &&& self.left->Some_0.built_from(halves.0, depth + 1, boxes, centers, longest_axis)
                    &&& self.right->Some_0.built_from(halves.1, depth + 1, boxes, centers, longest_axis)
                }
        }
    }

    /// Builds the hierarchy over the triangles whose boxes are `boxes` and whose box
    /// centers are `centers`. `longest_axis` tells, of a box, which of its axes
    /// (0, 1, 2 for x, y, z) is the longest.
    pub fn build<F: Fn(Boundingbox) -> usize>(boxes: &Vec<Boundingbox>, centers: &Vec<KeyVec3>, longest_axis: &F) -> (r: BvhNode)
        requires
            boxes.len() == centers.len(),
            forall|b: Boundingbox| longest_axis.requires((b,)),
            forall|b: Boundingbox, a: usize| longest_axis.ensures((b,), a) ==> a < 3,
        ensures
            r.is_hierarchy_over(boxes@),
            r.built_from(index_range(boxes@.len()), 0, boxes@, centers@, *longest_axis),
            boxes.len() == 0 ==> r.bbox == empty_box() && r.triangle_indices is Some && r.leaves().len() == 0,
    {
        let mut indices: Vec<usize> = Vec::new();
        let mut i: usize = 0;
        while i < boxes.len()
            invariant
                i <= boxes.len(),
                indices@ =~= index_range(i as nat),
            decreases boxes.len() - i,
        {
            indices.push(i);
            i += 1;
        }
        let r = Self::build_recursive(boxes, centers, &indices, 0, longest_axis);
        assert(indices@ == index_range(boxes@.len()));
        r
    }

    fn build_recursive<F: Fn(Boundingbox) -> usize>(
        boxes: &Vec<Boundingbox>,
        centers: &Vec<KeyVec3>,
        indices: &Vec<usize>,
        depth: usize,
        longest_axis: &F,
    ) -> (r: BvhNode)
        requires
            boxes.len() == centers.len(),
            depth <= MAX_DEPTH,
            indices_below(indices@, boxes@.len()),
            forall|b: Boundingbox| longest_axis.requires((b,)),
            forall|b: Boundingbox, a: usize| longest_axis.ensures((b,), a) ==> a < 3,
        ensures
            r.wf(),
            r.leaves().to_multiset() == indices@.to_multiset(),
            r.bounds_all(boxes@),
            r.height() + depth <= MAX_DEPTH,
            r.shaped(depth as nat),
            r.bbox == enclosing(boxes@, indices@),
            r.built_from(indices@, depth as nat, boxes@, centers@, *longest_axis),
            indices.len() <= MAX_TRIANGLES_PER_LEAF || depth >= MAX_DEPTH ==> r.triangle_indices is Some
                && r.leaves() == indices@,
        decreases MAX_DEPTH - depth,
    {
        let bbox = get_enclosing_box(boxes, indices);
        if indices.len() <= MAX_TRIANGLES_PER_LEAF || depth >= MAX_DEPTH {
            let node = BvhNode { bbox, left: None, right: None, triangle_indices: Some(indices.clone()) };
            proof {
                assert(node.leaves() == indices@);
                assert forall|k: int| 0 <= k < node.leaves().len() implies #[trigger] node.leaves()[k] < boxes@.len()
                    && node.bbox.contains(boxes@[node.leaves()[k] as int]) by {
                    lemma_enclosing_contains(boxes@, indices@, k);
                }
            }
            return node;
        }
        let axis = longest_axis(bbox);
        let split = find_median(centers, indices, axis);
        let (lv, rv) = partition_indices(centers, indices, axis, split);
        proof {
            lemma_split_keeps_all(centers@, indices@, axis as int, split);
            assert forall|k: int| 0 <= k < lv@.len() implies #[trigger] lv@[k] < boxes@.len() by {
                assert(lv@.to_multiset().count(lv@[k]) > 0);
                assert(indices@.to_multiset().count(lv@[k]) > 0);
            }
            assert forall|k: int| 0 <= k < rv@.len() implies #[trigger] rv@[k] < boxes@.len() by {
                assert(rv@.to_multiset().count(rv@[k]) > 0);
                assert(indices@.to_multiset().count(rv@[k]) > 0);
            }
        }
        let left = Self::build_recursive(boxes, centers, &lv, depth + 1, longest_axis);
        let right = Self::build_recursive(boxes, centers, &rv, depth + 1, longest_axis);
        let node = BvhNode { bbox, left: Some(Box::new(left)), right: Some(Box::new(right)), triangle_indices: None };
        proof {
            assert(node.leaves() == left.leaves() + right.leaves());
            lemma_multiset_commutative(left.leaves(), right.leaves());
            assert(node.leaves().to_multiset() == indices@.to_multiset());
            assert forall|k: int| 0 <= k < node.leaves().len() implies #[trigger] node.leaves()[k] < boxes@.len()
                && node.bbox.contains(boxes@[node.leaves()[k] as int]) by {
                let x = node.leaves()[k];
                assert(node.leaves().to_multiset().count(x) > 0);
                assert(indices@.to_multiset().count(x) > 0);
                assert(indices@.contains(x));
                let j = choose|j: int| 0 <= j < indices@.len() && indices@[j] == x;
                lemma_enclosing_contains(boxes@, indices@, j);
            }
            assert(node.leaves().len() == indices@.len()) by {
                assert(node.leaves().to_multiset().len() == indices@.to_multiset().len());
            }
            let halves = split_spec(centers@, indices@, axis as int, median_key(centers@, indices@, axis as int));
            assert(halves.0 == lv@ && halves.1 == rv@);
            assert(longest_axis.ensures((node.bbox,), axis));
        }
        node
    }

    /// The triangle indices of the leaves, from left to right.
    pub fn enumerate_triangles(&self) -> (r: Vec<usize>)
        ensures
            r@ == self.leaves(),
        decreases self,
    {
        match &self.triangle_indices {
            Some(v) => v.clone(),
            None => {
                let mut out: Vec<usize> = match &self.left {
                    Some(n) => n.enumerate_triangles(),
                    None => Vec::new(),
                };
                let mut rest: Vec<usize> = match &self.right {
                    Some(n) => n.enumerate_triangles(),
                    None => Vec::new(),
                };
                out.append(&mut rest);
                out
            },
        }
    }
}

/// Listing the triangles of a hierarchy built over `n` boxes gives each of
/// `0, ..., n - 1` exactly once: a permutation of them.
pub proof fn lemma_enumeration_is_permutation(root: BvhNode, boxes: Seq<Boundingbox>, listed: Seq<usize>)
    requires
        boxes.len() <= usize::MAX,
        root.is_hierarchy_over(boxes),
        listed == root.leaves(),
    ensures
        listed.len() == boxes.len(),
        listed.no_duplicates(),
        forall|i: usize| (i as int) < boxes.len() <==> #[trigger] listed.contains(i),
{
    let range = index_range(boxes.len());
    assert(listed.to_multiset().len() == range.to_multiset().len());
    assert forall|i: usize| (i as int) < boxes.len() <==> #[trigger] listed.contains(i) by {
        if (i as int) < boxes.len() {
            assert(range[i as int] == i);
            assert(range.to_multiset().count(i) > 0);
        }
        if listed.contains(i) {
            assert(range.to_multiset().count(i) > 0);
            assert(range.contains(i));
        }
    }
    range_no_duplicates(boxes.len());
    assert forall|a: int, b: int| 0 <= a < listed.len() && 0 <= b < listed.len() && a != b
        implies listed[a] != listed[b] by {
        if listed[a] == listed[b] {
            let x = listed[a];
            assert(listed.to_multiset().count(x) >= 2) by {
                let s = listed.remove(a);
                assert(s.contains(x)) by {
                    if b < a {
                        assert(s[b] == x);
                    } else {
                        assert(s[b - 1] == x);
                    }
                }
                assert(s.to_multiset().count(x) > 0);
            }
            assert(range.to_multiset().count(x) <= 1) by {
                range.lemma_multiset_has_no_duplicates();
            }
        }
    }
}

/// A hierarchy over no triangles lists no triangle in any leaf, so traversal has
/// nothing to test a ray against.
pub proof fn lemma_empty_hierarchy(root: BvhNode, boxes: Seq<Boundingbox>)
    requires
        root.is_hierarchy_over(boxes),
        boxes.len() == 0,
    ensures
        root.leaves().len() == 0,
{
    assert(index_range(0) =~= Seq::<usize>::empty());
    assert(root.leaves().to_multiset().len() == 0);
}

proof fn range_no_duplicates(n: nat)
    requires
        n <= usize::MAX,
    ensures
        index_range(n).no_duplicates(),
{
    assert forall|a: int, b: int| 0 <= a < n && 0 <= b < n && a != b implies index_range(n)[a]
        != index_range(n)[b] by {
    }
}

} // verus!
