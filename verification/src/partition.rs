//! Building the tree: a cluster over some instances of a dataset, and its
//! recursive partition into children until the criteria stop it.

use vstd::prelude::*;

use crate::cluster::{Children, Cluster};
use crate::criteria::{lemma_min_cardinality_alone, PartitionCriteria, PartitionCriterion};
use crate::dataset::{
    identity_indices,
    is_first_max,
    is_permutation_of_positions,
    seeded_shuffle,
    lemma_distance_nonnegative,
    lemma_distance_symmetric,
    lemma_distance_to_self,
    lemma_distance_triangle,
    lemma_first_max_unique,
    lemma_medoid_unique,
    VecDataset,
};

verus! {

/// The values as integers.
pub open spec fn as_ints(s: Seq<u32>) -> Seq<int> {
    Seq::new(s.len(), |i: int| s[i] as int)
}

/// Whether all positions are below `n`.
pub open spec fn all_below(s: Seq<usize>, n: nat) -> bool {
    forall|i: int| 0 <= i < s.len() ==> #[trigger] s[i] < n
}

/// Whether `a` and `b` hold the same positions, each once: `a` is a
/// reordering of `b`.
pub open spec fn same_elements(a: Seq<usize>, b: Seq<usize>) -> bool {
    &&& a.len() == b.len()
    &&& a.no_duplicates()
    &&& b.no_duplicates()
    &&& forall|x: usize| a.contains(x) <==> b.contains(x)
}

/// Whether `s` is a sample of `indices` of the size that `new` draws: taken
/// from `indices` without taking an element more often than it occurs there,
/// and of the integer square root of their number.
pub open spec fn is_sample_of(s: Seq<usize>, indices: Seq<usize>) -> bool {
    &&& s.to_multiset().subset_of(indices.to_multiset())
    &&& s.len() * s.len() <= indices.len() < (s.len() + 1) * (s.len() + 1)
}

/// The distances from `center` to the instances `indices`, in their order.
pub open spec fn center_distances(data: &VecDataset, center: usize, indices: Seq<usize>) -> Seq<
    int,
> {
    Seq::new(indices.len(), |k: int| data.dist(center as int, indices[k] as int))
}

/// The distance between the instances at positions `i` and `j` of a
/// dataset whose order is given by `out`, starting at position `base`.
pub open spec fn order_dist(data: &VecDataset, out: Seq<usize>, base: int) -> spec_fn(
    int,
    int,
) -> int {
    |i: int, j: int| data.dist(out[i - base] as int, out[j - base] as int)
}

/// The sum of the distances from position `a` to the positions `lo..hi`.
pub open spec fn range_sum(d: spec_fn(int, int) -> int, a: int, lo: int, hi: int) -> int
    decreases hi - lo,
{
    if hi <= lo {
        0
    } else {
        range_sum(d, a, lo, hi - 1) + d(a, hi - 1)
    }
}

/// What holds of one cluster of a partitioned tree, where `d` is the distance
/// between the instances at two positions of the dataset's order: its center
/// and radial lie among its instances, the radius is the distance from the
/// center to the radial, and no instance of the cluster is farther from the
/// center; with fewer than 100 instances, no instance has a smaller sum of
/// distances to the cluster's instances than the center. The criteria hold
/// exactly when it has children; then the left child holds the first
/// instances and the right child the rest, the left child is not the smaller,
/// their histories extend the cluster's by `false` and `true`, one pole is the
/// radial and the other lies farthest from it, at the polar distance, and
/// every other instance lies with the radial exactly when it is not farther
/// from the radial than from the other pole.
pub open spec fn node_ok(c: Cluster, d: spec_fn(int, int) -> int, cr: PartitionCriteria) -> bool {
    let lo = c.offset as int;
    let hi = c.offset + c.cardinality;
    &&& c.cardinality >= 1
    &&& c.history@.len() > 0
    &&& lo <= c.arg_center < hi
    &&& lo <= c.arg_radial < hi
    &&& c.radius == d(c.arg_center as int, c.arg_radial as int)
    &&& forall|j: int| lo <= j < hi ==> #[trigger] d(c.arg_center as int, j) <= c.radius
    &&& c.cardinality < 100 ==> forall|k: int|
        lo <= k < hi ==> range_sum(d, c.arg_center as int, lo, hi) <= #[trigger] range_sum(
            d,
            k,
            lo,
            hi,
        )
    &&& match c.children {
        None => !cr.spec_check(c),
        Some(ch) => {
            let l = *ch.left;
            let r = *ch.right;
            let radial_left = ch.arg_l == c.arg_radial;
            let far = if radial_left {
                ch.arg_r
            } else {
                ch.arg_l
            };
            &&& cr.spec_check(c)
            &&& l.offset == c.offset
            &&& r.offset == c.offset + l.cardinality
            &&& l.cardinality + r.cardinality == c.cardinality
            &&& r.cardinality <= l.cardinality
            &&& l.history@ == c.history@.push(false)
            &&& r.history@ == c.history@.push(true)
            &&& l.seed == c.seed
            &&& r.seed == c.seed
            &&& lo <= ch.arg_l < lo + l.cardinality
            &&& r.offset <= ch.arg_r < hi
            &&& (ch.arg_l == c.arg_radial || ch.arg_r == c.arg_radial)
            &&& ch.polar_distance == d(ch.arg_l as int, ch.arg_r as int)
            &&& ch.polar_distance == d(c.arg_radial as int, far as int)
            &&& forall|j: int| lo <= j < hi ==> #[trigger] d(c.arg_radial as int, j) <= ch.polar_distance
            &&& forall|j: int|
                lo <= j < hi && j != ch.arg_l && j != ch.arg_r ==> ((j < r.offset) == radial_left)
                    == (#[trigger] d(c.arg_radial as int, j) <= d(far as int, j))
            &&& forall|j: int|
                lo <= j < lo + l.cardinality ==> #[trigger] d(ch.arg_l as int, j) <= d(
                    ch.arg_r as int,
                    j,
                )
            &&& forall|j: int|
                r.offset <= j < hi ==> #[trigger] d(ch.arg_r as int, j) <= d(ch.arg_l as int, j)
        },
    }
}

/// Whether every cluster of the tree meets `node_ok`.
pub open spec fn tree_ok(c: Cluster, d: spec_fn(int, int) -> int, cr: PartitionCriteria) -> bool
    decreases c,
{
    &&& node_ok(c, d, cr)
    &&& match c.children {
        None => true,
        Some(ch) => tree_ok(*ch.left, d, cr) && tree_ok(*ch.right, d, cr),
    }
}

/// A sum of distances only looks at the distances it adds up.
proof fn lemma_range_sum_agree(
    d1: spec_fn(int, int) -> int,
    d2: spec_fn(int, int) -> int,
    a: int,
    lo: int,
    hi: int,
)
    requires
        forall|j: int| lo <= j < hi ==> #[trigger] d2(a, j) == d1(a, j),
    ensures
        range_sum(d1, a, lo, hi) == range_sum(d2, a, lo, hi),
    decreases hi - lo,
{
    if hi > lo {
        lemma_range_sum_agree(d1, d2, a, lo, hi - 1);
        assert(d2(a, hi - 1) == d1(a, hi - 1));
    }
}

/// `tree_ok` only looks at the distances between the positions of the
/// cluster's own instances.
proof fn lemma_tree_ok_agree(
    c: Cluster,
    d1: spec_fn(int, int) -> int,
    d2: spec_fn(int, int) -> int,
    cr: PartitionCriteria,
)
    requires
        tree_ok(c, d1, cr),
        forall|i: int, j: int|
            c.offset <= i < c.offset + c.cardinality && c.offset <= j < c.offset + c.cardinality
                ==> #[trigger] d2(i, j) == d1(i, j),
    ensures
        tree_ok(c, d2, cr),
    decreases c,
{
    let lo = c.offset as int;
    let hi = c.offset + c.cardinality;
    assert forall|j: int| lo <= j < hi implies #[trigger] d2(c.arg_center as int, j) <= c.radius by {
        assert(d1(c.arg_center as int, j) <= c.radius);
    }
    assert(d2(c.arg_center as int, c.arg_radial as int) == d1(c.arg_center as int, c.arg_radial as int));
    if c.cardinality < 100 {
        assert forall|k: int| lo <= k < hi implies range_sum(d2, c.arg_center as int, lo, hi) <= #[trigger] range_sum(
            d2,
            k,
            lo,
            hi,
        ) by {
            lemma_range_sum_agree(d1, d2, k, lo, hi);
            lemma_range_sum_agree(d1, d2, c.arg_center as int, lo, hi);
            assert(range_sum(d1, c.arg_center as int, lo, hi) <= range_sum(d1, k, lo, hi));
        }
    }
    match c.children {
        None => {},
        Some(ch) => {
            let l = *ch.left;
            let r = *ch.right;
            let radial_left = ch.arg_l == c.arg_radial;
            let far = if radial_left {
                ch.arg_r
            } else {
                ch.arg_l
            };
            assert(d2(ch.arg_l as int, ch.arg_r as int) == d1(ch.arg_l as int, ch.arg_r as int));
            assert(d2(c.arg_radial as int, far as int) == d1(c.arg_radial as int, far as int));
            assert forall|j: int| lo <= j < hi implies #[trigger] d2(c.arg_radial as int, j) <= ch.polar_distance by {
                assert(d1(c.arg_radial as int, j) <= ch.polar_distance);
            }
            assert forall|j: int|
                lo <= j < hi && j != ch.arg_l && j != ch.arg_r implies ((j < r.offset) == radial_left)
                    == (#[trigger] d2(c.arg_radial as int, j) <= d2(far as int, j)) by {
                assert(((j < r.offset) == radial_left) == (d1(c.arg_radial as int, j) <= d1(far as int, j)));
                assert(d2(c.arg_radial as int, j) == d1(c.arg_radial as int, j));
                assert(d2(far as int, j) == d1(far as int, j));
            }
            assert forall|j: int| lo <= j < lo + l.cardinality implies #[trigger] d2(
                ch.arg_l as int,
                j,
            ) <= d2(ch.arg_r as int, j) by {
                assert(d1(ch.arg_l as int, j) <= d1(ch.arg_r as int, j));
                assert(d2(ch.arg_r as int, j) == d1(ch.arg_r as int, j));
            }
            assert forall|j: int| r.offset <= j < hi implies #[trigger] d2(ch.arg_r as int, j) <= d2(
                ch.arg_l as int,
                j,
            ) by {
                assert(d1(ch.arg_r as int, j) <= d1(ch.arg_l as int, j));
                assert(d2(ch.arg_l as int, j) == d1(ch.arg_l as int, j));
            }
            lemma_tree_ok_agree(l, d1, d2, cr);
            lemma_tree_ok_agree(r, d1, d2, cr);
        },
    }
}

/// Every cluster of a tree that meets `tree_ok` meets `node_ok`: among
/// others, the radius of each is the distance from its center to its radial,
/// and no instance of it lies farther from its center.
pub proof fn lemma_tree_ok_subtree(c: Cluster, d: spec_fn(int, int) -> int, cr: PartitionCriteria)
    requires
        tree_ok(c, d, cr),
    ensures
        forall|k: int| 0 <= k < c.spec_subtree().len() ==> node_ok(#[trigger] c.spec_subtree()[k], d, cr),
        forall|k: int| 0 <= k < c.spec_subtree().len() ==> tree_ok(#[trigger] c.spec_subtree()[k], d, cr),
    decreases c,
{
    match c.children {
        None => {},
        Some(ch) => {
            lemma_tree_ok_subtree(*ch.left, d, cr);
            lemma_tree_ok_subtree(*ch.right, d, cr);
            let ls = (*ch.left).spec_subtree();
            let rs = (*ch.right).spec_subtree();
            assert forall|k: int| 0 <= k < c.spec_subtree().len() implies node_ok(
                #[trigger] c.spec_subtree()[k],
                d,
                cr,
            ) && tree_ok(c.spec_subtree()[k], d, cr) by {
                if k == 0 {
                } else if k < 1 + ls.len() {
                    assert(c.spec_subtree()[k] == ls[k - 1]);
                } else {
                    assert(c.spec_subtree()[k] == rs[k - 1 - ls.len()]);
                }
            }
        },
    }
}

/// Every cluster of a tree that meets `tree_ok` has a history that extends
/// the root's, strictly but for the root itself.
pub proof fn lemma_subtree_histories_extend(c: Cluster, d: spec_fn(int, int) -> int, cr: PartitionCriteria)
    requires
        tree_ok(c, d, cr),
    ensures
        forall|k: int|
            0 <= k < c.spec_subtree().len() ==> {
                let h = (#[trigger] c.spec_subtree()[k]).history@;
                &&& h.len() >= c.history@.len()
                &&& h.subrange(0, c.history@.len() as int) == c.history@
                &&& (k > 0 ==> h.len() > c.history@.len())
            },
    decreases c,
{
    let hc = c.history@;
    assert(hc.subrange(0, hc.len() as int) =~= hc);
    match c.children {
        None => {},
        Some(ch) => {
            let l = *ch.left;
            let r = *ch.right;
            lemma_subtree_histories_extend(l, d, cr);
            lemma_subtree_histories_extend(r, d, cr);
            let ls = l.spec_subtree();
            let rs = r.spec_subtree();
            assert forall|k: int| 0 <= k < c.spec_subtree().len() implies {
                let h = (#[trigger] c.spec_subtree()[k]).history@;
                &&& h.len() >= hc.len()
                &&& h.subrange(0, hc.len() as int) == hc
                &&& (k > 0 ==> h.len() > hc.len())
            } by {
                if k > 0 {
                    let (child, x) = if k < 1 + ls.len() {
                        (l, ls[k - 1])
                    } else {
                        (r, rs[k - 1 - ls.len()])
                    };
                    assert(c.spec_subtree()[k] == x);
                    let h = x.history@;
                    let hch = child.history@;
                    assert(h.subrange(0, hch.len() as int) == hch);
                    assert(hch.subrange(0, hc.len() as int) =~= hc);
                    assert(h.subrange(0, hc.len() as int) =~= hch.subrange(0, hc.len() as int));
                }
            }
        },
    }
}

/// The clusters of a tree that meets `tree_ok` have distinct histories.
pub proof fn lemma_subtree_histories_distinct(
    c: Cluster,
    d: spec_fn(int, int) -> int,
    cr: PartitionCriteria,
)
    requires
        tree_ok(c, d, cr),
    ensures
        forall|i: int, j: int|
            0 <= i < j < c.spec_subtree().len() ==> (#[trigger] c.spec_subtree()[i]).history@ != (
            #[trigger] c.spec_subtree()[j]).history@,
    decreases c,
{
    lemma_subtree_histories_extend(c, d, cr);
    match c.children {
        None => {},
        Some(ch) => {
            let l = *ch.left;
            let r = *ch.right;
            lemma_subtree_histories_distinct(l, d, cr);
            lemma_subtree_histories_distinct(r, d, cr);
            lemma_subtree_histories_extend(l, d, cr);
            lemma_subtree_histories_extend(r, d, cr);
            let ls = l.spec_subtree();
            let rs = r.spec_subtree();
            let hc = c.history@;
            let n = hc.len() as int;
            assert forall|i: int, j: int| 0 <= i < j < c.spec_subtree().len() implies (
            #[trigger] c.spec_subtree()[i]).history@ != (#[trigger] c.spec_subtree()[j]).history@ by {
                let hi = c.spec_subtree()[i].history@;
                let hj = c.spec_subtree()[j].history@;
                if i == 0 {
                } else if j < 1 + ls.len() {
                    assert(c.spec_subtree()[i] == ls[i - 1]);
                    assert(c.spec_subtree()[j] == ls[j - 1]);
                } else if i >= 1 + ls.len() {
                    assert(c.spec_subtree()[i] == rs[i - 1 - ls.len()]);
                    assert(c.spec_subtree()[j] == rs[j - 1 - ls.len()]);
                } else {
                    assert(c.spec_subtree()[i] == ls[i - 1]);
                    assert(c.spec_subtree()[j] == rs[j - 1 - ls.len()]);
                    let li = ls[i - 1].history@;
                    let rj = rs[j - 1 - ls.len()].history@;
                    assert(li.subrange(0, n + 1) == hc.push(false));
                    assert(rj.subrange(0, n + 1) == hc.push(true));
                    assert(li[n] == li.subrange(0, n + 1)[n]);
                    assert(rj[n] == rj.subrange(0, n + 1)[n]);
                }
            }
        },
    }
}

/// Cluster names are unique within a tree: in a tree that meets `tree_ok`
/// and whose root's history starts with `true`, no two clusters have the
/// same name.
pub proof fn lemma_subtree_names_unique(c: Cluster, d: spec_fn(int, int) -> int, cr: PartitionCriteria)
    requires
        tree_ok(c, d, cr),
        c.history@.len() > 0,
        c.history@[0],
    ensures
        forall|i: int, j: int|
            0 <= i < j < c.spec_subtree().len() ==> crate::name::history_name(
                (#[trigger] c.spec_subtree()[i]).history@,
            ) != crate::name::history_name((#[trigger] c.spec_subtree()[j]).history@),
{
    lemma_subtree_histories_extend(c, d, cr);
    lemma_subtree_histories_distinct(c, d, cr);
    assert forall|i: int, j: int| 0 <= i < j < c.spec_subtree().len() implies crate::name::history_name(
        (#[trigger] c.spec_subtree()[i]).history@,
    ) != crate::name::history_name((#[trigger] c.spec_subtree()[j]).history@) by {
        let hi = c.spec_subtree()[i].history@;
        let hj = c.spec_subtree()[j].history@;
        assert(hi[0] == hi.subrange(0, c.history@.len() as int)[0]);
        assert(hj[0] == hj.subrange(0, c.history@.len() as int)[0]);
        crate::name::lemma_name_history_of_history_name(hi);
        crate::name::lemma_name_history_of_history_name(hj);
    }
}

/// In a tree that meets `tree_ok`, a cluster is a singleton (its radius is
/// zero) exactly when all of its instances lie at distance zero from its
/// center.
pub proof fn lemma_singleton_means_identical(c: Cluster, d: spec_fn(int, int) -> int, cr: PartitionCriteria)
    requires
        tree_ok(c, d, cr),
        forall|i: int, j: int| #[trigger] d(i, j) >= 0,
    ensures
        (c.radius == 0) <==> (forall|j: int|
            c.offset <= j < c.offset + c.cardinality ==> #[trigger] d(c.arg_center as int, j) == 0),
{
    if c.radius == 0 {
        assert forall|j: int| c.offset <= j < c.offset + c.cardinality implies #[trigger] d(c.arg_center as int, j) == 0 by {
            assert(d(c.arg_center as int, j) <= c.radius);
        }
    }
    if forall|j: int| c.offset <= j < c.offset + c.cardinality ==> #[trigger] d(c.arg_center as int, j) == 0 {
        assert(d(c.arg_center as int, c.arg_radial as int) == 0);
    }
}

/// Every cluster of a tree that meets `tree_ok` covers a part of the root's
/// instances.
pub proof fn lemma_subtree_ranges(c: Cluster, d: spec_fn(int, int) -> int, cr: PartitionCriteria)
    requires
        tree_ok(c, d, cr),
    ensures
        forall|k: int|
            0 <= k < c.spec_subtree().len() ==> {
                let x = #[trigger] c.spec_subtree()[k];
                &&& c.offset <= x.offset
                &&& x.offset + x.cardinality <= c.offset + c.cardinality
                &&& x.cardinality >= 1
            },
    decreases c,
{
    match c.children {
        None => {},
        Some(ch) => {
            let l = *ch.left;
            let r = *ch.right;
            lemma_subtree_ranges(l, d, cr);
            lemma_subtree_ranges(r, d, cr);
            let ls = l.spec_subtree();
            let rs = r.spec_subtree();
            assert forall|k: int| 0 <= k < c.spec_subtree().len() implies {
                let x = #[trigger] c.spec_subtree()[k];
                &&& c.offset <= x.offset
                &&& x.offset + x.cardinality <= c.offset + c.cardinality
                &&& x.cardinality >= 1
            } by {
                if k > 0 && k < 1 + ls.len() {
                    assert(c.spec_subtree()[k] == ls[k - 1]);
                } else if k > 0 {
                    assert(c.spec_subtree()[k] == rs[k - 1 - ls.len()]);
                }
            }
        },
    }
}

/// Two different clusters of a tree that meets `tree_ok` either have
/// different depths or cover disjoint runs of instances.
pub proof fn lemma_subtree_same_depth_disjoint(
    c: Cluster,
    d: spec_fn(int, int) -> int,
    cr: PartitionCriteria,
)
    requires
        tree_ok(c, d, cr),
    ensures
        forall|i: int, j: int|
            0 <= i < c.spec_subtree().len() && 0 <= j < c.spec_subtree().len() && i != j ==> (
            #[trigger] c.spec_subtree()[i]).spec_depth() != (#[trigger] c.spec_subtree()[j]).spec_depth()
                || c.spec_subtree()[i].offset + c.spec_subtree()[i].cardinality
                <= c.spec_subtree()[j].offset || c.spec_subtree()[j].offset
                + c.spec_subtree()[j].cardinality <= c.spec_subtree()[i].offset,
    decreases c,
{
    lemma_subtree_histories_extend(c, d, cr);
    match c.children {
        None => {},
        Some(ch) => {
            let l = *ch.left;
            let r = *ch.right;
            lemma_subtree_same_depth_disjoint(l, d, cr);
            lemma_subtree_same_depth_disjoint(r, d, cr);
            lemma_subtree_ranges(l, d, cr);
            lemma_subtree_ranges(r, d, cr);
            let ls = l.spec_subtree();
            let rs = r.spec_subtree();
            let t = c.spec_subtree();
            assert forall|i: int, j: int|
                0 <= i < t.len() && 0 <= j < t.len() && i != j implies (#[trigger] t[i]).spec_depth()
                != (#[trigger] t[j]).spec_depth() || t[i].offset + t[i].cardinality <= t[j].offset
                || t[j].offset + t[j].cardinality <= t[i].offset by {
                if i == 0 || j == 0 {
                } else if i < 1 + ls.len() && j < 1 + ls.len() {
                    assert(t[i] == ls[i - 1]);
                    assert(t[j] == ls[j - 1]);
                } else if i >= 1 + ls.len() && j >= 1 + ls.len() {
                    assert(t[i] == rs[i - 1 - ls.len()]);
                    assert(t[j] == rs[j - 1 - ls.len()]);
                } else if i < 1 + ls.len() {
                    assert(t[i] == ls[i - 1]);
                    assert(t[j] == rs[j - 1 - ls.len()]);
                } else {
                    assert(t[j] == ls[j - 1]);
                    assert(t[i] == rs[i - 1 - ls.len()]);
                }
            }
        },
    }
}

/// No two clusters of a tree that meets `tree_ok` have both the same depth
/// and the same offset.
pub proof fn lemma_subtree_depth_offset_distinct(
    c: Cluster,
    d: spec_fn(int, int) -> int,
    cr: PartitionCriteria,
)
    requires
        tree_ok(c, d, cr),
    ensures
        forall|i: int, j: int|
            0 <= i < j < c.spec_subtree().len() ==> (#[trigger] c.spec_subtree()[i]).spec_depth() != (
            #[trigger] c.spec_subtree()[j]).spec_depth() || c.spec_subtree()[i].offset
                != c.spec_subtree()[j].offset,
{
    lemma_subtree_same_depth_disjoint(c, d, cr);
    lemma_subtree_ranges(c, d, cr);
    let t = c.spec_subtree();
    assert forall|i: int, j: int| 0 <= i < j < t.len() implies (#[trigger] t[i]).spec_depth() != (
    #[trigger] t[j]).spec_depth() || t[i].offset != t[j].offset by {
        assert(t[i].cardinality >= 1 && t[j].cardinality >= 1);
    }
}

/// A tree that meets `tree_ok` has at most `2 * cardinality - 1` clusters.
pub proof fn lemma_subtree_size(c: Cluster, d: spec_fn(int, int) -> int, cr: PartitionCriteria)
    requires
        tree_ok(c, d, cr),
    ensures
        c.spec_subtree().len() <= 2 * c.cardinality - 1,
    decreases c,
{
    match c.children {
        None => {},
        Some(ch) => {
            lemma_subtree_size(*ch.left, d, cr);
            lemma_subtree_size(*ch.right, d, cr);
        },
    }
}

/// In a tree that meets `tree_ok`, the clusters of the subtree of one of its
/// clusters `x` are exactly `x` and the clusters of which `x` is an ancestor.
pub proof fn lemma_subtree_membership(c: Cluster, d: spec_fn(int, int) -> int, cr: PartitionCriteria)
    requires
        tree_ok(c, d, cr),
    ensures
        forall|i: int, k: int|
            0 <= i < c.spec_subtree().len() && 0 <= k < c.spec_subtree().len() ==> ((
            #[trigger] c.spec_subtree()[i]).spec_subtree().contains(#[trigger] c.spec_subtree()[k])
                <==> (i == k || crate::cluster::history_is_ancestor(
                c.spec_subtree()[i].history@,
                c.spec_subtree()[k].history@,
            ))),
    decreases c,
{
    let t = c.spec_subtree();
    let hc = c.history@;
    let n = hc.len() as int;
    lemma_subtree_histories_extend(c, d, cr);
    lemma_subtree_histories_distinct(c, d, cr);
    lemma_tree_ok_subtree(c, d, cr);
    match c.children {
        None => {
            assert forall|i: int, k: int| 0 <= i < t.len() && 0 <= k < t.len() implies ((
            #[trigger] t[i]).spec_subtree().contains(#[trigger] t[k]) <==> (i == k
                || crate::cluster::history_is_ancestor(t[i].history@, t[k].history@))) by {
                assert(t[0].spec_subtree()[0] == t[0]);
            }
        },
        Some(ch) => {
            let l = *ch.left;
            let r = *ch.right;
            lemma_subtree_membership(l, d, cr);
            lemma_subtree_membership(r, d, cr);
            lemma_subtree_histories_extend(l, d, cr);
            lemma_subtree_histories_extend(r, d, cr);
            let ls = l.spec_subtree();
            let rs = r.spec_subtree();
            assert forall|i: int, k: int| 0 <= i < t.len() && 0 <= k < t.len() implies ((
            #[trigger] t[i]).spec_subtree().contains(#[trigger] t[k]) <==> (i == k
                || crate::cluster::history_is_ancestor(t[i].history@, t[k].history@))) by {
                let xi = t[i];
                let xk = t[k];
                // every member of xi's subtree extends xi's history
                lemma_subtree_histories_extend(xi, d, cr);
                if i == 0 {
                    assert(t[0] == c);
                    assert(c.spec_subtree()[k] == xk);
                    if k != 0 {
                        assert(xk.history@.subrange(0, n) == hc);
                    }
                } else if k == 0 {
                    assert(xi.history@.len() > n);
                    if xi.spec_subtree().contains(xk) {
                        let m = choose|m: int| 0 <= m < xi.spec_subtree().len() && xi.spec_subtree()[m] == xk;
                        assert(xi.spec_subtree()[m].history@.len() >= xi.history@.len());
                    }
                } else {
                    let i_left = i < 1 + ls.len();
                    let k_left = k < 1 + ls.len();
                    if i_left {
                        assert(xi == ls[i - 1]);
                    } else {
                        assert(xi == rs[i - 1 - ls.len()]);
                    }
                    if k_left {
                        assert(xk == ls[k - 1]);
                    } else {
                        assert(xk == rs[k - 1 - ls.len()]);
                    }
                    if i_left && k_left {
                        assert(ls[i - 1].spec_subtree().contains(ls[k - 1]) <==> (i - 1 == k - 1
                            || crate::cluster::history_is_ancestor(ls[i - 1].history@, ls[k - 1].history@)));
                    } else if !i_left && !k_left {
                        assert(rs[i - 1 - ls.len()].spec_subtree().contains(rs[k - 1 - ls.len()]) <==> (i
                            - 1 - ls.len() == k - 1 - ls.len() || crate::cluster::history_is_ancestor(
                            rs[i - 1 - ls.len()].history@,
                            rs[k - 1 - ls.len()].history@,
                        )));
                    } else {
                        // the two lie on different sides: their histories differ at position n
                        let hi = xi.history@;
                        let hk = xk.history@;
                        let bi = hi.subrange(0, n + 1);
                        let bk = hk.subrange(0, n + 1);
                        if i_left {
                            assert(hi.subrange(0, l.history@.len() as int) == l.history@);
                            assert(hk.subrange(0, r.history@.len() as int) == r.history@);
                        } else {
                            assert(hi.subrange(0, r.history@.len() as int) == r.history@);
                            assert(hk.subrange(0, l.history@.len() as int) == l.history@);
                        }
                        assert(hi[n] != hk[n]) by {
                            if i_left {
                                assert(hi[n] == l.history@[n]);
                                assert(hk[n] == r.history@[n]);
                            } else {
                                assert(hi[n] == r.history@[n]);
                                assert(hk[n] == l.history@[n]);
                            }
                        }
                        if xi.spec_subtree().contains(xk) {
                            let m = choose|m: int| 0 <= m < xi.spec_subtree().len() && xi.spec_subtree()[m] == xk;
                            let hm = xi.spec_subtree()[m].history@;
                            assert(hm.subrange(0, hi.len() as int) == hi);
                            assert(hm[n] == hi[n]);
                        }
                        if crate::cluster::history_is_ancestor(hi, hk) {
                            assert(hk.subrange(0, hi.len() as int)[n] == hk[n]);
                        }
                    }
                }
            }
        },
    }
}

/// The greatest depth of a leaf of the subtree.
pub open spec fn leaf_max_depth(c: Cluster) -> int
    decreases c,
{
    match c.children {
        None => c.spec_depth(),
        Some(ch) => {
            let l = leaf_max_depth(*ch.left);
            let r = leaf_max_depth(*ch.right);
            if l < r {
                r
            } else {
                l
            }
        },
    }
}

/// In a tree that meets `tree_ok`, the greatest depth of a cluster of the
/// subtree (what `max_leaf_depth` returns) is the greatest depth of a leaf,
/// no less than the depth of the subtree's root, and equal to that depth
/// exactly when the root is a leaf.
pub proof fn lemma_max_depth_is_leaf_depth(c: Cluster, d: spec_fn(int, int) -> int, cr: PartitionCriteria)
    requires
        tree_ok(c, d, cr),
    ensures
        c.spec_max_depth() == leaf_max_depth(c),
        leaf_max_depth(c) >= c.spec_depth(),
        c.spec_max_depth() == c.spec_depth() <==> c.children is None,
    decreases c,
{
    match c.children {
        None => {},
        Some(ch) => {
            lemma_max_depth_is_leaf_depth(*ch.left, d, cr);
            lemma_max_depth_is_leaf_depth(*ch.right, d, cr);
        },
    }
}

/// Building a cluster twice from the same instances gives the same center,
/// radial and radius when there are fewer than 100 instances or a seed is
/// given.
pub proof fn lemma_new_repeatable(
    data: &VecDataset,
    seed: Option<u64>,
    indices: Seq<usize>,
    a: Cluster,
    b: Cluster,
)
    requires
        indices.len() < 100 || seed is Some,
        Cluster::is_built_from(data, seed, indices, a),
        Cluster::is_built_from(data, seed, indices, b),
    ensures
        a.arg_center == b.arg_center,
        a.arg_radial == b.arg_radial,
        a.radius == b.radius,
{
    if indices.len() < 100 {
        lemma_medoid_unique(data, indices, a.arg_center, b.arg_center);
    } else {
        let s = seed->0;
        let sample = seeded_shuffle(indices, s).take(int_sqrt(indices.len()) as int);
        lemma_medoid_unique(data, sample, a.arg_center, b.arg_center);
    }
    let v = center_distances(data, a.arg_center, indices);
    let pa = choose|p: int| is_first_max(v, p) && a.arg_radial == indices[p] && a.radius == v[p];
    let pb = choose|p: int| is_first_max(v, p) && b.arg_radial == indices[p] && b.radius == v[p];
    lemma_first_max_unique(v, pa, pb);
}

/// The poles of a split cluster of a partitioned tree are at most twice the
/// radius apart, when the cluster's instances all have one length: both
/// lie within the radius of the center.
pub proof fn lemma_polar_distance_within_diameter(c: Cluster, data: &VecDataset, cr: PartitionCriteria)
    requires
        node_ok(c, data.dist_fn(), cr),
        c.offset + c.cardinality <= data.size(),
        forall|i: int|
            c.offset <= i < c.offset + c.cardinality ==> (#[trigger] data.instances()[i]).len()
                == data.instances()[c.arg_center as int].len(),
    ensures
        c.children matches Some(ch) ==> ch.polar_distance <= 2 * c.radius,
{
    match c.children {
        None => {},
        Some(ch) => {
            let m = data.spec_metric();
            let inst = data.instances();
            let d = data.dist_fn();
            let x = inst[c.arg_center as int];
            let pl = inst[ch.arg_l as int];
            let pr = inst[ch.arg_r as int];
            assert(d(c.arg_center as int, ch.arg_l as int) <= c.radius);
            assert(d(c.arg_center as int, ch.arg_r as int) <= c.radius);
            assert(pl.len() == x.len());
            assert(pr.len() == x.len());
            lemma_distance_triangle(m, pl, x, pr);
            lemma_distance_symmetric(m, pl, x);
        },
    }
}

/// In a tree partitioned with the minimum cardinality `m` as the only
/// criterion, every split cluster holds more than `m` instances, and every
/// leaf holds at most `m` instances or only identical ones (radius zero).
pub proof fn lemma_min_cardinality_tree(
    c: Cluster,
    d: spec_fn(int, int) -> int,
    cr: PartitionCriteria,
    m: usize,
)
    requires
        tree_ok(c, d, cr),
        cr.criteria@ == seq![PartitionCriterion::MinCardinality(m)],
    ensures
        forall|k: int|
            0 <= k < c.spec_subtree().len() ==> {
                let x = #[trigger] c.spec_subtree()[k];
                &&& x.children is Some ==> x.cardinality > m
                &&& x.children is None ==> x.cardinality <= m || x.radius == 0
            },
{
    lemma_tree_ok_subtree(c, d, cr);
    assert forall|k: int| 0 <= k < c.spec_subtree().len() implies {
        let x = #[trigger] c.spec_subtree()[k];
        &&& x.children is Some ==> x.cardinality > m
        &&& x.children is None ==> x.cardinality <= m || x.radius == 0
    } by {
        let x = c.spec_subtree()[k];
        assert(node_ok(x, d, cr));
        lemma_min_cardinality_alone(cr, m, x);
    }
}

/// Whether an instance other than the poles `ra` and `rr` goes with the
/// radial `ra`: it is not farther from `ra` than from `rr`.
pub open spec fn near_pred(data: &VecDataset, ra: usize, rr: usize) -> spec_fn(usize) -> bool {
    |x: usize| x != ra && x != rr && data.dist(ra as int, x as int) <= data.dist(rr as int, x as int)
}

/// Whether an instance other than the poles `ra` and `rr` goes with the far
/// pole `rr`: it is farther from `ra` than from `rr`.
pub open spec fn far_pred(data: &VecDataset, ra: usize, rr: usize) -> spec_fn(usize) -> bool {
    |x: usize| x != ra && x != rr && !(data.dist(ra as int, x as int) <= data.dist(rr as int, x as int))
}

/// The radial's side: the instances that go with it, in their order, then
/// the radial.
pub open spec fn near_side(data: &VecDataset, ra: usize, rr: usize, indices: Seq<usize>) -> Seq<usize> {
    indices.filter(near_pred(data, ra, rr)).push(ra)
}

/// The far pole's side: the instances that go with it, in their order, then
/// the far pole.
pub open spec fn far_side(data: &VecDataset, ra: usize, rr: usize, indices: Seq<usize>) -> Seq<usize> {
    indices.filter(far_pred(data, ra, rr)).push(rr)
}

/// The cluster `c` with its center and radial given as instances again: the
/// ones that `out` puts at those positions (`out[p - base]` is the instance at
/// position `p`).
pub open spec fn with_instances(c: Cluster, out: Seq<usize>, base: int) -> Cluster {
    Cluster { arg_center: out[c.arg_center - base], arg_radial: out[c.arg_radial - base], ..c }
}

/// Whether `out` lays out the instances `input` of the partitioned cluster
/// `c` as partitioning does, where `out[p - base]` is the instance at
/// position `p`. Every cluster of the tree is what `new` builds from its
/// share of the instances (its center, radial and radius, named by their
/// positions). A leaf keeps its instances in the order of `input`. A split
/// cluster's far pole is the first instance of `input` farthest from the
/// radial; it hands on to each child the instances of `input` that go with
/// that child's pole, in the order of `input`, followed by the pole (the
/// radial's side keeps the instances not farther from the radial than from
/// the far pole), and each child lays out its share in the same way.
pub open spec fn laid_out(data: &VecDataset, c: Cluster, input: Seq<usize>, out: Seq<usize>, base: int) -> bool
    decreases c,
{
    &&& Cluster::is_built_from(data, c.seed, input, with_instances(c, out, base))
    &&& match c.children {
        None => out.subrange(c.offset - base, c.offset - base + c.cardinality) == input,
        Some(ch) => {
            let ra = out[c.arg_radial - base];
            let pl = out[ch.arg_l - base];
            let pr = out[ch.arg_r - base];
            let far = if pl == ra {
                pr
            } else {
                pl
            };
            let near = near_side(data, ra, far, input);
            let far_s = far_side(data, ra, far, input);
            &&& exists|p: int| is_first_max(center_distances(data, ra, input), p) && input[p] == far
            &&& laid_out(data, *ch.left, if pl == ra { near } else { far_s }, out, base)
            &&& laid_out(data, *ch.right, if pl == ra { far_s } else { near }, out, base)
        },
    }
}

/// `laid_out` only looks at the positions of the cluster's own instances.
proof fn lemma_laid_out_agree(
    data: &VecDataset,
    c: Cluster,
    input: Seq<usize>,
    o1: Seq<usize>,
    b1: int,
    o2: Seq<usize>,
    b2: int,
    d: spec_fn(int, int) -> int,
    cr: PartitionCriteria,
)
    requires
        tree_ok(c, d, cr),
        laid_out(data, c, input, o1, b1),
        0 <= c.offset - b1,
        c.offset + c.cardinality - b1 <= o1.len(),
        0 <= c.offset - b2,
        c.offset + c.cardinality - b2 <= o2.len(),
        forall|p: int| c.offset <= p < c.offset + c.cardinality ==> #[trigger] o2[p - b2] == o1[p - b1],
    ensures
        laid_out(data, c, input, o2, b2),
    decreases c,
{
    assert(o2[c.arg_center - b2] == o1[c.arg_center - b1]);
    assert(o2[c.arg_radial - b2] == o1[c.arg_radial - b1]);
    assert(with_instances(c, o2, b2) == with_instances(c, o1, b1));
    match c.children {
        None => {
            let lo = c.offset - b1;
            let lo2 = c.offset - b2;
            let s1 = o1.subrange(lo, lo + c.cardinality);
            let s2 = o2.subrange(lo2, lo2 + c.cardinality);
            assert forall|k: int| 0 <= k < c.cardinality implies #[trigger] s2[k] == s1[k] by {
                assert(o2[(c.offset + k) - b2] == o1[(c.offset + k) - b1]);
            }
            assert(s2 =~= s1);
        },
        Some(ch) => {
            let ra = o1[c.arg_radial - b1];
            let pl = o1[ch.arg_l - b1];
            let pr = o1[ch.arg_r - b1];
            assert(o2[c.arg_radial - b2] == ra);
            assert(o2[ch.arg_l - b2] == pl);
            assert(o2[ch.arg_r - b2] == pr);
            let far = if pl == ra {
                pr
            } else {
                pl
            };
            let near = near_side(data, ra, far, input);
            let far_s = far_side(data, ra, far, input);
            let l = *ch.left;
            let r = *ch.right;
            assert forall|p: int| l.offset <= p < l.offset + l.cardinality implies #[trigger] o2[p - b2]
                == o1[p - b1] by {
                assert(o2[p - b2] == o1[p - b1]);
            }
            assert forall|p: int| r.offset <= p < r.offset + r.cardinality implies #[trigger] o2[p - b2]
                == o1[p - b1] by {
                assert(o2[p - b2] == o1[p - b1]);
            }
            lemma_laid_out_agree(data, l, if pl == ra { near } else { far_s }, o1, b1, o2, b2, d, cr);
            lemma_laid_out_agree(data, r, if pl == ra { far_s } else { near }, o1, b1, o2, b2, d, cr);
        },
    }
}

/// A split cluster is laid out when its children are laid out with the
/// shares that its poles give them.
proof fn lemma_laid_out_split(
    data: &VecDataset,
    c: Cluster,
    input: Seq<usize>,
    out: Seq<usize>,
    base: int,
    s0: Seq<usize>,
    s1: Seq<usize>,
    ra: usize,
    pl: usize,
    pr: usize,
)
    requires
        c.children is Some,
        out[c.arg_radial - base] == ra,
        out[c.children->0.arg_l - base] == pl,
        out[c.children->0.arg_r - base] == pr,
        s0 == (if pl == ra {
            near_side(data, ra, pr, input)
        } else {
            far_side(data, ra, pl, input)
        }),
        s1 == (if pl == ra {
            far_side(data, ra, pr, input)
        } else {
            near_side(data, ra, pl, input)
        }),
        laid_out(data, *c.children->0.left, s0, out, base),
        laid_out(data, *c.children->0.right, s1, out, base),
        Cluster::is_built_from(data, c.seed, input, with_instances(c, out, base)),
        exists|p: int|
            is_first_max(center_distances(data, ra, input), p) && input[p] == (if pl == ra {
                pr
            } else {
                pl
            }),
    ensures
        laid_out(data, c, input, out, base),
{
}

/// A split cluster whose children were laid out on their own, the left one
/// in `lo` and the right one in `ro`, is laid out in `lo + ro`.
proof fn lemma_laid_out_join(
    data: &VecDataset,
    cr: PartitionCriteria,
    c: Cluster,
    input: Seq<usize>,
    lo: Seq<usize>,
    ro: Seq<usize>,
    base: int,
    s0: Seq<usize>,
    s1: Seq<usize>,
    ra: usize,
    pl: usize,
    pr: usize,
)
    requires
        c.children is Some,
        (*c.children->0.left).offset == base,
        (*c.children->0.left).cardinality == lo.len(),
        (*c.children->0.right).offset == base + lo.len(),
        (*c.children->0.right).cardinality == ro.len(),
        tree_ok(*c.children->0.left, order_dist(data, lo, base), cr),
        tree_ok(*c.children->0.right, order_dist(data, ro, base + lo.len()), cr),
        laid_out(data, *c.children->0.left, s0, lo, base),
        laid_out(data, *c.children->0.right, s1, ro, base + lo.len()),
        (lo + ro)[c.arg_radial - base] == ra,
        (lo + ro)[c.children->0.arg_l - base] == pl,
        (lo + ro)[c.children->0.arg_r - base] == pr,
        s0 == (if pl == ra {
            near_side(data, ra, pr, input)
        } else {
            far_side(data, ra, pl, input)
        }),
        s1 == (if pl == ra {
            far_side(data, ra, pr, input)
        } else {
            near_side(data, ra, pl, input)
        }),
        Cluster::is_built_from(data, c.seed, input, with_instances(c, lo + ro, base)),
        exists|p: int|
            is_first_max(center_distances(data, ra, input), p) && input[p] == (if pl == ra {
                pr
            } else {
                pl
            }),
    ensures
        laid_out(data, c, input, lo + ro, base),
{
    let ch = c.children->0;
    let l = *ch.left;
    let r = *ch.right;
    let out = lo + ro;
    let ro_base = base + lo.len();
    assert forall|p: int| l.offset <= p < l.offset + l.cardinality implies #[trigger] out[p - base]
        == lo[p - base] by {}
    lemma_laid_out_agree(data, l, s0, lo, base, out, base, order_dist(data, lo, base), cr);
    assert forall|p: int| r.offset <= p < r.offset + r.cardinality implies #[trigger] out[p - base]
        == ro[p - ro_base] by {}
    lemma_laid_out_agree(data, r, s1, ro, ro_base, out, base, order_dist(data, ro, ro_base), cr);
    lemma_laid_out_split(data, c, input, out, base, s0, s1, ra, pl, pr);
}

/// Whether position `q` was put on one of the two sides.
pub open spec fn pos_covered(lpos: Seq<int>, rpos: Seq<int>, q: int) -> bool {
    lpos.contains(q) || rpos.contains(q)
}

/// The first position of the greatest value, and that value; `None` when
/// there are no values.
fn arg_max(values: &[u32]) -> (r: Option<(usize, u32)>)
    ensures
        values@.len() == 0 <==> r is None,
        r matches Some((p, v)) ==> is_first_max(as_ints(values@), p as int) && v == values@[p as int],
{
    let n = values.len();
    if n == 0 {
        return None;
    }
    let mut best: usize = 0;
    let mut k: usize = 1;
    while k < n
        invariant
            n == values@.len(),
            1 <= k <= n,
            best < k,
            forall|j: int| 0 <= j < k ==> #[trigger] values@[j] <= values@[best as int],
            forall|j: int| 0 <= j < best ==> #[trigger] values@[j] < values@[best as int],
        decreases n - k,
    {
        if values[k] > values[best] {
            best = k;
        }
        k = k + 1;
    }
    Some((best, values[best]))
}

/// The first position that holds `v`; `None` when none does.
fn pos_val(values: &[usize], v: usize) -> (r: Option<usize>)
    ensures
        r matches Some(p) ==> p < values@.len() && values@[p as int] == v,
        r is None ==> !values@.contains(v),
{
    let n = values.len();
    let mut k: usize = 0;
    while k < n
        invariant
            n == values@.len(),
            k <= n,
            forall|j: int| 0 <= j < k ==> #[trigger] values@[j] != v,
        decreases n - k,
    {
        if values[k] == v {
            return Some(k);
        }
        k = k + 1;
    }
    None
}

/// The integer square root of `n`: the `r` with `r * r <= n < (r + 1) * (r + 1)`.
pub open spec fn int_sqrt(n: nat) -> nat {
    choose|r: nat| #[trigger] is_int_sqrt(n, r)
}

/// Whether `r * r <= n < (r + 1) * (r + 1)`.
pub open spec fn is_int_sqrt(n: nat, r: nat) -> bool {
    r * r <= n && n < (r + 1) * (r + 1)
}

/// The integer square root is the only such `r`.
proof fn lemma_int_sqrt(n: nat, r: nat)
    requires
        r * r <= n < (r + 1) * (r + 1),
    ensures
        int_sqrt(n) == r,
{
    assert(is_int_sqrt(n, r));
    let q = int_sqrt(n);
    assert(q * q <= n && n < (q + 1) * (q + 1));
    if q < r {
        assert((q + 1) * (q + 1) <= r * r) by (nonlinear_arith)
            requires
                q < r,
        ;
    }
    if r < q {
        assert((r + 1) * (r + 1) <= q * q) by (nonlinear_arith)
            requires
                r < q,
        ;
    }
}

/// The integer square root: the greatest `r` with `r * r <= n`.
fn isqrt(n: usize) -> (r: usize)
    ensures
        r * r <= n < (r + 1) * (r + 1),
        r == int_sqrt(n as nat),
{
    let mut r: usize = 0;
    let mut next_square: u128 = 1;
    while next_square <= n as u128
        invariant
            r * r <= n,
            r <= 0x1_0000_0000,
            next_square == (r + 1) * (r + 1),
        decreases n - r,
    {
        assert(r + 1 <= 0x1_0000_0000) by (nonlinear_arith)
            requires
                (r + 1) * (r + 1) <= n,
                n <= usize::MAX,
        ;
        assert((r + 2) * (r + 2) == (r + 1) * (r + 1) + 2 * r + 3) by (nonlinear_arith);
        assert(r + 1 <= n) by (nonlinear_arith)
            requires
                (r + 1) * (r + 1) <= n,
        ;
        next_square = next_square + 2 * (r as u128) + 3;
        r = r + 1;
    }
    proof {
        lemma_int_sqrt(n as nat, r as nat);
    }
    r
}

impl Cluster {
    /// How `new` picks the center of the instances `indices`: the medoid of
    /// all of them when they are fewer than 100, and otherwise the medoid of a
    /// sample of them.
    pub open spec fn is_center_of(data: &VecDataset, indices: Seq<usize>, center: usize) -> bool {
        if indices.len() < 100 {
            data.is_medoid(indices, center)
        } else {
            exists|s: Seq<usize>| is_sample_of(s, indices) && data.is_medoid(s, center)
        }
    }

    /// Whether `c` is what `new` builds from `indices` with `seed`: its center
    /// is the medoid of the instances (of a sample of them when there are 100
    /// or more, the first `int_sqrt(n)` of the seeded shuffle when a seed is
    /// given), its radial the first instance farthest from the center, and
    /// its radius that distance.
    pub open spec fn is_built_from(
        data: &VecDataset,
        seed: Option<u64>,
        indices: Seq<usize>,
        c: Cluster,
    ) -> bool {
        &&& c.seed == seed
        &&& c.cardinality == indices.len()
        &&& Self::is_center_of(data, indices, c.arg_center)
        &&& exists|p: int|
            is_first_max(center_distances(data, c.arg_center, indices), p) && c.arg_radial
                == indices[p] && c.radius == center_distances(data, c.arg_center, indices)[p]
        &&& indices.len() >= 100 ==> (seed matches Some(s) ==> data.is_medoid(
            seeded_shuffle(indices, s).take(int_sqrt(indices.len()) as int),
            c.arg_center,
        ))
    }

    /// Whether the cluster is as `new` makes it from the instances `indices`:
    /// without children, its center and radial among `indices`, its radius
    /// the distance between them, and no instance farther from the center.
    pub open spec fn is_fresh(&self, data: &VecDataset, indices: Seq<usize>) -> bool {
        &&& self.children is None
        &&& self.cardinality == indices.len()
        &&& indices.contains(self.arg_center)
        &&& indices.contains(self.arg_radial)
        &&& self.radius == data.dist(self.arg_center as int, self.arg_radial as int)
        &&& forall|k: int|
            0 <= k < indices.len() ==> data.dist(self.arg_center as int, #[trigger] indices[k] as int)
                <= self.radius
        &&& indices.len() < 100 ==> data.is_medoid(indices, self.arg_center)
    }

    /// Creates a new root `Cluster` over the instances `indices`, with the
    /// history `[true]` and offset 0.
    ///
    /// # Arguments
    ///
    /// * `data`: on which to create the `Cluster`.
    /// * `indices`: The indices of instances from the `dataset` that are contained in the `Cluster`.
    /// * `seed`: The seed used in the random number generator for this `Cluster`.
    pub fn new_root(data: &VecDataset, indices: &[usize], seed: Option<u64>) -> (c: Cluster)
        requires
            data.wf(),
            indices@.len() > 0,
            all_below(indices@, data.size()),
        ensures
            c.history@ == seq![true],
            c.seed == seed,
            c.offset == 0,
            c.cardinality == indices@.len(),
            c.children is None,
            Self::is_built_from(data, seed, indices@, c),
            c.is_fresh(data, indices@),
    {
        let mut history: Vec<bool> = Vec::new();
        history.push(true);
        Self::new(data, seed, history, 0, indices)
    }

    /// Creates a new `Cluster` over the instances `indices`.
    ///
    /// The center is the medoid of the instances, or, from 100 instances on,
    /// the medoid of a random sample of as many of them as the integer square
    /// root of their number (drawn with `choose_unique` and the seed). The
    /// radial is the first of the instances that lies farthest from the
    /// center, and the radius its distance from it.
    ///
    /// # Arguments
    ///
    /// * `data`: on which to create the `Cluster`.
    /// * `seed`: The seed used in the random number generator for this `Cluster`.
    /// * `history`: The `Cluster`'s history in the tree.
    /// * `offset`: The offset of the indices of the `Cluster`'s instances in the dataset.
    /// * `indices`: The indices of instances from the `dataset` that are contained in the `Cluster`.
    pub fn new(
        data: &VecDataset,
        seed: Option<u64>,
        history: Vec<bool>,
        offset: usize,
        indices: &[usize],
    ) -> (c: Cluster)
        requires
            data.wf(),
            indices@.len() > 0,
            all_below(indices@, data.size()),
        ensures
            c.history@ == history@,
            c.seed == seed,
            c.offset == offset,
            c.cardinality == indices@.len(),
            c.children is None,
            Self::is_built_from(data, seed, indices@, c),
            c.is_fresh(data, indices@),
    {
        let cardinality = indices.len();
        let arg_samples = if cardinality < 100 {
            vstd::slice::slice_to_vec(indices)
        } else {
            let n = isqrt(cardinality);
            assert(n >= 10) by (nonlinear_arith)
                requires
                    n * n <= cardinality < (n + 1) * (n + 1),
                    cardinality >= 100,
            ;
            let s = data.choose_unique(n, indices, seed);
            assert(n <= cardinality) by (nonlinear_arith)
                requires
                    n * n <= cardinality,
                    n >= 10,
            ;
            assert(is_sample_of(s@, indices@));
            s
        };
        proof {
            assert forall|i: int| 0 <= i < arg_samples@.len() implies #[trigger] arg_samples@[i]
                < data.size() && indices@.contains(arg_samples@[i]) by {
                let x = arg_samples@[i];
                if cardinality >= 100 {
                    arg_samples@.to_multiset_ensures();
                    indices@.to_multiset_ensures();
                    assert(arg_samples@.contains(x));
                    assert(arg_samples@.to_multiset().count(x) <= indices@.to_multiset().count(x));
                } else {
                    assert(indices@[i] == x);
                }
                assert(indices@.contains(x));
            }
        }
        let c = Self::from_samples(data, seed, history, offset, indices, arg_samples.as_slice());
        proof {
            assert(Self::is_center_of(data, indices@, c.arg_center)) by {
                if cardinality >= 100 {
                    assert(is_sample_of(arg_samples@, indices@));
                } else {
                    assert(arg_samples@ == indices@);
                }
            }
        }
        c
    }

    /// Creates a new `Cluster` over the instances `indices` whose center is
    /// the medoid of the instances `arg_samples`: the first of them whose sum
    /// of distances to all of them is smallest. The radial is the first of
    /// `indices` that lies farthest from the center, and the radius its
    /// distance from it.
    pub fn from_samples(
        data: &VecDataset,
        seed: Option<u64>,
        history: Vec<bool>,
        offset: usize,
        indices: &[usize],
        arg_samples: &[usize],
    ) -> (c: Cluster)
        requires
            data.wf(),
            indices@.len() > 0,
            all_below(indices@, data.size()),
            arg_samples@.len() > 0,
            forall|i: int| 0 <= i < arg_samples@.len() ==> indices@.contains(#[trigger] arg_samples@[i]),
        ensures
            c.history@ == history@,
            c.seed == seed,
            c.offset == offset,
            c.cardinality == indices@.len(),
            c.children is None,
            data.is_medoid(arg_samples@, c.arg_center),
            exists|p: int|
                is_first_max(center_distances(data, c.arg_center, indices@), p) && c.arg_radial
                    == indices@[p] && c.radius == center_distances(data, c.arg_center, indices@)[p],
            indices@.contains(c.arg_center),
            indices@.contains(c.arg_radial),
            c.radius == data.dist(c.arg_center as int, c.arg_radial as int),
            forall|k: int|
                0 <= k < indices@.len() ==> data.dist(c.arg_center as int, #[trigger] indices@[k] as int)
                    <= c.radius,
            arg_samples@ == indices@ ==> c.is_fresh(data, indices@),
    {
        let cardinality = indices.len();
        proof {
            assert forall|i: int| 0 <= i < arg_samples@.len() implies #[trigger] arg_samples@[i]
                < data.size() by {
                let x = arg_samples@[i];
                assert(indices@.contains(x));
                let q = choose|q: int| 0 <= q < indices@.len() && indices@[q] == x;
            }
        }
        let arg_center = data.median(arg_samples).unwrap();
        let ghost samples = arg_samples@;
        proof {
            let p = choose|p: int|
                crate::dataset::is_first_min(data.medoid_sums(samples), p) && arg_center == samples[p];
            assert(indices@.contains(samples[p]));
            assert(indices@.contains(arg_center));
        }
        let center_distances_v = data.one_to_many(arg_center, indices);
        let (p, radius) = arg_max(center_distances_v.as_slice()).unwrap();
        let arg_radial = indices[p];
        let c = Cluster {
            history,
            seed,
            offset,
            cardinality,
            arg_center,
            arg_radial,
            radius,
            children: None,
        };
        proof {
            let cd = center_distances(data, arg_center, indices@);
            assert(as_ints(center_distances_v@) =~= cd);
            assert(is_first_max(cd, p as int));
            assert forall|k: int| 0 <= k < indices@.len() implies data.dist(
                arg_center as int,
                #[trigger] indices@[k] as int,
            ) <= radius by {
                assert(cd[k] <= cd[p as int]);
            }
            assert(indices@[p as int] == arg_radial);
        }
        c
    }
}

impl Cluster {
    /// Partitions the instances `indices` of a cluster that is not a singleton
    /// into two, around two poles: the radial, and the first of the instances
    /// farthest from the radial. Every other instance goes with the radial
    /// when it is not farther from the radial than from the other pole, and
    /// with the other pole otherwise; each side ends with its pole. The larger
    /// side comes first (the radial's side when they are equally large). Also
    /// returns the distance between the poles.
    fn partition_once(&self, data: &VecDataset, indices: Vec<usize>) -> (r: (
        (usize, Vec<usize>),
        (usize, Vec<usize>),
        u32,
    ))
        requires
            data.wf(),
            all_below(indices@, data.size()),
            indices@.no_duplicates(),
            self.is_fresh(data, indices@),
            self.radius != 0,
        ensures
            ({
                let (a0, s0) = r.0;
                let (a1, s1) = r.1;
                let ra = self.arg_radial;
                let far = if a0 == ra {
                    a1
                } else {
                    a0
                };
                let near = near_side(data, ra, far, indices@);
                let far_s = far_side(data, ra, far, indices@);
                &&& a0 != a1
                &&& a0 == ra || a1 == ra
                &&& (if a0 == ra {
                    s0@
                } else {
                    s1@
                }) == near
                &&& (if a0 == ra {
                    s1@
                } else {
                    s0@
                }) == far_s
                &&& (a0 == ra) == (near.len() >= far_s.len())
                &&& r.2 == data.dist(a0 as int, a1 as int)
                &&& r.2 == data.dist(ra as int, far as int)
                &&& forall|x: usize|
                    #[trigger] indices@.contains(x) && x != a0 && x != a1 ==> ((s0@.contains(x) == (a0
                        == ra)) == (data.dist(ra as int, x as int) <= data.dist(far as int, x as int)))
                &&& exists|p: int|
                    is_first_max(center_distances(data, ra, indices@), p) && indices@[p] == (if a0
                        == ra {
                        a1
                    } else {
                        a0
                    })
                &&& s0@.len() >= s1@.len()
                &&& s1@.len() >= 1
                &&& s0@.len() + s1@.len() == indices@.len()
                &&& s0@.last() == a0
                &&& s1@.last() == a1
                &&& s0@.no_duplicates()
                &&& s1@.no_duplicates()
                &&& forall|x: usize| !(s0@.contains(x) && s1@.contains(x))
                &&& forall|x: usize| indices@.contains(x) <==> (s0@.contains(x) || s1@.contains(x))
                &&& forall|x: usize|
                    s0@.contains(x) ==> data.dist(a0 as int, x as int) <= data.dist(a1 as int, x as int)
                &&& forall|x: usize|
                    s1@.contains(x) ==> data.dist(a1 as int, x as int) <= data.dist(a0 as int, x as int)
            }),
    {
        let ra = self.arg_radial;
        let n = indices.len();
        let l_distances = data.one_to_many(ra, indices.as_slice());
        let (p, polar_distance) = arg_max(l_distances.as_slice()).unwrap();
        let rr = indices[p];
        let r_distances = data.one_to_many(rr, indices.as_slice());
        let ghost ld = center_distances(data, ra, indices@);
        proof {
            assert(as_ints(l_distances@) =~= ld);
            // the far pole is not the radial: the center lies at a positive
            // distance from the radial
            let kc = choose|k: int| 0 <= k < n && indices@[k] == self.arg_center;
            let inst = data.instances();
            lemma_distance_symmetric(
                data.spec_metric(),
                inst[self.arg_center as int],
                inst[ra as int],
            );
            assert(ld[kc] <= ld[p as int]);
            lemma_distance_to_self(data.spec_metric(), inst[ra as int]);
        }
        let ghost pa = choose|k: int| 0 <= k < n && indices@[k] == ra;
        let mut l: Vec<usize> = Vec::new();
        let mut r: Vec<usize> = Vec::new();
        let ghost mut lpos: Seq<int> = Seq::empty();
        let ghost mut rpos: Seq<int> = Seq::empty();
        let mut k: usize = 0;
        while k < n
            invariant
                n == indices@.len(),
                n == l_distances@.len(),
                n == r_distances@.len(),
                data.wf(),
                all_below(indices@, data.size()),
                indices@.no_duplicates(),
                ra < data.size(),
                rr < data.size(),
                ra != rr,
                0 <= pa < n,
                indices@[pa] == ra,
                p < n,
                indices@[p as int] == rr,
                forall|q: int| 0 <= q < n ==> #[trigger] l_distances@[q] == data.dist(ra as int, indices@[q] as int),
                forall|q: int| 0 <= q < n ==> #[trigger] r_distances@[q] == data.dist(rr as int, indices@[q] as int),
                k <= n,
                lpos.len() == l@.len(),
                rpos.len() == r@.len(),
                forall|m: int| 0 <= m < l@.len() ==> 0 <= #[trigger] lpos[m] < k && l@[m] == indices@[lpos[m]],
                forall|m: int| 0 <= m < r@.len() ==> 0 <= #[trigger] rpos[m] < k && r@[m] == indices@[rpos[m]],
                forall|m1: int, m2: int| 0 <= m1 < m2 < l@.len() ==> lpos[m1] < lpos[m2],
                forall|m1: int, m2: int| 0 <= m1 < m2 < r@.len() ==> rpos[m1] < rpos[m2],
                forall|m: int| 0 <= m < l@.len() ==> #[trigger] l@[m] != ra && l@[m] != rr
                    && data.dist(ra as int, l@[m] as int) <= data.dist(rr as int, l@[m] as int),
                forall|m: int| 0 <= m < r@.len() ==> #[trigger] r@[m] != ra && r@[m] != rr
                    && data.dist(ra as int, r@[m] as int) > data.dist(rr as int, r@[m] as int),
                forall|m1: int, m2: int| 0 <= m1 < l@.len() && 0 <= m2 < r@.len() ==> lpos[m1] != rpos[m2],
                forall|q: int| 0 <= q < k && q != pa && q != p ==> #[trigger] pos_covered(lpos, rpos, q),
                l@.len() + r@.len() + (if pa < k { 1int } else { 0int }) + (if p < k { 1int } else { 0int }) == k,
                l@ == indices@.take(k as int).filter(near_pred(data, ra, rr)),
                r@ == indices@.take(k as int).filter(far_pred(data, ra, rr)),
            decreases n - k,
        {
            let i = indices[k];
            let ghost old_lpos = lpos;
            let ghost old_rpos = rpos;
            proof {
                assert(i == ra <==> k == pa);
                assert(i == rr <==> k == p);
            }
            if i != ra && i != rr {
                if l_distances[k] <= r_distances[k] {
                    l.push(i);
                    proof { lpos = lpos.push(k as int); }
                } else {
                    r.push(i);
                    proof { rpos = rpos.push(k as int); }
                }
            }
            proof {
                let t = indices@.take(k as int);
                assert(indices@.take(k + 1) =~= t.push(i));
                t.lemma_filter_push(i, near_pred(data, ra, rr));
                t.lemma_filter_push(i, far_pred(data, ra, rr));
            }
            k = k + 1;
            proof {
                assert forall|q: int| 0 <= q < k && q != pa && q != p implies #[trigger] pos_covered(lpos, rpos, q) by {
                    if q == k - 1 {
                        if l@.len() > 0 && lpos.last() == q {
                            assert(lpos[l@.len() - 1] == q);
                        } else {
                            assert(rpos[r@.len() - 1] == q);
                        }
                    } else {
                        assert(pos_covered(old_lpos, old_rpos, q));
                        if old_lpos.contains(q) {
                            let m = choose|m: int| 0 <= m < old_lpos.len() && old_lpos[m] == q;
                            assert(lpos[m] == q);
                        } else {
                            let m = choose|m: int| 0 <= m < old_rpos.len() && old_rpos[m] == q;
                            assert(rpos[m] == q);
                        }
                    }
                }
            }
        }
        let ghost l0 = l@;
        let ghost r0 = r@;
        assert(indices@.take(n as int) =~= indices@);
        proof {
            // the sides hold no position twice, and none that the other holds
            assert forall|m1: int, m2: int| 0 <= m1 < l0.len() && 0 <= m2 < l0.len() && m1 != m2 implies l0[m1] != l0[m2] by {
                if m1 < m2 {
                    assert(lpos[m1] < lpos[m2]);
                } else {
                    assert(lpos[m2] < lpos[m1]);
                }
            }
            assert forall|m1: int, m2: int| 0 <= m1 < r0.len() && 0 <= m2 < r0.len() && m1 != m2 implies r0[m1] != r0[m2] by {
                if m1 < m2 {
                    assert(rpos[m1] < rpos[m2]);
                } else {
                    assert(rpos[m2] < rpos[m1]);
                }
            }
        }
        l.push(ra);
        r.push(rr);
        let ghost inst = data.instances();
        proof {
            lemma_distance_to_self(data.spec_metric(), inst[ra as int]);
            lemma_distance_to_self(data.spec_metric(), inst[rr as int]);
            lemma_distance_nonnegative(data.spec_metric(), inst[rr as int], inst[ra as int]);
            lemma_distance_nonnegative(data.spec_metric(), inst[ra as int], inst[rr as int]);
            lemma_distance_symmetric(data.spec_metric(), inst[ra as int], inst[rr as int]);
            assert(l@ == l0.push(ra));
            assert(r@ == r0.push(rr));
            assert forall|x: usize| !(l@.contains(x) && r@.contains(x)) by {
                if l@.contains(x) && r@.contains(x) {
                    let m1 = choose|m: int| 0 <= m < l@.len() && l@[m] == x;
                    let m2 = choose|m: int| 0 <= m < r@.len() && r@[m] == x;
                    if m1 < l0.len() && m2 < r0.len() {
                        assert(lpos[m1] != rpos[m2]);
                        assert(indices@[lpos[m1]] == indices@[rpos[m2]]);
                    }
                }
            }
            assert forall|x: usize| indices@.contains(x) <==> (l@.contains(x) || r@.contains(x)) by {
                if indices@.contains(x) {
                    let q = choose|q: int| 0 <= q < n && indices@[q] == x;
                    if q == pa {
                        assert(l@[l0.len() as int] == x);
                    } else if q == p {
                        assert(r@[r0.len() as int] == x);
                    } else {
                        assert(pos_covered(lpos, rpos, q));
                        if lpos.contains(q) {
                            let m = choose|m: int| 0 <= m < lpos.len() && lpos[m] == q;
                            assert(l@[m] == x);
                        } else {
                            let m = choose|m: int| 0 <= m < rpos.len() && rpos[m] == q;
                            assert(r@[m] == x);
                        }
                    }
                }
                if l@.contains(x) {
                    let m = choose|m: int| 0 <= m < l@.len() && l@[m] == x;
                    if m < l0.len() {
                        assert(indices@[lpos[m]] == x);
                    } else {
                        assert(indices@[pa] == x);
                    }
                }
                if r@.contains(x) {
                    let m = choose|m: int| 0 <= m < r@.len() && r@[m] == x;
                    if m < r0.len() {
                        assert(indices@[rpos[m]] == x);
                    } else {
                        assert(indices@[p as int] == x);
                    }
                }
            }
            assert forall|x: usize| l@.contains(x) implies data.dist(ra as int, x as int) <= data.dist(rr as int, x as int) by {
                let m = choose|m: int| 0 <= m < l@.len() && l@[m] == x;
                if m < l0.len() {
                    assert(l0[m] == x);
                }
            }
            assert forall|x: usize| r@.contains(x) implies data.dist(rr as int, x as int) <= data.dist(ra as int, x as int) by {
                let m = choose|m: int| 0 <= m < r@.len() && r@[m] == x;
                if m < r0.len() {
                    assert(r0[m] == x);
                }
            }
            assert(l@.no_duplicates());
            assert(r@.no_duplicates());
            assert forall|x: usize| indices@.contains(x) && x != ra && x != rr implies (l@.contains(x) == (
            data.dist(ra as int, x as int) <= data.dist(rr as int, x as int))) && (r@.contains(x) == !(
            data.dist(ra as int, x as int) <= data.dist(rr as int, x as int))) by {
                if l@.contains(x) {
                    let m = choose|m: int| 0 <= m < l@.len() && l@[m] == x;
                    assert(m < l0.len());
                    assert(l0[m] == x);
                    assert(!r@.contains(x));
                } else {
                    assert(r@.contains(x));
                    let m = choose|m: int| 0 <= m < r@.len() && r@[m] == x;
                    assert(m < r0.len());
                    assert(r0[m] == x);
                }
            }
        }
        if l.len() < r.len() {
            ((rr, r), (ra, l), polar_distance)
        } else {
            ((ra, l), (rr, r), polar_distance)
        }
    }
}

/// A sum of distances over positions of an order is the sum over the
/// instances at those positions.
proof fn lemma_range_sum_order(data: &VecDataset, out: Seq<usize>, base: int, a: int, m: int)
    requires
        0 <= m <= out.len(),
    ensures
        range_sum(order_dist(data, out, base), a, base, base + m) == crate::dataset::distance_sum(
            data.dist_fn(),
            out[a - base] as int,
            out.take(m),
        ),
    decreases m,
{
    if m > 0 {
        lemma_range_sum_order(data, out, base, a, m - 1);
        assert(out.take(m).drop_last() =~= out.take(m - 1));
        assert(out.take(m).last() == out[m - 1]);
    }
}

/// Removing one instance from a sum of distances takes away its distance.
proof fn lemma_distance_sum_remove(f: spec_fn(int, int) -> int, x: int, t: Seq<usize>, i: int)
    requires
        0 <= i < t.len(),
    ensures
        crate::dataset::distance_sum(f, x, t) == crate::dataset::distance_sum(f, x, t.remove(i)) + f(
            x,
            t[i] as int,
        ),
    decreases t.len(),
{
    if i == t.len() - 1 {
        assert(t.remove(i) =~= t.drop_last());
    } else {
        lemma_distance_sum_remove(f, x, t.drop_last(), i);
        assert(t.remove(i).drop_last() =~= t.drop_last().remove(i));
        assert(t.remove(i).last() == t.last());
    }
}

/// A sum of distances does not depend on the order of the instances.
proof fn lemma_distance_sum_reorder(f: spec_fn(int, int) -> int, x: int, s: Seq<usize>, t: Seq<usize>)
    requires
        same_elements(s, t),
    ensures
        crate::dataset::distance_sum(f, x, s) == crate::dataset::distance_sum(f, x, t),
    decreases s.len(),
{
    if s.len() > 0 {
        let y = s.last();
        assert(s.contains(y)) by {
            assert(s[s.len() - 1] == y);
        }
        let i = choose|i: int| 0 <= i < t.len() && t[i] == y;
        let s2 = s.drop_last();
        let t2 = t.remove(i);
        assert(s2.no_duplicates());
        assert(t2.no_duplicates()) by {
            assert forall|a: int, b: int| 0 <= a < t2.len() && 0 <= b < t2.len() && a != b implies t2[a] != t2[b] by {
                let a2 = if a < i { a } else { a + 1 };
                let b2 = if b < i { b } else { b + 1 };
                assert(t2[a] == t[a2]);
                assert(t2[b] == t[b2]);
            }
        }
        assert forall|z: usize| s2.contains(z) <==> t2.contains(z) by {
            if s2.contains(z) {
                let a = choose|a: int| 0 <= a < s2.len() && s2[a] == z;
                assert(s[a] == z);
                assert(z != y);
                assert(t.contains(z));
                let b = choose|b: int| 0 <= b < t.len() && t[b] == z;
                assert(b != i);
                if b < i {
                    assert(t2[b] == z);
                } else {
                    assert(t2[b - 1] == z);
                }
            }
            if t2.contains(z) {
                let b = choose|b: int| 0 <= b < t2.len() && t2[b] == z;
                let b2 = if b < i { b } else { b + 1 };
                assert(t[b2] == z);
                assert(b2 != i);
                assert(z != y);
                assert(t.contains(z));
                assert(s.contains(z));
                let a = choose|a: int| 0 <= a < s.len() && s[a] == z;
                assert(a != s.len() - 1);
                assert(s2[a] == z);
            }
        }
        lemma_distance_sum_reorder(f, x, s2, t2);
        lemma_distance_sum_remove(f, x, t, i);
    }
}

/// The center facts of a cluster made from the instances `idx` carry over to
/// the positions of an order `out` of them that starts at `base`.
proof fn lemma_center_in_order(
    data: &VecDataset,
    out: Seq<usize>,
    idx: Seq<usize>,
    base: int,
    center: usize,
    pc: int,
    radius: int,
)
    requires
        same_elements(out, idx),
        0 <= pc < out.len(),
        out[pc] == center,
        forall|k: int| 0 <= k < idx.len() ==> data.dist(center as int, #[trigger] idx[k] as int) <= radius,
        idx.len() < 100 ==> data.is_medoid(idx, center),
    ensures
        forall|j: int|
            base <= j < base + out.len() ==> #[trigger] order_dist(data, out, base)(base + pc, j)
                <= radius,
        out.len() < 100 ==> forall|k: int|
            base <= k < base + out.len() ==> range_sum(
                order_dist(data, out, base),
                base + pc,
                base,
                base + out.len(),
            ) <= #[trigger] range_sum(order_dist(data, out, base), k, base, base + out.len()),
{
    let d = order_dist(data, out, base);
    let n = out.len() as int;
    assert forall|j: int| base <= j < base + n implies #[trigger] d(base + pc, j) <= radius by {
        let x = out[j - base];
        assert(out.contains(x));
        assert(idx.contains(x));
        let q = choose|q: int| 0 <= q < idx.len() && idx[q] == x;
        assert(data.dist(center as int, idx[q] as int) <= radius);
    }
    if n < 100 {
        let f = data.dist_fn();
        let p = choose|p: int|
            crate::dataset::is_first_min(data.medoid_sums(idx), p) && center == idx[p];
        assert(out.take(n) =~= out);
        lemma_range_sum_order(data, out, base, base + pc, n);
        lemma_distance_sum_reorder(f, center as int, out, idx);
        assert forall|k: int| base <= k < base + n implies range_sum(d, base + pc, base, base + n)
            <= #[trigger] range_sum(d, k, base, base + n) by {
            lemma_range_sum_order(data, out, base, k, n);
            let x = out[k - base];
            lemma_distance_sum_reorder(f, x as int, out, idx);
            assert(out.contains(x));
            assert(idx.contains(x));
            let q = choose|q: int| 0 <= q < idx.len() && idx[q] == x;
            assert(data.medoid_sums(idx)[p] <= data.medoid_sums(idx)[q]);
        }
    }
}

/// Concatenating reorderings of two sides that hold no position in common
/// gives a reordering of their union.
proof fn lemma_concat_same_elements(a: Seq<usize>, b: Seq<usize>, s0: Seq<usize>, s1: Seq<usize>)
    requires
        same_elements(a, s0),
        same_elements(b, s1),
        forall|x: usize| !(s0.contains(x) && s1.contains(x)),
    ensures
        (a + b).no_duplicates(),
        (a + b).len() == s0.len() + s1.len(),
        forall|x: usize| (a + b).contains(x) <==> (s0.contains(x) || s1.contains(x)),
{
    let c = a + b;
    assert forall|i: int, j: int| 0 <= i < c.len() && 0 <= j < c.len() && i != j implies c[i] != c[j] by {
        if i < a.len() && j < a.len() {
        } else if i >= a.len() && j >= a.len() {
            assert(c[i] == b[i - a.len()]);
            assert(c[j] == b[j - a.len()]);
        } else if i < a.len() {
            assert(a.contains(c[i]));
            assert(c[j] == b[j - a.len()]);
            assert(b.contains(c[j]));
        } else {
            assert(a.contains(c[j]));
            assert(c[i] == b[i - a.len()]);
            assert(b.contains(c[i]));
        }
    }
    assert forall|x: usize| c.contains(x) <==> (s0.contains(x) || s1.contains(x)) by {
        if c.contains(x) {
            let i = choose|i: int| 0 <= i < c.len() && c[i] == x;
            if i < a.len() {
                assert(a.contains(x));
            } else {
                assert(b[i - a.len()] == x);
                assert(b.contains(x));
            }
        }
        if a.contains(x) {
            let i = choose|i: int| 0 <= i < a.len() && a[i] == x;
            assert(c[i] == x);
        }
        if b.contains(x) {
            let i = choose|i: int| 0 <= i < b.len() && b[i] == x;
            assert(c[a.len() + i] == x);
        }
    }
}

/// Partitions two sibling clusters with `rayon::join`, which may run the two
/// recursive calls in parallel.
///
/// Trusted: `rayon::join` calls both closures (possibly on two threads) and
/// returns the pair of their results, the first closure's first. Each closure
/// only calls `_partition`, so each result is what `_partition` returns for
/// its cluster, and this contract is `_partition`'s contract for each. That
/// the two calls return at all is not checked here (see `_partition`).
#[verifier::external_body]
fn partition_pair(
    data: &VecDataset,
    criteria: &PartitionCriteria,
    left: Cluster,
    l_indices: Vec<usize>,
    right: Cluster,
    r_indices: Vec<usize>,
) -> (r: ((Cluster, Vec<usize>), (Cluster, Vec<usize>)))
    requires
        data.wf(),
        all_below(l_indices@, data.size()),
        l_indices@.no_duplicates(),
        left.is_fresh(data, l_indices@),
        left.history@.len() > 0,
        left.offset + l_indices@.len() <= usize::MAX,
        all_below(r_indices@, data.size()),
        r_indices@.no_duplicates(),
        right.is_fresh(data, r_indices@),
        right.history@.len() > 0,
        right.offset + r_indices@.len() <= usize::MAX,
        Cluster::is_built_from(data, left.seed, l_indices@, left),
        Cluster::is_built_from(data, right.seed, r_indices@, right),
    ensures
        same_elements(r.0.1@, l_indices@),
        r.0.0.history@ == left.history@,
        r.0.0.seed == left.seed,
        r.0.0.offset == left.offset,
        r.0.0.cardinality == left.cardinality,
        r.0.0.radius == left.radius,
        tree_ok(r.0.0, order_dist(data, r.0.1@, left.offset as int), *criteria),
        r.0.1@[r.0.0.arg_center - left.offset] == left.arg_center,
        r.0.1@[r.0.0.arg_radial - left.offset] == left.arg_radial,
        criteria.spec_check(left) == r.0.0.children is Some,
        !criteria.spec_check(left) ==> r.0.1@ == l_indices@,
        laid_out(data, r.0.0, l_indices@, r.0.1@, left.offset as int),
        same_elements(r.1.1@, r_indices@),
        r.1.0.history@ == right.history@,
        r.1.0.seed == right.seed,
        r.1.0.offset == right.offset,
        r.1.0.cardinality == right.cardinality,
        r.1.0.radius == right.radius,
        tree_ok(r.1.0, order_dist(data, r.1.1@, right.offset as int), *criteria),
        r.1.1@[r.1.0.arg_center - right.offset] == right.arg_center,
        r.1.1@[r.1.0.arg_radial - right.offset] == right.arg_radial,
        criteria.spec_check(right) == r.1.0.children is Some,
        !criteria.spec_check(right) ==> r.1.1@ == r_indices@,
        laid_out(data, r.1.0, r_indices@, r.1.1@, right.offset as int),
{
    rayon::join(
        || left._partition(data, criteria, l_indices),
        || right._partition(data, criteria, r_indices),
    )
}

impl Cluster {
    /// Recursive helper function for `partition`: partitions the cluster made
    /// from the instances `indices` while the criteria hold, and returns it
    /// with its instances reordered so that every cluster's instances lie
    /// together, left child before right child. Centers, radials and poles
    /// become positions in that order, counted from the cluster's offset.
    ///
    /// The recursion runs through `partition_pair`, so Verus does not check
    /// that it ends; the body proves that each side handed on holds fewer
    /// instances than the cluster, which is why it does.
    #[verifier::spinoff_prover]
    #[verifier::rlimit(50)]
    fn _partition(self, data: &VecDataset, criteria: &PartitionCriteria, indices: Vec<usize>) -> (r: (
        Cluster,
        Vec<usize>,
    ))
        requires
            data.wf(),
            all_below(indices@, data.size()),
            indices@.no_duplicates(),
            self.is_fresh(data, indices@),
            self.history@.len() > 0,
            self.offset + indices@.len() <= usize::MAX,
            Cluster::is_built_from(data, self.seed, indices@, self),
        ensures
            same_elements(r.1@, indices@),
            r.0.history@ == self.history@,
            r.0.seed == self.seed,
            r.0.offset == self.offset,
            r.0.cardinality == self.cardinality,
            r.0.radius == self.radius,
            tree_ok(r.0, order_dist(data, r.1@, self.offset as int), *criteria),
            r.1@[r.0.arg_center - self.offset] == self.arg_center,
            r.1@[r.0.arg_radial - self.offset] == self.arg_radial,
            criteria.spec_check(self) == r.0.children is Some,
            !criteria.spec_check(self) ==> r.1@ == indices@,
            laid_out(data, r.0, indices@, r.1@, self.offset as int),
    {
        let mut this = self;
        let ghost n = indices@.len();
        let ghost idx = indices@;
        let center = this.arg_center;
        let radial = this.arg_radial;
        let base = this.offset;
        if criteria.check(&this) {
            let ((arg_l, l_indices), (arg_r, r_indices), polar_distance) = this.partition_once(
                data,
                indices,
            );
            let ghost s0 = l_indices@;
            let ghost s1 = r_indices@;
            proof {
                assert forall|i: int| 0 <= i < s0.len() implies #[trigger] s0[i] < data.size() by {
                    assert(s0.contains(s0[i]));
                    let q = choose|q: int| 0 <= q < idx.len() && idx[q] == s0[i];
                }
                assert forall|i: int| 0 <= i < s1.len() implies #[trigger] s1[i] < data.size() by {
                    assert(s1.contains(s1[i]));
                    let q = choose|q: int| 0 <= q < idx.len() && idx[q] == s1[i];
                }
            }
            // each side holds fewer instances than this cluster, which is
            // what ends the recursion through `partition_pair`
            assert(s0.len() < n && s1.len() < n) by {
                assert(s0[s0.len() - 1] == arg_l);
                assert(s1[s1.len() - 1] == arg_r);
            }
            let r_offset = this.offset + l_indices.len();
            let left_new = Self::new(
                data,
                this.seed,
                this.child_history(false),
                this.offset,
                l_indices.as_slice(),
            );
            let right_new = Self::new(
                data,
                this.seed,
                this.child_history(true),
                r_offset,
                r_indices.as_slice(),
            );
            let ((left, l_out), (right, r_out)) = partition_pair(
                data,
                criteria,
                left_new,
                l_indices,
                right_new,
                r_indices,
            );
            proof {
                assert(s0.contains(arg_l)) by {
                    assert(s0[s0.len() - 1] == arg_l);
                }
                assert(s1.contains(arg_r)) by {
                    assert(s1[s1.len() - 1] == arg_r);
                }
            }
            let pl = pos_val(l_out.as_slice(), arg_l).unwrap();
            let pr = pos_val(r_out.as_slice(), arg_r).unwrap();
            let ghost lo = l_out@;
            let ghost ro = r_out@;
            let mut out = l_out;
            let mut r_out = r_out;
            out.append(&mut r_out);
            proof {
                assert(out@ == lo + ro);
                lemma_concat_same_elements(lo, ro, s0, s1);
                assert(same_elements(out@, idx));
                assert(out@.contains(center));
                assert(out@.contains(radial));
            }
            let pc = pos_val(out.as_slice(), center).unwrap();
            let pd = pos_val(out.as_slice(), radial).unwrap();
            this.arg_center = base + pc;
            this.arg_radial = base + pd;
            let ghost d = order_dist(data, out@, base as int);
            proof {
                let b = base as int;
                lemma_center_in_order(data, out@, idx, b, center, pc as int, this.radius as int);
                lemma_tree_ok_agree(left, order_dist(data, lo, b), d, *criteria);
                assert forall|i: int, j: int|
                    r_offset <= i < r_offset + right.cardinality && r_offset <= j < r_offset
                        + right.cardinality implies #[trigger] d(i, j) == order_dist(
                    data,
                    ro,
                    r_offset as int,
                )(i, j) by {
                    assert(out@[i - b] == ro[i - r_offset]);
                    assert(out@[j - b] == ro[j - r_offset]);
                }
                lemma_tree_ok_agree(right, order_dist(data, ro, r_offset as int), d, *criteria);
                let gl = (b + pl) as int;
                let gr = (r_offset + pr) as int;
                assert(out@[pl as int] == arg_l);
                assert(out@[gr - b] == arg_r);
                assert(out@[pd as int] == radial);
                // the radial's position is the position of the pole that it is
                if arg_l == radial {
                    assert(pl == pd);
                }
                if arg_r == radial {
                    assert(gr - b == pd);
                }
                let radial_left = gl == this.arg_radial;
                assert(radial_left == (arg_l == radial));
                let far_pos: int = if radial_left {
                    gr
                } else {
                    gl
                };
                let far: usize = if arg_l == radial {
                    arg_r
                } else {
                    arg_l
                };
                assert(out@[far_pos - b] == far);
                assert(d(this.arg_radial as int, far_pos) == data.dist(radial as int, far as int));
                let pmax = choose|q: int|
                    is_first_max(center_distances(data, radial, idx), q) && idx[q] == far;
                assert forall|j: int| b <= j < b + n implies #[trigger] d(this.arg_radial as int, j)
                    <= polar_distance by {
                    let x = out@[j - b];
                    assert(out@.contains(x));
                    assert(idx.contains(x));
                    let q = choose|q: int| 0 <= q < idx.len() && idx[q] == x;
                    assert(center_distances(data, radial, idx)[q] <= center_distances(
                        data,
                        radial,
                        idx,
                    )[pmax]);
                }
                assert forall|j: int|
                    b <= j < b + n && j != gl && j != gr implies ((j < r_offset) == radial_left)
                        == (#[trigger] d(this.arg_radial as int, j) <= d(far_pos, j)) by {
                    let x = out@[j - b];
                    assert(out@.contains(x));
                    assert(idx.contains(x));
                    assert(x != arg_l) by {
                        if x == arg_l {
                            assert(out@[j - b] == out@[pl as int]);
                        }
                    }
                    assert(x != arg_r) by {
                        if x == arg_r {
                            assert(out@[j - b] == out@[gr - b]);
                        }
                    }
                    if j < r_offset {
                        assert(lo[j - b] == x);
                        assert(lo.contains(x));
                        assert(s0.contains(x));
                    } else {
                        assert(ro[j - r_offset] == x);
                        assert(ro.contains(x));
                        assert(s1.contains(x));
                        assert(!s0.contains(x));
                    }
                }
                assert forall|j: int| b <= j < b + left.cardinality implies #[trigger] d(gl, j) <= d(
                    gr,
                    j,
                ) by {
                    let x = out@[j - b];
                    assert(lo[j - b] == x);
                    assert(lo.contains(x));
                }
                assert forall|j: int| r_offset <= j < b + n implies #[trigger] d(gr, j) <= d(gl, j) by {
                    let x = out@[j - b];
                    assert(ro[j - r_offset] == x);
                    assert(ro.contains(x));
                }
            }
            this.children = Some(
                Children {
                    left: Box::new(left),
                    right: Box::new(right),
                    arg_l: base + pl,
                    arg_r: r_offset + pr,
                    polar_distance,
                },
            );
            proof {
                lemma_laid_out_join(data, *criteria, this, idx, lo, ro, base as int, s0, s1, radial, arg_l, arg_r);
            }
            (this, out)
        } else {
            let out = indices;
            proof {
                assert(out@.contains(center));
                assert(out@.contains(radial));
            }
            let pc = pos_val(out.as_slice(), center).unwrap();
            let pd = pos_val(out.as_slice(), radial).unwrap();
            this.arg_center = base + pc;
            this.arg_radial = base + pd;
            proof {
                assert(same_elements(out@, idx));
                lemma_center_in_order(data, out@, idx, base as int, center, pc as int, this.radius as int);
                assert(out@.subrange(0, n as int) =~= idx);
            }
            (this, out)
        }
    }

    /// Partitions the `Cluster` into two children if the `Cluster` meets the
    /// given `PartitionCriteria`, and so on recursively until the criteria
    /// hold for none of the leaves. Then reorders the dataset so that the
    /// instances of every cluster lie together, and centers, radials and
    /// poles name positions in that order. The new order is the one that
    /// `laid_out` describes: each split hands its children the instances
    /// that go with their poles, in the order they had, each pole last.
    ///
    /// This method should only be called on a root `Cluster` made by
    /// `new_root` over all the instances.
    ///
    /// # Arguments
    ///
    /// * `data`: The dataset for the `Cluster`.
    /// * `criteria`: The `PartitionCriteria` to use for partitioning.
    ///
    /// # Returns
    ///
    /// * The `Cluster` on which the method was called after partitioning
    /// recursively until the `PartitionCriteria` is no longer met on any of the
    /// leaf `Cluster`s.
    pub fn partition(self, data: &mut VecDataset, criteria: &PartitionCriteria) -> (c: Cluster)
        requires
            old(data).wf(),
            self.is_fresh(&*old(data), identity_indices(old(data).size())),
            Cluster::is_built_from(&*old(data), self.seed, identity_indices(old(data).size()), self),
            self.history@.len() > 0,
            self.offset == 0,
        ensures
            final(data).wf(),
            final(data).size() == old(data).size(),
            final(data).spec_metric() == old(data).spec_metric(),
            final(data).spec_name() == old(data).spec_name(),
            exists|perm: Seq<usize>|
                {
                    &&& is_permutation_of_positions(perm, old(data).size())
                    &&& forall|i: int|
                        0 <= i < old(data).size() ==> #[trigger] final(data).instances()[i] == old(
                            data,
                        ).instances()[perm[i] as int]
                    &&& laid_out(&*old(data), c, identity_indices(old(data).size()), perm, 0)
                },
            c.history@ == self.history@,
            c.seed == self.seed,
            c.offset == 0,
            c.cardinality == old(data).size(),
            c.radius == self.radius,
            tree_ok(c, final(data).dist_fn(), *criteria),
    {
        let indices = vstd::slice::slice_to_vec(data.indices());
        let ghost n = data.size();
        let ghost before = *data;
        proof {
            assert forall|i: int, j: int| 0 <= i < j < n implies indices@[i] != indices@[j] by {}
        }
        let (c, order) = self._partition(&*data, criteria, indices);
        proof {
            assert forall|i: int| 0 <= i < n implies #[trigger] order@[i] < n by {
                assert(order@.contains(order@[i]));
                let q = choose|q: int| 0 <= q < n && indices@[q] == order@[i];
            }
            assert forall|i: int, j: int| 0 <= i < j < n implies order@[i] != order@[j] by {}
        }
        data.reorder(order.as_slice());
        proof {
            let d1 = order_dist(&before, order@, 0);
            let d2 = data.dist_fn();
            assert forall|i: int, j: int| 0 <= i < n && 0 <= j < n implies #[trigger] d2(i, j) == d1(i, j) by {
                assert(data.instances()[i] == before.instances()[order@[i] as int]);
                assert(data.instances()[j] == before.instances()[order@[j] as int]);
            }
            lemma_tree_ok_agree(c, d1, d2, *criteria);
            assert(is_permutation_of_positions(order@, before.size()));
            assert(forall|i: int| 0 <= i < before.size() ==> #[trigger] data.instances()[i] == before.instances()[order@[i] as int]);
            assert(indices@ == identity_indices(n));
            assert(laid_out(&before, c, identity_indices(before.size()), order@, 0));
        }
        c
    }

    /// The indices of the `Cluster`'s instances in the dataset: the positions
    /// `offset..offset + cardinality`.
    pub fn indices<'a>(&'a self, data: &'a VecDataset) -> (s: &'a [usize])
        requires
            data.wf(),
            self.offset + self.cardinality <= data.size(),
        ensures
            s@ == identity_indices(data.size()).subrange(
                self.offset as int,
                self.offset + self.cardinality,
            ),
    {
        let n = data.cardinality();
        vstd::slice::slice_subrange(data.indices(), self.offset, self.offset + self.cardinality)
    }
}

} // verus!
