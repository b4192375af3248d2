//! Distances from a cluster's center, and the children of a cluster that a
//! query ball may overlap.

use vstd::prelude::*;

use crate::cluster::Cluster;
use crate::criteria::PartitionCriteria;
use crate::dataset::{
    lemma_distance_nonnegative,
    lemma_distance_symmetric,
    lemma_distance_to_self,
    lemma_distance_triangle,
    metric_distance,
    metric_fits,
    VecDataset,
};
use crate::partition::node_ok;

verus! {

/// Whether a query ball of `radius` whose distances to the left and right
/// poles are `ql` and `qr`, in a cluster whose poles are `polar` apart, is
/// taken to overlap both children: with `hi` the larger distance and `lo`
/// the smaller, `(hi + lo) * (hi - lo) <= 2 * polar * radius`.
pub open spec fn overlaps_both(ql: int, qr: int, polar: int, radius: int) -> bool {
    let hi = if ql < qr {
        qr
    } else {
        ql
    };
    let lo = if ql < qr {
        ql
    } else {
        qr
    };
    (hi + lo) * (hi - lo) <= 2 * polar * radius
}

/// Whether some instance at a position `lo..hi` lies within `radius` of the
/// query.
pub open spec fn ball_meets(data: &VecDataset, query: Seq<u32>, radius: int, lo: int, hi: int) -> bool {
    exists|j: int|
        lo <= j < hi && #[trigger] metric_distance(data.spec_metric(), query, data.instances()[j])
            <= radius
}

/// Whether the split of `c` puts each instance with the nearer pole, as
/// partitioning does: the children's runs of positions lie within the
/// cluster's, each pole lies in its child's run, and every instance of a
/// child is no farther from that child's pole than from the other pole. A
/// leaf has no split to check.
pub open spec fn split_by_poles(c: Cluster, d: spec_fn(int, int) -> int) -> bool {
    c.children matches Some(ch) ==> {
        let l = *ch.left;
        let r = *ch.right;
        &&& c.offset <= l.offset
        &&& l.offset + l.cardinality <= c.offset + c.cardinality
        &&& c.offset <= r.offset
        &&& r.offset + r.cardinality <= c.offset + c.cardinality
        &&& l.offset <= ch.arg_l < l.offset + l.cardinality
        &&& r.offset <= ch.arg_r < r.offset + r.cardinality
        &&& forall|j: int|
            l.offset <= j < l.offset + l.cardinality ==> #[trigger] d(ch.arg_l as int, j) <= d(
                ch.arg_r as int,
                j,
            )
        &&& forall|j: int|
            r.offset <= j < r.offset + r.cardinality ==> #[trigger] d(ch.arg_r as int, j) <= d(
                ch.arg_l as int,
                j,
            )
    }
}

/// Whether the instances at positions `lo..hi` all have the query's length.
pub open spec fn lengths_match(data: &VecDataset, query: Seq<u32>, lo: int, hi: int) -> bool {
    forall|i: int| lo <= i < hi ==> (#[trigger] data.instances()[i]).len() == query.len()
}

impl Cluster {
    /// Distance from the `center` to the given instance.
    pub fn distance_to_instance(&self, data: &VecDataset, instance: &[u32]) -> (d: u32)
        requires
            self.arg_center < data.size(),
            metric_fits(data.spec_metric(), instance@, data.instances()[self.arg_center as int]),
        ensures
            d == metric_distance(
                data.spec_metric(),
                instance@,
                data.instances()[self.arg_center as int],
            ),
    {
        data.query_to_one(instance, self.arg_center)
    }

    /// Distance from the `center` of this `Cluster` to the center of the
    /// `other` `Cluster`.
    pub fn distance_to_other(&self, data: &VecDataset, other: &Self) -> (d: u32)
        requires
            data.wf(),
            self.arg_center < data.size(),
            other.arg_center < data.size(),
        ensures
            d == data.dist(self.arg_center as int, other.arg_center as int),
    {
        data.one_to_one(self.arg_center, other.arg_center)
    }

    /// Assuming that this `Cluster` overlaps with the query ball of `radius`
    /// around `query`, returns the children that may overlap with it: none
    /// for a leaf; both when `overlaps_both` holds of the query's distances to
    /// the two poles, the polar distance and the radius; otherwise only the
    /// child of the nearer pole (the right one when the distances are equal).
    /// The products are taken in `u128`, where they cannot overflow.
    pub fn overlapping_children(&self, data: &VecDataset, query: &[u32], radius: u32) -> (v: Vec<
        &Cluster,
    >)
        requires
            self.children matches Some(ch) ==> {
                &&& ch.arg_l < data.size()
                &&& ch.arg_r < data.size()
                &&& metric_fits(data.spec_metric(), query@, data.instances()[ch.arg_l as int])
                &&& metric_fits(data.spec_metric(), query@, data.instances()[ch.arg_r as int])
            },
        ensures
            match self.children {
                None => v@.len() == 0,
                Some(ch) => {
                    let ql = metric_distance(
                        data.spec_metric(),
                        query@,
                        data.instances()[ch.arg_l as int],
                    );
                    let qr = metric_distance(
                        data.spec_metric(),
                        query@,
                        data.instances()[ch.arg_r as int],
                    );
                    if overlaps_both(ql, qr, ch.polar_distance as int, radius as int) {
                        v@.len() == 2 && *v@[0] == *ch.left && *v@[1] == *ch.right
                    } else if ql < qr {
                        v@.len() == 1 && *v@[0] == *ch.left
                    } else {
                        v@.len() == 1 && *v@[0] == *ch.right
                    }
                },
            },
            v@.len() == 0 <==> self.children is None,
    {
        match &self.children {
            None => Vec::new(),
            Some(ch) => {
                let ql = data.query_to_one(query, ch.arg_l);
                let qr = data.query_to_one(query, ch.arg_r);
                let swap = ql < qr;
                let hi: u32 = if swap {
                    qr
                } else {
                    ql
                };
                let lo: u32 = if swap {
                    ql
                } else {
                    qr
                };
                let sum: u128 = hi as u128 + lo as u128;
                let gap: u128 = (hi - lo) as u128;
                assert(sum * gap < 0x1_0000_0000_0000_0000_0000_0000_0000_0000) by (nonlinear_arith)
                    requires
                        sum < 0x2_0000_0000,
                        gap < 0x1_0000_0000,
                ;
                let lhs: u128 = sum * gap;
                let twice_polar: u128 = 2 * (ch.polar_distance as u128);
                let r: u128 = radius as u128;
                assert(twice_polar * r < 0x1_0000_0000_0000_0000_0000_0000_0000_0000) by (nonlinear_arith)
                    requires
                        twice_polar < 0x2_0000_0000,
                        r < 0x1_0000_0000,
                ;
                let rhs: u128 = twice_polar * r;
                let mut v: Vec<&Cluster> = Vec::new();
                if lhs <= rhs {
                    v.push(&*ch.left);
                    v.push(&*ch.right);
                } else if swap {
                    v.push(&*ch.left);
                } else {
                    v.push(&*ch.right);
                }
                v
            },
        }
    }
}

/// A child that holds an instance within `radius` of the query either has
/// the nearer pole or a pole at most twice the radius farther from the query
/// than the other pole: in a cluster that splits its instances by their
/// poles (as every cluster of a partitioned tree does, see
/// `lemma_partitioned_splits_by_poles`), over instances of the query's
/// length. So `overlapping_children`, which always returns the child of the
/// nearer pole, can leave out a child within reach only when the two pole
/// distances differ by at most twice the radius.
pub proof fn lemma_child_in_reach_pole_gap(
    c: Cluster,
    data: &VecDataset,
    query: Seq<u32>,
    radius: int,
)
    requires
        split_by_poles(c, data.dist_fn()),
        c.offset + c.cardinality <= data.size(),
        lengths_match(data, query, c.offset as int, c.offset + c.cardinality),
    ensures
        c.children matches Some(ch) ==> {
            let ql = metric_distance(data.spec_metric(), query, data.instances()[ch.arg_l as int]);
            let qr = metric_distance(data.spec_metric(), query, data.instances()[ch.arg_r as int]);
            &&& ball_meets(
                data,
                query,
                radius,
                ch.left.offset as int,
                ch.left.offset + ch.left.cardinality,
            ) ==> ql < qr || ql - qr <= 2 * radius
            &&& ball_meets(
                data,
                query,
                radius,
                ch.right.offset as int,
                ch.right.offset + ch.right.cardinality,
            ) ==> !(ql < qr) || qr - ql <= 2 * radius
        },
{
    match c.children {
        None => {},
        Some(ch) => {
            let m = data.spec_metric();
            let inst = data.instances();
            let d = data.dist_fn();
            let pl = inst[ch.arg_l as int];
            let pr = inst[ch.arg_r as int];
            assert(pl.len() == query.len());
            assert(pr.len() == query.len());
            let ql = metric_distance(m, query, pl);
            let qr = metric_distance(m, query, pr);
            let l = *ch.left;
            let r = *ch.right;
            if ball_meets(data, query, radius, l.offset as int, l.offset + l.cardinality) {
                let j = choose|j: int|
                    l.offset <= j < l.offset + l.cardinality && #[trigger] metric_distance(
                        m,
                        query,
                        inst[j],
                    ) <= radius;
                let x = inst[j];
                assert(d(ch.arg_l as int, j) <= d(ch.arg_r as int, j));
                // ql <= d(q, x) + d(x, pl) <= r + d(pr, x) <= r + d(pr, q) + d(q, x) <= qr + 2r
                lemma_distance_triangle(m, query, x, pl);
                lemma_distance_symmetric(m, x, pl);
                lemma_distance_triangle(m, pr, query, x);
                lemma_distance_symmetric(m, pr, query);
            }
            if ball_meets(data, query, radius, r.offset as int, r.offset + r.cardinality) {
                let j = choose|j: int|
                    r.offset <= j < r.offset + r.cardinality && #[trigger] metric_distance(
                        m,
                        query,
                        inst[j],
                    ) <= radius;
                let x = inst[j];
                assert(d(ch.arg_r as int, j) <= d(ch.arg_l as int, j));
                lemma_distance_triangle(m, query, x, pr);
                lemma_distance_symmetric(m, x, pr);
                lemma_distance_triangle(m, pl, query, x);
                lemma_distance_symmetric(m, pl, query);
            }
        },
    }
}

/// The distance between the centers of two clusters (what
/// `distance_to_other` returns) does not depend on which comes first, and a
/// cluster is at distance zero from itself.
pub proof fn lemma_distance_between_centers(data: &VecDataset, a: Cluster, b: Cluster)
    ensures
        data.dist(a.arg_center as int, b.arg_center as int) == data.dist(
            b.arg_center as int,
            a.arg_center as int,
        ),
        data.dist(a.arg_center as int, a.arg_center as int) == 0,
{
    let inst = data.instances();
    lemma_distance_symmetric(data.spec_metric(), inst[a.arg_center as int], inst[b.arg_center as int]);
    lemma_distance_to_self(data.spec_metric(), inst[a.arg_center as int]);
}

/// The test of `overlapping_children` in closed form: for pole distances
/// `ql` and `qr` (never negative), both children are taken exactly when the
/// squares of the two distances differ by at most twice the product of the
/// polar distance and the radius.
pub proof fn lemma_overlaps_both_squares(ql: int, qr: int, polar: int, radius: int)
    requires
        0 <= ql,
        0 <= qr,
    ensures
        overlaps_both(ql, qr, polar, radius) <==> (ql * ql - qr * qr <= 2 * polar * radius && qr * qr
            - ql * ql <= 2 * polar * radius),
{
    assert((ql + qr) * (ql - qr) == ql * ql - qr * qr) by (nonlinear_arith);
    assert((qr + ql) * (qr - ql) == qr * qr - ql * ql) by (nonlinear_arith);
    if ql < qr {
        assert(ql * ql <= qr * qr) by (nonlinear_arith)
            requires
                0 <= ql <= qr,
        ;
    } else {
        assert(qr * qr <= ql * ql) by (nonlinear_arith)
            requires
                0 <= qr <= ql,
        ;
    }
}

/// A query ball whose radius is at least the mean of its distances to the
/// two poles is taken to overlap both children of a split cluster whose
/// polar distance is the distance between its poles, over instances of the
/// query's length: in particular a ball that holds both poles.
pub proof fn lemma_wide_ball_overlaps_both(c: Cluster, data: &VecDataset, query: Seq<u32>, radius: int)
    requires
        c.children matches Some(ch) && {
            &&& ch.arg_l < data.size()
            &&& ch.arg_r < data.size()
            &&& ch.polar_distance == data.dist(ch.arg_l as int, ch.arg_r as int)
            &&& data.instances()[ch.arg_l as int].len() == query.len()
            &&& data.instances()[ch.arg_r as int].len() == query.len()
            &&& metric_distance(data.spec_metric(), query, data.instances()[ch.arg_l as int])
                + metric_distance(data.spec_metric(), query, data.instances()[ch.arg_r as int])
                <= 2 * radius
        },
    ensures
        c.children matches Some(ch) && overlaps_both(
            metric_distance(data.spec_metric(), query, data.instances()[ch.arg_l as int]),
            metric_distance(data.spec_metric(), query, data.instances()[ch.arg_r as int]),
            ch.polar_distance as int,
            radius,
        ),
{
    let ch = c.children->0;
    let m = data.spec_metric();
    let pl = data.instances()[ch.arg_l as int];
    let pr = data.instances()[ch.arg_r as int];
    let ql = metric_distance(m, query, pl);
    let qr = metric_distance(m, query, pr);
    let polar = ch.polar_distance as int;
    lemma_distance_triangle(m, query, pr, pl);
    lemma_distance_triangle(m, query, pl, pr);
    lemma_distance_symmetric(m, pr, pl);
    lemma_distance_nonnegative(m, query, pl);
    lemma_distance_nonnegative(m, query, pr);
    let hi = if ql < qr {
        qr
    } else {
        ql
    };
    let lo = if ql < qr {
        ql
    } else {
        qr
    };
    assert((hi + lo) * (hi - lo) <= 2 * polar * radius) by (nonlinear_arith)
        requires
            0 <= lo <= hi,
            hi - lo <= polar,
            hi + lo <= 2 * radius,
    ;
}

/// Every cluster of a partitioned tree (one that meets `node_ok`) splits its
/// instances by their poles, within its own run of positions.
pub proof fn lemma_partitioned_splits_by_poles(c: Cluster, d: spec_fn(int, int) -> int, cr: PartitionCriteria)
    requires
        node_ok(c, d, cr),
    ensures
        split_by_poles(c, d),
{
}

} // verus!
