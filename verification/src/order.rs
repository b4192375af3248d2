//! How clusters compare: equal when their histories are equal, and ordered
//! by depth, then by offset.

use vstd::prelude::*;
use core::cmp::Ordering;
use core::hash::{Hash, Hasher};
use vstd::std_specs::cmp::{PartialEqSpec, PartialEqSpecImpl, PartialOrdSpecImpl};

use crate::cluster::Cluster;
use crate::criteria::PartitionCriteria;
use crate::partition::{
    lemma_subtree_depth_offset_distinct,
    lemma_subtree_histories_distinct,
    lemma_subtree_ranges,
    lemma_subtree_same_depth_disjoint,
    tree_ok,
};

verus! {

/// The ordering of two integers.
pub open spec fn int_order(a: int, b: int) -> Ordering {
    if a < b {
        Ordering::Less
    } else if a == b {
        Ordering::Equal
    } else {
        Ordering::Greater
    }
}

/// The ordering of two machine integers.
pub open spec fn usize_order(a: usize, b: usize) -> Ordering {
    if a < b {
        Ordering::Less
    } else if a == b {
        Ordering::Equal
    } else {
        Ordering::Greater
    }
}

/// The ordering of two clusters: by depth, and by offset at equal depth.
pub open spec fn cluster_order(a: Cluster, b: Cluster) -> Ordering {
    if a.spec_depth() == b.spec_depth() {
        usize_order(a.offset, b.offset)
    } else {
        int_order(a.spec_depth(), b.spec_depth())
    }
}

/// The ordering with its sides swapped.
pub open spec fn reversed(o: Ordering) -> Ordering {
    match o {
        Ordering::Less => Ordering::Greater,
        Ordering::Equal => Ordering::Equal,
        Ordering::Greater => Ordering::Less,
    }
}

fn order_usize(a: usize, b: usize) -> (o: Ordering)
    ensures
        o == usize_order(a, b),
{
    if a < b {
        Ordering::Less
    } else if a == b {
        Ordering::Equal
    } else {
        Ordering::Greater
    }
}

impl PartialEq for Cluster {
    /// Two clusters are equal when their histories are equal.
    fn eq(&self, other: &Self) -> (r: bool) {
        let n = self.history.len();
        if n != other.history.len() {
            return false;
        }
        let mut i: usize = 0;
        while i < n
            invariant
                n == self.history@.len(),
                n == other.history@.len(),
                i <= n,
                forall|j: int| 0 <= j < i ==> self.history@[j] == other.history@[j],
            decreases n - i,
        {
            if self.history[i] != other.history[i] {
                return false;
            }
            i = i + 1;
        }
        assert(self.history@ =~= other.history@);
        true
    }
}

impl PartialEqSpecImpl for Cluster {
    open spec fn obeys_eq_spec() -> bool {
        true
    }

    open spec fn eq_spec(&self, other: &Cluster) -> bool {
        self.history@ == other.history@
    }
}

impl Eq for Cluster {

}

impl Hash for Cluster {
    /// Hashes the cluster's offset and cardinality, as a pair.
    #[verifier::external_body]
    fn hash<H: Hasher>(&self, state: &mut H) {
        (self.offset, self.cardinality).hash(state);
    }
}

impl PartialOrd for Cluster {
    /// Compares two clusters by depth, and by offset when their depths are
    /// equal.
    fn partial_cmp(&self, other: &Self) -> (o: Option<Ordering>) {
        Some(self.cmp(other))
    }
}

impl PartialOrdSpecImpl for Cluster {
    open spec fn obeys_partial_cmp_spec() -> bool {
        true
    }

    open spec fn partial_cmp_spec(&self, other: &Cluster) -> Option<Ordering> {
        Some(cluster_order(*self, *other))
    }
}

impl Cluster {
    /// Compares two clusters by depth, and by offset when their depths are
    /// equal. Depths are compared through the lengths of the histories, which
    /// are one more than the depths.
    pub fn cmp(&self, other: &Self) -> (o: Ordering)
        ensures
            o == cluster_order(*self, *other),
    {
        let a = self.history.len();
        let b = other.history.len();
        if a == b {
            order_usize(self.offset, other.offset)
        } else {
            order_usize(a, b)
        }
    }
}

/// Comparing the other way round gives the reversed ordering.
pub proof fn lemma_order_antisymmetric(a: Cluster, b: Cluster)
    ensures
        cluster_order(b, a) == reversed(cluster_order(a, b)),
{
}

/// Two clusters compare as equal exactly when they have the same depth and
/// the same offset.
pub proof fn lemma_order_equal(a: Cluster, b: Cluster)
    ensures
        (cluster_order(a, b) == Ordering::Equal) <==> (a.spec_depth() == b.spec_depth() && a.offset
            == b.offset),
{
}

/// The ordering is transitive.
pub proof fn lemma_order_transitive(a: Cluster, b: Cluster, c: Cluster, o: Ordering)
    requires
        cluster_order(a, b) == o,
        cluster_order(b, c) == o,
    ensures
        cluster_order(a, c) == o,
{
}

/// A cluster is shallower than every cluster of which it is a strict ancestor.
pub proof fn lemma_ancestor_orders_first(a: Cluster, b: Cluster)
    requires
        crate::cluster::history_is_ancestor(a.history@, b.history@),
    ensures
        cluster_order(a, b) == Ordering::Less,
{
}

/// Within a tree that meets `tree_ok`, equality and ordering agree: two
/// different clusters of the subtree are neither equal (their histories
/// differ) nor ordered as equal (their depths or their offsets differ).
pub proof fn lemma_tree_order_agrees_with_equality(
    c: Cluster,
    d: spec_fn(int, int) -> int,
    cr: PartitionCriteria,
)
    requires
        tree_ok(c, d, cr),
    ensures
        forall|i: int, j: int|
            0 <= i < j < c.spec_subtree().len() ==> cluster_order(
                #[trigger] c.spec_subtree()[i],
                #[trigger] c.spec_subtree()[j],
            ) != Ordering::Equal && c.spec_subtree()[i].history@ != c.spec_subtree()[j].history@,
{
    lemma_subtree_depth_offset_distinct(c, d, cr);
    lemma_subtree_histories_distinct(c, d, cr);
}

/// Within a tree that meets `tree_ok`, sorting by this ordering lists the
/// clusters level by level, and each level from left to right: of two
/// different clusters, one comes first exactly when it is shallower, or at
/// the same depth covers a run of instances that ends before the other's
/// begins.
pub proof fn lemma_tree_order_level_by_level(c: Cluster, d: spec_fn(int, int) -> int, cr: PartitionCriteria)
    requires
        tree_ok(c, d, cr),
    ensures
        forall|i: int, j: int|
            0 <= i < c.spec_subtree().len() && 0 <= j < c.spec_subtree().len() && i != j ==> (
            cluster_order(#[trigger] c.spec_subtree()[i], #[trigger] c.spec_subtree()[j])
                == Ordering::Less <==> (c.spec_subtree()[i].spec_depth()
                < c.spec_subtree()[j].spec_depth() || (c.spec_subtree()[i].spec_depth()
                == c.spec_subtree()[j].spec_depth() && c.spec_subtree()[i].offset
                + c.spec_subtree()[i].cardinality <= c.spec_subtree()[j].offset))),
{
    lemma_subtree_same_depth_disjoint(c, d, cr);
    lemma_subtree_ranges(c, d, cr);
    let t = c.spec_subtree();
    assert forall|i: int, j: int| 0 <= i < t.len() && 0 <= j < t.len() && i != j implies (
    cluster_order(#[trigger] t[i], #[trigger] t[j]) == Ordering::Less <==> (t[i].spec_depth()
        < t[j].spec_depth() || (t[i].spec_depth() == t[j].spec_depth() && t[i].offset
        + t[i].cardinality <= t[j].offset))) by {
        assert(t[i].cardinality >= 1 && t[j].cardinality >= 1);
    }
}

/// What the ordering says in terms of the fields: a cluster comes first when
/// its history is shorter, or equally long with a smaller offset; it comes
/// last in the opposite case; otherwise the two compare as equal.
pub proof fn lemma_order_by_fields(a: Cluster, b: Cluster)
    ensures
        (cluster_order(a, b) == Ordering::Less) <==> (a.history@.len() < b.history@.len() || (
        a.history@.len() == b.history@.len() && a.offset < b.offset)),
        (cluster_order(a, b) == Ordering::Greater) <==> (b.history@.len() < a.history@.len() || (
        a.history@.len() == b.history@.len() && b.offset < a.offset)),
        (cluster_order(a, b) == Ordering::Equal) <==> (a.history@.len() == b.history@.len()
            && a.offset == b.offset),
{
}

/// Two clusters are `==` exactly when their histories are the same sequence
/// of bits: same length, and equal at every position.
pub proof fn lemma_eq_is_history_equality(a: Cluster, b: Cluster)
    ensures
        PartialEqSpec::eq_spec(&a, &b) <==> (a.history@.len() == b.history@.len() && forall|i: int|
            0 <= i < a.history@.len() ==> a.history@[i] == b.history@[i]),
        PartialEqSpec::eq_spec(&a, &a),
        PartialEqSpec::eq_spec(&a, &b) == PartialEqSpec::eq_spec(&b, &a),
{
    if a.history@.len() == b.history@.len() && forall|i: int|
        0 <= i < a.history@.len() ==> a.history@[i] == b.history@[i] {
        assert(a.history@ =~= b.history@);
    }
}

/// Two clusters at different places of a tree that meets `tree_ok` are never
/// `==`; a cluster is `==` to itself.
pub proof fn lemma_tree_clusters_never_equal(c: Cluster, d: spec_fn(int, int) -> int, cr: PartitionCriteria)
    requires
        tree_ok(c, d, cr),
    ensures
        forall|i: int, j: int|
            0 <= i < c.spec_subtree().len() && 0 <= j < c.spec_subtree().len() ==> ((
            PartialEqSpec::eq_spec(&#[trigger] c.spec_subtree()[i], &#[trigger] c.spec_subtree()[j])
                <==> i == j)),
{
    lemma_subtree_histories_distinct(c, d, cr);
    let t = c.spec_subtree();
    assert forall|i: int, j: int| 0 <= i < t.len() && 0 <= j < t.len() implies (PartialEqSpec::eq_spec(
        &#[trigger] t[i],
        &#[trigger] t[j],
    ) <==> i == j) by {
        if i < j {
            assert(t[i].history@ != t[j].history@);
        } else if j < i {
            assert(t[j].history@ != t[i].history@);
        }
    }
}

} // verus!
