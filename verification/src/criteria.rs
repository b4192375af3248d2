//! The criteria that decide whether a cluster is partitioned further.

use vstd::prelude::*;

use crate::cluster::Cluster;

verus! {

/// A rule that a cluster has to meet to be partitioned.
#[derive(Clone, Copy, Debug, PartialEq, Eq, Structural)]
pub enum PartitionCriterion {
    /// The cluster's depth is below this value.
    MaxDepth(usize),
    /// The cluster's cardinality is above this value.
    MinCardinality(usize),
}

/// Whether a cluster meets a criterion.
pub open spec fn criterion_holds(cr: PartitionCriterion, c: Cluster) -> bool {
    match cr {
        PartitionCriterion::MaxDepth(d) => c.spec_depth() < d,
        PartitionCriterion::MinCardinality(m) => c.cardinality > m,
    }
}

/// The criteria for partitioning clusters: a cluster is partitioned when it
/// is not a singleton and it meets all of the criteria (or, with `check_all`
/// off, any of them).
pub struct PartitionCriteria {
    /// Whether all criteria must hold; otherwise one suffices.
    pub check_all: bool,
    /// The criteria, in the order in which they were added.
    pub criteria: Vec<PartitionCriterion>,
}

impl PartitionCriteria {
    /// Whether the criteria let the cluster be partitioned.
    pub open spec fn spec_check(&self, c: Cluster) -> bool {
        &&& c.radius != 0
        &&& if self.check_all {
            forall|i: int| 0 <= i < self.criteria@.len() ==> criterion_holds(#[trigger] self.criteria@[i], c)
        } else {
            exists|i: int| 0 <= i < self.criteria@.len() && criterion_holds(#[trigger] self.criteria@[i], c)
        }
    }

    /// Criteria with no criterion yet.
    pub fn new(check_all: bool) -> (p: PartitionCriteria)
        ensures
            p.check_all == check_all,
            p.criteria@.len() == 0,
    {
        PartitionCriteria { check_all, criteria: Vec::new() }
    }

    /// Adds the criterion that the depth is below `threshold`.
    pub fn with_max_depth(self, threshold: usize) -> (p: PartitionCriteria)
        ensures
            p.check_all == self.check_all,
            p.criteria@ == self.criteria@.push(PartitionCriterion::MaxDepth(threshold)),
    {
        let mut p = self;
        p.criteria.push(PartitionCriterion::MaxDepth(threshold));
        p
    }

    /// Adds the criterion that the cardinality is above `threshold`.
    pub fn with_min_cardinality(self, threshold: usize) -> (p: PartitionCriteria)
        ensures
            p.check_all == self.check_all,
            p.criteria@ == self.criteria@.push(PartitionCriterion::MinCardinality(threshold)),
    {
        let mut p = self;
        p.criteria.push(PartitionCriterion::MinCardinality(threshold));
        p
    }

    /// Whether the cluster meets the criteria: it is not a singleton, and it
    /// meets all criteria (any criterion, with `check_all` off).
    pub fn check(&self, c: &Cluster) -> (b: bool)
        requires
            c.history@.len() > 0,
        ensures
            b == self.spec_check(*c),
    {
        if c.is_singleton() {
            return false;
        }
        let n = self.criteria.len();
        let mut i: usize = 0;
        while i < n
            invariant
                n == self.criteria@.len(),
                c.history@.len() > 0,
                c.radius != 0,
                i <= n,
                self.check_all ==> forall|j: int| 0 <= j < i ==> criterion_holds(#[trigger] self.criteria@[j], *c),
                !self.check_all ==> forall|j: int| 0 <= j < i ==> !criterion_holds(#[trigger] self.criteria@[j], *c),
            decreases n - i,
        {
            let cr = self.criteria[i];
            let holds = match cr {
                PartitionCriterion::MaxDepth(d) => c.depth() < d,
                PartitionCriterion::MinCardinality(m) => c.cardinality > m,
            };
            assert(cr == self.criteria@[i as int]);
            assert(holds == criterion_holds(cr, *c));
            if self.check_all && !holds {
                return false;
            }
            if !self.check_all && holds {
                assert(criterion_holds(self.criteria@[i as int], *c));
                return true;
            }
            i = i + 1;
        }
        self.check_all
    }
}

/// With the minimum cardinality `m` as the only criterion (whether all or
/// any must hold), a cluster may be partitioned exactly when it is not a
/// singleton and holds more than `m` instances.
pub proof fn lemma_min_cardinality_alone(cr: PartitionCriteria, m: usize, c: Cluster)
    requires
        cr.criteria@ == seq![PartitionCriterion::MinCardinality(m)],
    ensures
        cr.spec_check(c) <==> (c.radius != 0 && c.cardinality > m),
{
    assert(cr.criteria@[0] == PartitionCriterion::MinCardinality(m));
}

/// With the maximum depth `d` as the only criterion (whether all or any must
/// hold), a cluster may be partitioned exactly when it is not a singleton and
/// its depth is below `d`.
pub proof fn lemma_max_depth_alone(cr: PartitionCriteria, d: usize, c: Cluster)
    requires
        cr.criteria@ == seq![PartitionCriterion::MaxDepth(d)],
    ensures
        cr.spec_check(c) <==> (c.radius != 0 && c.history@.len() - 1 < d),
{
    assert(cr.criteria@[0] == PartitionCriterion::MaxDepth(d));
}

/// With both a maximum depth `d` and a minimum cardinality `m`, a cluster
/// may be partitioned, when it is not a singleton, exactly when its depth is
/// below `d` and it holds more than `m` instances, if all must hold; when
/// either does, if one suffices.
pub proof fn lemma_depth_and_cardinality(cr: PartitionCriteria, d: usize, m: usize, c: Cluster)
    requires
        cr.criteria@ == seq![PartitionCriterion::MaxDepth(d), PartitionCriterion::MinCardinality(m)],
    ensures
        cr.check_all ==> (cr.spec_check(c) <==> (c.radius != 0 && c.history@.len() - 1 < d
            && c.cardinality > m)),
        !cr.check_all ==> (cr.spec_check(c) <==> (c.radius != 0 && (c.history@.len() - 1 < d
            || c.cardinality > m))),
{
    assert(cr.criteria@[0] == PartitionCriterion::MaxDepth(d));
    assert(cr.criteria@[1] == PartitionCriterion::MinCardinality(m));
}

} // verus!
