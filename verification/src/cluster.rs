//! The `Cluster`: a node of the tree that divisive hierarchical clustering
//! builds over a dataset, and what can be read off it.

use vstd::prelude::*;

verus! {

/// A `Cluster` represents a collection of "similar" instances of a dataset.
///
/// The instances of a cluster are the `cardinality` instances from position
/// `offset` on in the dataset's order. Cluster names are unique within a tree.
#[derive(Debug)]
pub struct Cluster {
    /// The `Cluster`'s history in the tree: `true` for the root, then one
    /// bit per step down, `false` to the left child and `true` to the right.
    pub history: Vec<bool>,
    /// The seed used in the random number generator for this `Cluster`.
    pub seed: Option<u64>,
    /// The offset of the indices of the `Cluster`'s instances in the dataset.
    pub offset: usize,
    /// The number of instances in the `Cluster`.
    pub cardinality: usize,
    /// The index of the `center` instance in the dataset.
    pub arg_center: usize,
    /// The index of the `radial` instance in the dataset.
    pub arg_radial: usize,
    /// The distance from the `center` to the `radial` instance.
    pub radius: u32,
    /// The children of the `Cluster`.
    pub children: Option<Children>,
}

/// The children of a `Cluster`.
#[derive(Debug)]
pub struct Children {
    /// The left child of the `Cluster`.
    pub left: Box<Cluster>,
    /// The right child of the `Cluster`.
    pub right: Box<Cluster>,
    /// The left pole of the `Cluster` (i.e. the instance used to identify
    /// instances for the left child).
    pub arg_l: usize,
    /// The right pole of the `Cluster` (i.e. the instance used to identify
    /// instances for the right child).
    pub arg_r: usize,
    /// The distance from the left pole to the right pole.
    pub polar_distance: u32,
}

/// The depth of a cluster with the given history: one less than its length.
pub open spec fn history_depth(h: Seq<bool>) -> int {
    h.len() - 1
}

/// Whether history `a` names a strict ancestor of the cluster named by `b`:
/// `a` is a proper prefix of `b`.
pub open spec fn history_is_ancestor(a: Seq<bool>, b: Seq<bool>) -> bool {
    a.len() < b.len() && a == b.subrange(0, a.len() as int)
}

impl Cluster {
    /// The depth of the cluster in the tree.
    pub open spec fn spec_depth(&self) -> int {
        history_depth(self.history@)
    }

    /// The clusters of the subtree rooted here, in pre-order: the cluster
    /// itself, then its left subtree, then its right subtree.
    pub open spec fn spec_subtree(self) -> Seq<Cluster>
        decreases self,
    {
        match self.children {
            None => seq![self],
            Some(ch) => seq![self] + (*ch.left).spec_subtree() + (*ch.right).spec_subtree(),
        }
    }

    /// Whether every cluster of the subtree has a non-empty history.
    pub open spec fn histories_nonempty(self) -> bool
        decreases self,
    {
        &&& self.history@.len() > 0
        &&& match self.children {
            None => true,
            Some(ch) => (*ch.left).histories_nonempty() && (*ch.right).histories_nonempty(),
        }
    }

    /// The greatest depth of a cluster of the subtree.
    pub open spec fn spec_max_depth(self) -> int
        decreases self,
    {
        match self.children {
            None => self.spec_depth(),
            Some(ch) => {
                let l = (*ch.left).spec_max_depth();
                let r = (*ch.right).spec_max_depth();
                let m = if l < r {
                    r
                } else {
                    l
                };
                if m < self.spec_depth() {
                    self.spec_depth()
                } else {
                    m
                }
            },
        }
    }

    /// The `history` of the `Cluster` as a bool slice.
    ///
    /// The root `Cluster` has a `history` of length 1, being `vec![true]`. The
    /// history of a left child is the history of its parent with a `false`
    /// appended. The history of a right child is the history of its parent with
    /// a `true` appended.
    pub fn history(&self) -> (h: &[bool])
        ensures
            h@ == self.history@,
    {
        self.history.as_slice()
    }

    /// Whether the `Cluster` is the root of the tree.
    ///
    /// The root `Cluster` has a depth of 0.
    pub fn is_root(&self) -> (b: bool)
        requires
            self.history@.len() > 0,
        ensures
            b == (self.spec_depth() == 0),
    {
        self.depth() == 0
    }

    /// The depth of the `Cluster` in the tree.
    ///
    /// The root `Cluster` has a depth of 0. The depth of a child is the depth
    /// of its parent plus 1.
    pub fn depth(&self) -> (d: usize)
        requires
            self.history@.len() > 0,
        ensures
            d == self.spec_depth(),
    {
        self.history.len() - 1
    }

    /// Whether the `Cluster` contains only one instance or only identical
    /// instances.
    pub fn is_singleton(&self) -> (b: bool)
        ensures
            b == (self.radius == 0),
    {
        self.radius == 0
    }

    /// Whether this cluster has no children.
    pub fn is_leaf(&self) -> (b: bool)
        ensures
            b == (self.children is None),
    {
        self.children.is_none()
    }

    /// A 2-slice of references to the left and right child `Cluster`s.
    pub fn children(&self) -> (c: Option<[&Cluster; 2]>)
        ensures
            match self.children {
                None => c is None,
                Some(ch) => c matches Some(pair) && *pair[0] == *ch.left && *pair[1] == *ch.right,
            },
            c is None <==> self.children is None,
    {
        match &self.children {
            None => None,
            Some(ch) => Some([&*ch.left, &*ch.right]),
        }
    }

    /// The distance between the poles of the `Cluster`.
    pub fn polar_distance(&self) -> (p: Option<u32>)
        ensures
            match self.children {
                None => p is None,
                Some(ch) => p == Some(ch.polar_distance),
            },
            p is None <==> self.children is None,
    {
        match &self.children {
            None => None,
            Some(ch) => Some(ch.polar_distance),
        }
    }

    /// Whether this `Cluster` is an ancestor of the `other` `Cluster`.
    pub fn is_ancestor_of(&self, other: &Self) -> (b: bool)
        requires
            self.history@.len() > 0,
            other.history@.len() > 0,
        ensures
            b == history_is_ancestor(self.history@, other.history@),
    {
        if self.depth() < other.depth() {
            let n = self.history.len();
            let mut i: usize = 0;
            while i < n
                invariant
                    n == self.history@.len(),
                    n < other.history@.len(),
                    i <= n,
                    forall|j: int| 0 <= j < i ==> self.history@[j] == other.history@[j],
                decreases n - i,
            {
                if self.history[i] != other.history[i] {
                    assert(self.history@ != other.history@.subrange(0, n as int)) by {
                        assert(other.history@.subrange(0, n as int)[i as int] == other.history@[i as int]);
                    }
                    return false;
                }
                i = i + 1;
            }
            assert(self.history@ =~= other.history@.subrange(0, n as int));
            true
        } else {
            false
        }
    }

    /// Whether this `Cluster` is an descendant of the `other` `Cluster`.
    pub fn is_descendant_of(&self, other: &Self) -> (b: bool)
        requires
            self.history@.len() > 0,
            other.history@.len() > 0,
        ensures
            b == history_is_ancestor(other.history@, self.history@),
    {
        other.is_ancestor_of(self)
    }

    /// The `history` of the child `Cluster`.
    ///
    /// # Arguments
    ///
    /// * `right`: Whether the child `Cluster` is the right child.
    pub fn child_history(&self, right: bool) -> (h: Vec<bool>)
        ensures
            h@ == self.history@.push(right),
    {
        let mut history = self.history.clone();
        history.push(right);
        history
    }

    /// A Vec of references to all `Cluster`s in the subtree of this `Cluster`,
    /// including this `Cluster`, in pre-order.
    pub fn subtree(&self) -> (s: Vec<&Cluster>)
        ensures
            s@.len() == self.spec_subtree().len(),
            forall|i: int| 0 <= i < s@.len() ==> *s@[i] == self.spec_subtree()[i],
        decreases self,
    {
        let mut subtree: Vec<&Cluster> = Vec::new();
        subtree.push(self);
        match &self.children {
            None => {
                assert(self.spec_subtree() == seq![*self]);
            },
            Some(ch) => {
                let left = (&*ch.left).subtree();
                let right = (&*ch.right).subtree();
                let ghost ls = (*ch.left).spec_subtree();
                let ghost rs = (*ch.right).spec_subtree();
                let mut i: usize = 0;
                while i < left.len()
                    invariant
                        subtree@.len() == 1 + i,
                        *subtree@[0] == *self,
                        i <= left@.len(),
                        left@.len() == ls.len(),
                        forall|k: int| 0 <= k < left@.len() ==> *left@[k] == ls[k],
                        forall|k: int| 1 <= k < 1 + i ==> *subtree@[k] == ls[k - 1],
                    decreases left@.len() - i,
                {
                    subtree.push(left[i]);
                    i = i + 1;
                }
                let mut j: usize = 0;
                while j < right.len()
                    invariant
                        subtree@.len() == 1 + ls.len() + j,
                        *subtree@[0] == *self,
                        j <= right@.len(),
                        right@.len() == rs.len(),
                        forall|k: int| 0 <= k < right@.len() ==> *right@[k] == rs[k],
                        forall|k: int| 1 <= k < 1 + ls.len() ==> *subtree@[k] == ls[k - 1],
                        forall|k: int|
                            1 + ls.len() <= k < 1 + ls.len() + j ==> *subtree@[k] == rs[k - 1
                                - ls.len()],
                    decreases right@.len() - j,
                {
                    subtree.push(right[j]);
                    j = j + 1;
                }
                assert(self.spec_subtree() == seq![*self] + ls + rs);
            },
        }
        subtree
    }

    /// The maximum depth of any cluster in the subtree of this `Cluster`.
    pub fn max_leaf_depth(&self) -> (d: usize)
        requires
            self.histories_nonempty(),
        ensures
            d == self.spec_max_depth(),
        decreases self,
    {
        let d = self.depth();
        match &self.children {
            None => d,
            Some(ch) => {
                let l = (&*ch.left).max_leaf_depth();
                let r = (&*ch.right).max_leaf_depth();
                let m = if l < r {
                    r
                } else {
                    l
                };
                if m < d {
                    d
                } else {
                    m
                }
            },
        }
    }
}

/// Nothing is its own ancestor.
pub proof fn lemma_ancestor_irreflexive(a: Seq<bool>)
    ensures
        !history_is_ancestor(a, a),
{
}

/// An ancestor of an ancestor is an ancestor.
pub proof fn lemma_ancestor_transitive(a: Seq<bool>, b: Seq<bool>, c: Seq<bool>)
    requires
        history_is_ancestor(a, b),
        history_is_ancestor(b, c),
    ensures
        history_is_ancestor(a, c),
{
    assert(a =~= c.subrange(0, a.len() as int)) by {
        assert forall|i: int| 0 <= i < a.len() implies a[i] == c[i] by {
            assert(a[i] == b[i]);
            assert(b[i] == c[i]);
        }
    }
}

/// Two clusters are never each other's ancestor.
pub proof fn lemma_ancestor_asymmetric(a: Seq<bool>, b: Seq<bool>)
    ensures
        !(history_is_ancestor(a, b) && history_is_ancestor(b, a)),
{
}

/// A parent is an ancestor of both of its children, and the depth of a child
/// is the depth of its parent plus one.
pub proof fn lemma_child_history(h: Seq<bool>, right: bool)
    ensures
        history_is_ancestor(h, h.push(right)),
        history_depth(h.push(right)) == history_depth(h) + 1,
{
    assert(h =~= h.push(right).subrange(0, h.len() as int));
}

/// An ancestor of a cluster is an ancestor of its children too.
pub proof fn lemma_ancestor_of_child(a: Seq<bool>, h: Seq<bool>, right: bool)
    requires
        history_is_ancestor(a, h),
    ensures
        history_is_ancestor(a, h.push(right)),
{
    lemma_child_history(h, right);
    lemma_ancestor_transitive(a, h, h.push(right));
}

} // verus!
