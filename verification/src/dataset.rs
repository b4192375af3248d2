//! A dataset of integer vectors under a distance function of the
//! `distances` crate, and the distance queries that clustering makes of it.

use vstd::prelude::*;
use vstd::multiset::Multiset;
use rand::SeedableRng;
use rand::seq::SliceRandom;

verus! {

/// The distance functions of the `distances` crate that a dataset can use.
#[derive(Clone, Copy, Debug, PartialEq, Eq, Structural)]
pub enum Metric {
    /// The sum of the absolute differences of the coordinates
    /// (`distances::vectors::manhattan`).
    Manhattan,
    /// The greatest absolute difference of the coordinates
    /// (`distances::vectors::chebyshev`).
    Chebyshev,
}

/// The absolute difference of two coordinates.
pub open spec fn abs_diff(a: u32, b: u32) -> int {
    if a >= b {
        a - b
    } else {
        b - a
    }
}

/// The sum of the absolute differences of the coordinates that both vectors
/// have (the longer vector's extra coordinates are ignored).
pub open spec fn manhattan_sum(x: Seq<u32>, y: Seq<u32>) -> int
    decreases x.len(),
{
    if x.len() == 0 || y.len() == 0 {
        0
    } else {
        abs_diff(x[0], y[0]) + manhattan_sum(x.drop_first(), y.drop_first())
    }
}

/// The greatest absolute difference of the coordinates that both vectors
/// have, or zero when one of them is empty.
pub open spec fn chebyshev_max(x: Seq<u32>, y: Seq<u32>) -> int
    decreases x.len(),
{
    if x.len() == 0 || y.len() == 0 {
        0
    } else {
        let rest = chebyshev_max(x.drop_first(), y.drop_first());
        if abs_diff(x[0], y[0]) < rest {
            rest
        } else {
            abs_diff(x[0], y[0])
        }
    }
}

/// The distance between two vectors under a metric.
pub open spec fn metric_distance(m: Metric, x: Seq<u32>, y: Seq<u32>) -> int {
    match m {
        Metric::Manhattan => manhattan_sum(x, y),
        Metric::Chebyshev => chebyshev_max(x, y),
    }
}

/// Whether the distance between two vectors fits in a `u32`; the sum that
/// the Manhattan distance adds up overflows otherwise.
pub open spec fn metric_fits(m: Metric, x: Seq<u32>, y: Seq<u32>) -> bool {
    metric_distance(m, x, y) <= u32::MAX
}

/// The Manhattan distance, with `distances::vectors::manhattan`.
///
/// Trusted: `manhattan` sums the absolute differences of the paired
/// coordinates (`abs_diff_iter` zips the two slices); with the sum within
/// `u32` it returns that sum.
#[verifier::external_body]
fn manhattan(x: &[u32], y: &[u32]) -> (d: u32)
    requires
        manhattan_sum(x@, y@) <= u32::MAX,
    ensures
        d == manhattan_sum(x@, y@),
{
    distances::vectors::manhattan(x, y)
}

/// The Chebyshev distance, with `distances::vectors::chebyshev`.
///
/// Trusted: `chebyshev` returns the greatest absolute difference of the
/// paired coordinates (`abs_diff_iter` zips the two slices), and zero when
/// there is none.
#[verifier::external_body]
fn chebyshev(x: &[u32], y: &[u32]) -> (d: u32)
    ensures
        d == chebyshev_max(x@, y@),
{
    distances::vectors::chebyshev(x, y)
}

/// The order in which `SliceRandom::shuffle` of `rand`, driven by a
/// `ChaCha8Rng` seeded with `seed`, leaves the elements of `v`.
pub uninterp spec fn seeded_shuffle(v: Seq<usize>, seed: u64) -> Seq<usize>;

/// Shuffles a vector in place with `SliceRandom::shuffle` of `rand`, driven
/// by a `ChaCha8Rng` seeded with `seed`.
///
/// Trusted: the generator is seeded from `seed` alone and the shuffle swaps
/// elements as the generator dictates, so the result is a function of the
/// vector and the seed (named `seeded_shuffle`), and a permutation of the
/// vector. Which permutation that is, is not stated.
#[verifier::external_body]
fn shuffle_seeded(v: &mut Vec<usize>, seed: u64)
    ensures
        final(v)@ == seeded_shuffle(old(v)@, seed),
        final(v)@.to_multiset() == old(v)@.to_multiset(),
        final(v)@.len() == old(v)@.len(),
{
    v.shuffle(&mut rand_chacha::ChaCha8Rng::seed_from_u64(seed));
}

/// Shuffles a vector in place with `SliceRandom::shuffle` of `rand`, driven
/// by the thread-local generator `rand::thread_rng()`.
///
/// Trusted: the shuffle only swaps elements, so the vector afterwards is a
/// permutation of the vector before. Which permutation is chance.
#[verifier::external_body]
fn shuffle_random(v: &mut Vec<usize>)
    ensures
        final(v)@.to_multiset() == old(v)@.to_multiset(),
        final(v)@.len() == old(v)@.len(),
{
    v.shuffle(&mut rand::thread_rng());
}

/// The identity permutation of `n` positions.
pub open spec fn identity_indices(n: nat) -> Seq<usize> {
    Seq::new(n, |i: int| i as usize)
}

/// Whether `p` orders the positions `0..n`: each of them occurs exactly once.
pub open spec fn is_permutation_of_positions(p: Seq<usize>, n: nat) -> bool {
    &&& p.len() == n
    &&& forall|i: int| 0 <= i < n ==> #[trigger] p[i] < n
    &&& forall|i: int, j: int| 0 <= i < j < n ==> p[i] != p[j]
}

/// The sum of the distances from instance `a` to the instances `s`.
pub open spec fn distance_sum(d: spec_fn(int, int) -> int, a: int, s: Seq<usize>) -> int
    decreases s.len(),
{
    if s.len() == 0 {
        0
    } else {
        distance_sum(d, a, s.drop_last()) + d(a, s.last() as int)
    }
}

/// Whether position `p` holds the first smallest of the values.
pub open spec fn is_first_min(v: Seq<int>, p: int) -> bool {
    &&& 0 <= p < v.len()
    &&& forall|j: int| 0 <= j < v.len() ==> v[p] <= #[trigger] v[j]
    &&& forall|j: int| 0 <= j < p ==> v[p] < #[trigger] v[j]
}

/// Whether position `p` holds the first greatest of the values.
pub open spec fn is_first_max(v: Seq<int>, p: int) -> bool {
    &&& 0 <= p < v.len()
    &&& forall|j: int| 0 <= j < v.len() ==> #[trigger] v[j] <= v[p]
    &&& forall|j: int| 0 <= j < p ==> #[trigger] v[j] < v[p]
}

/// A dataset: the instances, integer vectors, and the metric under which
/// their distances are measured.
///
/// The dataset's `indices` are its positions `0..n` in order; `reorder`
/// permutes the instances and keeps them so.
pub struct VecDataset {
    name: String,
    data: Vec<Vec<u32>>,
    metric: Metric,
    indices: Vec<usize>,
}

impl VecDataset {
    /// The instances.
    pub closed spec fn instances(&self) -> Seq<Seq<u32>> {
        Seq::new(self.data@.len(), |i: int| self.data@[i]@)
    }

    /// The name of the dataset.
    pub closed spec fn spec_name(&self) -> Seq<char> {
        self.name@
    }

    /// The metric.
    pub closed spec fn spec_metric(&self) -> Metric {
        self.metric
    }

    /// The number of instances.
    pub open spec fn size(&self) -> nat {
        self.instances().len()
    }

    /// The distance between the instances at positions `a` and `b`.
    pub open spec fn dist(&self, a: int, b: int) -> int {
        metric_distance(self.spec_metric(), self.instances()[a], self.instances()[b])
    }

    /// The distance function on positions.
    pub open spec fn dist_fn(&self) -> spec_fn(int, int) -> int {
        |a: int, b: int| self.dist(a, b)
    }

    /// Whether the distance between any two instances fits in a `u32`.
    pub open spec fn distances_fit(&self) -> bool {
        forall|a: int, b: int|
            0 <= a < self.size() && 0 <= b < self.size() ==> metric_fits(
                self.spec_metric(),
                #[trigger] self.instances()[a],
                #[trigger] self.instances()[b],
            )
    }

    /// For each of the positions `s`, the sum of its distances to all of them.
    pub open spec fn medoid_sums(&self, s: Seq<usize>) -> Seq<int> {
        Seq::new(s.len(), |k: int| distance_sum(self.dist_fn(), s[k] as int, s))
    }

    /// Whether `c` is the medoid of the positions `s`: the first of them
    /// whose sum of distances to all of them is smallest.
    pub open spec fn is_medoid(&self, s: Seq<usize>, c: usize) -> bool {
        exists|p: int| is_first_min(self.medoid_sums(s), p) && c == s[p]
    }

    /// The dataset's invariant.
    pub closed spec fn wf(&self) -> bool {
        &&& self.indices@ == identity_indices(self.data@.len())
        &&& self.distances_fit()
    }

    /// The positions of the instances, `0..n`.
    pub closed spec fn spec_indices(&self) -> Seq<usize> {
        self.indices@
    }

    /// Creates a dataset of the given instances under the given metric.
    pub fn new(name: String, data: Vec<Vec<u32>>, metric: Metric) -> (d: VecDataset)
        requires
            forall|a: int, b: int|
                0 <= a < data@.len() && 0 <= b < data@.len() ==> metric_fits(
                    metric,
                    #[trigger] data@[a]@,
                    #[trigger] data@[b]@,
                ),
        ensures
            d.wf(),
            d.spec_name() == name@,
            d.spec_metric() == metric,
            d.size() == data@.len(),
            forall|i: int| 0 <= i < data@.len() ==> #[trigger] d.instances()[i] == data@[i]@,
    {
        let n = data.len();
        let mut indices: Vec<usize> = Vec::new();
        let mut i: usize = 0;
        while i < n
            invariant
                i <= n,
                indices@ == identity_indices(i as nat),
            decreases n - i,
        {
            indices.push(i);
            i = i + 1;
            assert(indices@ =~= identity_indices(i as nat));
        }
        let d = VecDataset { name, data, metric, indices };
        assert forall|a: int, b: int| 0 <= a < d.size() && 0 <= b < d.size() implies metric_fits(
            d.spec_metric(),
            #[trigger] d.instances()[a],
            #[trigger] d.instances()[b],
        ) by {
            assert(d.instances()[a] == data@[a]@);
            assert(d.instances()[b] == data@[b]@);
        }
        d
    }

    /// The indices of the instances: the positions `0..n`.
    pub fn indices(&self) -> (s: &[usize])
        requires
            self.wf(),
        ensures
            s@ == identity_indices(self.size()),
    {
        self.indices.as_slice()
    }

    /// The name of the dataset.
    pub fn name(&self) -> (n: &str)
        ensures
            n@ == self.spec_name(),
    {
        self.name.as_str()
    }

    /// The number of instances.
    pub fn cardinality(&self) -> (n: usize)
        ensures
            n == self.size(),
    {
        self.data.len()
    }

    /// The metric of the dataset.
    pub fn metric(&self) -> (m: Metric)
        ensures
            m == self.spec_metric(),
    {
        self.metric
    }

    fn distance(metric: Metric, x: &[u32], y: &[u32]) -> (d: u32)
        requires
            metric_fits(metric, x@, y@),
        ensures
            d == metric_distance(metric, x@, y@),
    {
        match metric {
            Metric::Manhattan => manhattan(x, y),
            Metric::Chebyshev => chebyshev(x, y),
        }
    }

    /// The distance between the instances at positions `a` and `b`.
    pub fn one_to_one(&self, a: usize, b: usize) -> (d: u32)
        requires
            self.wf(),
            a < self.size(),
            b < self.size(),
        ensures
            d == self.dist(a as int, b as int),
    {
        assert(self.instances()[a as int] == self.data@[a as int]@);
        assert(self.instances()[b as int] == self.data@[b as int]@);
        Self::distance(self.metric, self.data[a].as_slice(), self.data[b].as_slice())
    }

    /// The distance from a query vector to the instance at position `b`.
    pub fn query_to_one(&self, query: &[u32], b: usize) -> (d: u32)
        requires
            b < self.size(),
            metric_fits(self.spec_metric(), query@, self.instances()[b as int]),
        ensures
            d == metric_distance(self.spec_metric(), query@, self.instances()[b as int]),
    {
        assert(self.instances()[b as int] == self.data@[b as int]@);
        Self::distance(self.metric, query, self.data[b].as_slice())
    }

    /// The distances from the instance at position `a` to the instances at
    /// positions `bs`, in the order of `bs`.
    pub fn one_to_many(&self, a: usize, bs: &[usize]) -> (ds: Vec<u32>)
        requires
            self.wf(),
            a < self.size(),
            forall|i: int| 0 <= i < bs@.len() ==> #[trigger] bs@[i] < self.size(),
        ensures
            ds@.len() == bs@.len(),
            forall|i: int| 0 <= i < bs@.len() ==> #[trigger] ds@[i] == self.dist(a as int, bs@[i] as int),
    {
        let mut ds: Vec<u32> = Vec::new();
        let mut i: usize = 0;
        while i < bs.len()
            invariant
                self.wf(),
                a < self.size(),
                forall|k: int| 0 <= k < bs@.len() ==> #[trigger] bs@[k] < self.size(),
                i <= bs@.len(),
                ds@.len() == i,
                forall|k: int| 0 <= k < i ==> #[trigger] ds@[k] == self.dist(a as int, bs@[k] as int),
            decreases bs@.len() - i,
        {
            let d = self.one_to_one(a, bs[i]);
            ds.push(d);
            i = i + 1;
        }
        ds
    }

    /// The medoid of the instances at positions `indices`: the one whose sum of
    /// distances to all of them is smallest, the first such in `indices`;
    /// `None` when `indices` is empty.
    pub fn median(&self, indices: &[usize]) -> (m: Option<usize>)
        requires
            self.wf(),
            forall|i: int| 0 <= i < indices@.len() ==> #[trigger] indices@[i] < self.size(),
        ensures
            indices@.len() == 0 ==> m is None,
            indices@.len() > 0 ==> (m matches Some(c) && self.is_medoid(indices@, c)),
    {
        let n = indices.len();
        if n == 0 {
            return None;
        }
        let ghost sums = self.medoid_sums(indices@);
        let mut best: usize = 0;
        let mut best_sum: u128 = self.sum_to_all(indices[0], indices);
        let mut k: usize = 1;
        while k < n
            invariant
                self.wf(),
                forall|i: int| 0 <= i < indices@.len() ==> #[trigger] indices@[i] < self.size(),
                n == indices@.len(),
                1 <= k <= n,
                sums == self.medoid_sums(indices@),
                best < k,
                best_sum == sums[best as int],
                forall|j: int| 0 <= j < k ==> sums[best as int] <= #[trigger] sums[j],
                forall|j: int| 0 <= j < best ==> sums[best as int] < #[trigger] sums[j],
            decreases n - k,
        {
            let s = self.sum_to_all(indices[k], indices);
            if s < best_sum {
                best = k;
                best_sum = s;
            }
            k = k + 1;
        }
        assert(is_first_min(sums, best as int));
        Some(indices[best])
    }

    /// The sum of the distances from the instance at position `a` to those at
    /// positions `indices`.
    fn sum_to_all(&self, a: usize, indices: &[usize]) -> (s: u128)
        requires
            self.wf(),
            a < self.size(),
            forall|i: int| 0 <= i < indices@.len() ==> #[trigger] indices@[i] < self.size(),
        ensures
            s == distance_sum(self.dist_fn(), a as int, indices@),
    {
        let mut s: u128 = 0;
        let mut i: usize = 0;
        while i < indices.len()
            invariant
                self.wf(),
                a < self.size(),
                forall|k: int| 0 <= k < indices@.len() ==> #[trigger] indices@[k] < self.size(),
                i <= indices@.len(),
                s == distance_sum(self.dist_fn(), a as int, indices@.subrange(0, i as int)),
                s <= i * 0x1_0000_0000,
            decreases indices@.len() - i,
        {
            let d = self.one_to_one(a, indices[i]);
            assert(indices@.subrange(0, i + 1).drop_last() =~= indices@.subrange(0, i as int));
            s = s + d as u128;
            i = i + 1;
        }
        assert(indices@.subrange(0, i as int) =~= indices@);
        s
    }

    /// `n` of the positions `indices` chosen at random, without choosing a
    /// position twice: the first `n` of a shuffled copy of `indices` (all of
    /// them when `n` is at least their number). The shuffle is seeded with
    /// `seed` when there is one, and then the choice is `seeded_shuffle`'s.
    pub fn choose_unique(&self, n: usize, indices: &[usize], seed: Option<u64>) -> (c: Vec<usize>)
        ensures
            c@.len() == if n < indices@.len() {
                n as int
            } else {
                indices@.len() as int
            },
            c@.to_multiset().subset_of(indices@.to_multiset()),
            seed matches Some(s) ==> c@ == seeded_shuffle(indices@, s).take(c@.len() as int),
    {
        let n = if n < indices.len() {
            n
        } else {
            indices.len()
        };
        let mut shuffled = vstd::slice::slice_to_vec(indices);
        match seed {
            Some(seed) => shuffle_seeded(&mut shuffled, seed),
            None => shuffle_random(&mut shuffled),
        }
        let ghost all = shuffled@;
        shuffled.truncate(n);
        proof {
            assert(shuffled@ =~= all.take(n as int));
            vstd::seq_lib::lemma_multiset_commutative(all.subrange(0, n as int), all.subrange(n as int, all.len() as int));
            assert(all =~= all.subrange(0, n as int) + all.subrange(n as int, all.len() as int));
        }
        shuffled
    }
    /// Reorders the instances: the instance at position `i` afterwards is the
    /// one at position `indices[i]` before. The indices stay `0..n`.
    pub fn reorder(&mut self, indices: &[usize])
        requires
            old(self).wf(),
            is_permutation_of_positions(indices@, old(self).size()),
        ensures
            final(self).wf(),
            final(self).size() == old(self).size(),
            final(self).spec_metric() == old(self).spec_metric(),
            final(self).spec_name() == old(self).spec_name(),
            forall|i: int|
                0 <= i < old(self).size() ==> #[trigger] final(self).instances()[i] == old(
                    self,
                ).instances()[indices@[i] as int],
    {
        let ghost before = self.instances();
        let n = indices.len();
        let mut data: Vec<Vec<u32>> = Vec::new();
        let mut i: usize = 0;
        while i < n
            invariant
                n == indices@.len(),
                n == self.data@.len(),
                before == self.instances(),
                is_permutation_of_positions(indices@, n as nat),
                i <= n,
                data@.len() == i,
                forall|k: int| 0 <= k < i ==> #[trigger] data@[k]@ == before[indices@[k] as int],
            decreases n - i,
        {
            let row = vstd::slice::slice_to_vec(self.data[indices[i]].as_slice());
            assert(before[indices@[i as int] as int] == self.data@[indices@[i as int] as int]@);
            data.push(row);
            i = i + 1;
        }
        self.data = data;
        assert forall|a: int, b: int| 0 <= a < self.size() && 0 <= b < self.size() implies metric_fits(
            self.spec_metric(),
            #[trigger] self.instances()[a],
            #[trigger] self.instances()[b],
        ) by {
            assert(self.instances()[a] == before[indices@[a] as int]);
            assert(self.instances()[b] == before[indices@[b] as int]);
        }
    }
}

/// The distance from a vector to itself is zero.
pub proof fn lemma_distance_to_self(m: Metric, x: Seq<u32>)
    ensures
        metric_distance(m, x, x) == 0,
    decreases x.len(),
{
    if x.len() > 0 {
        lemma_distance_to_self(m, x.drop_first());
    }
}

/// The distance does not depend on the order of its arguments.
pub proof fn lemma_distance_symmetric(m: Metric, x: Seq<u32>, y: Seq<u32>)
    ensures
        metric_distance(m, x, y) == metric_distance(m, y, x),
    decreases x.len(),
{
    if x.len() > 0 && y.len() > 0 {
        lemma_distance_symmetric(m, x.drop_first(), y.drop_first());
    }
}

/// Distances are never negative.
pub proof fn lemma_distance_nonnegative(m: Metric, x: Seq<u32>, y: Seq<u32>)
    ensures
        metric_distance(m, x, y) >= 0,
    decreases x.len(),
{
    if x.len() > 0 && y.len() > 0 {
        lemma_distance_nonnegative(m, x.drop_first(), y.drop_first());
    }
}

/// There is only one first smallest value.
pub proof fn lemma_first_min_unique(v: Seq<int>, p1: int, p2: int)
    requires
        is_first_min(v, p1),
        is_first_min(v, p2),
    ensures
        p1 == p2,
{
    if p1 < p2 {
        assert(v[p2] < v[p1]);
    }
    if p2 < p1 {
        assert(v[p1] < v[p2]);
    }
}

/// There is only one first greatest value.
pub proof fn lemma_first_max_unique(v: Seq<int>, p1: int, p2: int)
    requires
        is_first_max(v, p1),
        is_first_max(v, p2),
    ensures
        p1 == p2,
{
    if p1 < p2 {
        assert(v[p1] < v[p2]);
    }
    if p2 < p1 {
        assert(v[p2] < v[p1]);
    }
}

/// A set of positions has only one medoid: `median` (and so `new` whenever
/// its sample is fixed, as it is with a seed) gives the same center each
/// time.
pub proof fn lemma_medoid_unique(data: &VecDataset, s: Seq<usize>, c1: usize, c2: usize)
    requires
        data.is_medoid(s, c1),
        data.is_medoid(s, c2),
    ensures
        c1 == c2,
{
    let p1 = choose|p: int| is_first_min(data.medoid_sums(s), p) && c1 == s[p];
    let p2 = choose|p: int| is_first_min(data.medoid_sums(s), p) && c2 == s[p];
    lemma_first_min_unique(data.medoid_sums(s), p1, p2);
}

/// The triangle inequality, for vectors of one length.
pub proof fn lemma_distance_triangle(m: Metric, x: Seq<u32>, y: Seq<u32>, z: Seq<u32>)
    requires
        x.len() == y.len(),
        y.len() == z.len(),
    ensures
        metric_distance(m, x, z) <= metric_distance(m, x, y) + metric_distance(m, y, z),
    decreases x.len(),
{
    if x.len() > 0 {
        lemma_distance_triangle(m, x.drop_first(), y.drop_first(), z.drop_first());
        lemma_distance_nonnegative(m, x.drop_first(), y.drop_first());
        lemma_distance_nonnegative(m, y.drop_first(), z.drop_first());
    }
}

} // verus!
