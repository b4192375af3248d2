# abd_clam

Divisive hierarchical clustering of a dataset, verified with Verus.

A `Cluster` covers a run of instances of a `VecDataset` (integer vectors under
the Manhattan or Chebyshev distance of the `distances` crate). `partition`
splits a root cluster recursively around two poles until the
`PartitionCriteria` stop it, and reorders the dataset so that every cluster's
instances lie together. A cluster's history (its path from the root) has a
hexadecimal name; `SerializedCluster` is a flat form of a cluster.

Layout of `src/`:

- `cluster.rs`: the `Cluster` and `Children` types, their getters, ancestry,
  the pre-order subtree and its greatest depth.
- `name.rs`: histories and their names, both ways, and the round-trip laws.
- `order.rs`: equality by history, ordering by depth then offset (`PartialOrd`
  and `cmp`), hashing, and the order in which sorting lists a tree.
- `dataset.rs`: the dataset, its distances, medoids, sampling and reordering.
- `criteria.rs`: the partition criteria.
- `partition.rs`: building clusters and the tree, and the laws of the tree.
- `search.rs`: distances from centers and the children a query ball overlaps.
- `serialize.rs`: the flat form of a cluster and its round-trip laws.

`app/` holds the serde copies of the serialized types and JSON helpers.
