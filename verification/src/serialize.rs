//! A flat representation of a `Cluster` for serialization: its history as a
//! name, its distances as little-endian bytes, and its children by name.

use vstd::prelude::*;

use crate::cluster::{Children, Cluster};
use crate::name::{
    history_name,
    is_canonical_name,
    lemma_history_name_of_name_history,
    lemma_name_history_of_history_name,
    name_history,
    name_is_readable,
};

verus! {

/// The little-endian bytes of a distance.
pub open spec fn le_bytes(x: u32) -> Seq<u8> {
    seq![
        (x % 0x100) as u8,
        (x / 0x100 % 0x100) as u8,
        (x / 0x1_0000 % 0x100) as u8,
        (x / 0x100_0000) as u8,
    ]
}

/// The distance that four little-endian bytes encode.
pub open spec fn from_le(b: Seq<u8>) -> u32 {
    (b[0] + 0x100 * b[1] + 0x1_0000 * b[2] + 0x100_0000 * b[3]) as u32
}

/// The little-endian bytes of a distance, with `Number::to_le_bytes` of
/// `distances`.
///
/// Trusted: for `u32`, `to_le_bytes` is `u32::to_le_bytes` copied into a
/// vector: the four bytes of the number, least significant first.
#[verifier::external_body]
fn distance_to_le_bytes(x: u32) -> (b: Vec<u8>)
    ensures
        b@ == le_bytes(x),
{
    <u32 as distances::Number>::to_le_bytes(x)
}

/// The distance that little-endian bytes encode, with `Number::from_le_bytes`
/// of `distances`.
///
/// Trusted: for `u32`, `from_le_bytes` copies the slice into a four-byte
/// array (which panics unless the slice holds exactly four bytes) and reads
/// it with `u32::from_le_bytes`, least significant byte first.
#[verifier::external_body]
fn distance_from_le_bytes(b: &[u8]) -> (x: u32)
    requires
        b@.len() == 4,
    ensures
        x == from_le(b@),
{
    <u32 as distances::Number>::from_le_bytes(b)
}

/// Serialized information about a given `Cluster`'s children.
#[derive(Debug)]
pub struct SerializedChildInfo {
    /// The encoded history of the left child
    pub left_name: String,
    /// The encoded history of the right child
    pub right_name: String,
    /// The left pole of the `Cluster`
    pub arg_l: usize,
    /// The right pole of the `Cluster`
    pub arg_r: usize,
    /// The distance from the left pole to the right pole, as little-endian
    /// bytes.
    pub polar_distance_bytes: Vec<u8>,
}

/// Intermediate representation of `Cluster` for serialization.
#[derive(Debug)]
pub struct SerializedCluster {
    /// The encoded history of the `Cluster`
    pub name: String,
    /// The seed (if applicable) that the `Cluster` was constructed with
    pub seed: Option<u64>,
    /// The `Cluster`'s offset
    pub offset: usize,
    /// The `Cluster`'s cardinality
    pub cardinality: usize,
    /// The `Cluster`'s arg_center
    pub arg_center: usize,
    /// The `Cluster`'s arg_radial
    pub arg_radial: usize,
    /// The `Cluster`'s radius as little-endian bytes
    pub radius_bytes: Vec<u8>,
    /// Serialized information about the cluster's immediate children, if applicable
    pub child_info: Option<SerializedChildInfo>,
}

/// Whether `info` describes the children `ch`.
pub open spec fn describes_children(info: SerializedChildInfo, ch: Children) -> bool {
    &&& info.left_name@ == history_name((*ch.left).history@)
    &&& info.right_name@ == history_name((*ch.right).history@)
    &&& info.arg_l == ch.arg_l
    &&& info.arg_r == ch.arg_r
    &&& info.polar_distance_bytes@ == le_bytes(ch.polar_distance)
}

impl SerializedCluster {
    /// Converts a `Cluster` to a `SerializedCluster`: the history becomes the
    /// cluster's name, the radius its little-endian bytes, and the children
    /// their names, poles and polar distance.
    pub fn from_cluster(cluster: &Cluster) -> (s: SerializedCluster)
        ensures
            s.name@ == history_name(cluster.history@),
            s.seed == cluster.seed,
            s.offset == cluster.offset,
            s.cardinality == cluster.cardinality,
            s.arg_center == cluster.arg_center,
            s.arg_radial == cluster.arg_radial,
            s.radius_bytes@ == le_bytes(cluster.radius),
            match cluster.children {
                None => s.child_info is None,
                Some(ch) => s.child_info matches Some(info) && describes_children(info, ch),
            },
    {
        let name = cluster.name();
        let radius_bytes = distance_to_le_bytes(cluster.radius);
        let child_info = match &cluster.children {
            Some(children) => Some(
                SerializedChildInfo {
                    left_name: children.left.name(),
                    right_name: children.right.name(),
                    arg_l: children.arg_l,
                    arg_r: children.arg_r,
                    polar_distance_bytes: distance_to_le_bytes(children.polar_distance),
                },
            ),
            None => None,
        };
        SerializedCluster {
            name,
            seed: cluster.seed,
            offset: cluster.offset,
            cardinality: cluster.cardinality,
            arg_center: cluster.arg_center,
            arg_radial: cluster.arg_radial,
            radius_bytes,
            child_info,
        }
    }

    /// Converts a `SerializedCluster` to a `Cluster` without children: the
    /// history is read back from the name and the radius from its bytes.
    /// Also returns the information about the children, if any.
    pub fn into_partial_cluster(self) -> (r: (Cluster, Option<SerializedChildInfo>))
        requires
            name_is_readable(self.name@),
            self.radius_bytes@.len() == 4,
        ensures
            r.0.history@ == name_history(self.name@),
            r.0.seed == self.seed,
            r.0.offset == self.offset,
            r.0.cardinality == self.cardinality,
            r.0.arg_center == self.arg_center,
            r.0.arg_radial == self.arg_radial,
            r.0.radius == from_le(self.radius_bytes@),
            r.0.children is None,
            r.1 == self.child_info,
    {
        let history = Cluster::name_to_history(self.name.as_str());
        let radius = distance_from_le_bytes(self.radius_bytes.as_slice());
        (
            Cluster {
                history,
                seed: self.seed,
                offset: self.offset,
                cardinality: self.cardinality,
                arg_center: self.arg_center,
                arg_radial: self.arg_radial,
                radius,
                children: None,
            },
            self.child_info,
        )
    }
}

/// The bytes of a distance give the distance back.
pub proof fn lemma_from_le_of_le_bytes(x: u32)
    ensures
        from_le(le_bytes(x)) == x,
{
}

/// Four bytes are given back by the bytes of the distance they encode.
pub proof fn lemma_le_bytes_of_from_le(b: Seq<u8>)
    requires
        b.len() == 4,
    ensures
        le_bytes(from_le(b)) == b,
{
    let (b0, b1, b2, b3) = (b[0], b[1], b[2], b[3]);
    let x: u32 = from_le(b);
    assert(x == b0 as u32 + 0x100 * (b1 as u32) + 0x1_0000 * (b2 as u32) + 0x100_0000 * (b3 as u32));
    assert(x == b0 as u32 + 0x100 * (b1 as u32) + 0x1_0000 * (b2 as u32) + 0x100_0000 * (b3 as u32)
        ==> (x % 0x100) as u8 == b0 && (x / 0x100 % 0x100) as u8 == b1 && (x / 0x1_0000 % 0x100) as u8
        == b2 && (x / 0x100_0000) as u8 == b3) by (bit_vector);
    assert(le_bytes(from_le(b)) =~= b);
}

/// A cluster whose history starts with `true` (as every history of a tree
/// does) is given back, but for its children, by serializing it and reading
/// it back: the name is readable, and the history and radius come back equal.
pub proof fn lemma_serialize_round_trip(c: Cluster)
    requires
        c.history@.len() > 0,
        c.history@[0],
    ensures
        name_is_readable(history_name(c.history@)),
        le_bytes(c.radius).len() == 4,
        name_history(history_name(c.history@)) == c.history@,
        from_le(le_bytes(c.radius)) == c.radius,
{
    lemma_name_history_of_history_name(c.history@);
    lemma_from_le_of_le_bytes(c.radius);
}

/// A serialized cluster whose name is made of lower-case hexadecimal digits
/// and does not start with `'0'`, and whose radius has four bytes, is given
/// back by reading it and serializing the result: the name and the radius
/// bytes come back equal.
pub proof fn lemma_deserialize_round_trip(name: Seq<char>, radius_bytes: Seq<u8>)
    requires
        is_canonical_name(name),
        radius_bytes.len() == 4,
    ensures
        name_is_readable(name),
        history_name(name_history(name)) == name,
        le_bytes(from_le(radius_bytes)) == radius_bytes,
{
    lemma_history_name_of_name_history(name);
    lemma_le_bytes_of_from_le(radius_bytes);
}

} // verus!
