use std::cmp::Ordering;
use std::collections::hash_map::DefaultHasher;
use std::hash::{Hash, Hasher};

use abd_clam::{Children, Cluster, Metric, PartitionCriteria, PartitionCriterion, SerializedCluster, VecDataset};

fn leaf(history: Vec<bool>, offset: usize, cardinality: usize, radius: u32) -> Cluster {
    Cluster {
        history,
        seed: None,
        offset,
        cardinality,
        arg_center: offset,
        arg_radial: offset,
        radius,
        children: None,
    }
}

fn points(values: &[u32]) -> VecDataset {
    let data: Vec<Vec<u32>> = values.iter().map(|&v| vec![v]).collect();
    VecDataset::new("points".to_string(), data, Metric::Manhattan)
}

#[test]
fn names_of_histories() {
    assert_eq!(Cluster::history_to_name(&[]), "");
    assert_eq!(Cluster::history_to_name(&[true]), "1");
    assert_eq!(Cluster::history_to_name(&[true, false]), "2");
    assert_eq!(Cluster::history_to_name(&[true, true]), "3");
    assert_eq!(Cluster::history_to_name(&[true, true, false, false, true]), "19");
    assert_eq!(Cluster::history_to_name(&[true, false, true, false, true, true, true, true]), "af");
    assert_eq!(Cluster::history_to_name(&[false, false, false, false, true]), "01");
}

#[test]
fn histories_of_names() {
    assert_eq!(Cluster::name_to_history("1"), vec![true]);
    assert_eq!(Cluster::name_to_history("19"), vec![true, true, false, false, true]);
    assert_eq!(Cluster::name_to_history("a"), vec![true, false, true, false]);
    assert_eq!(Cluster::name_to_history("0f"), vec![true, true, true, true]);
    assert_eq!(Cluster::name_to_history("0"), Vec::<bool>::new());
}

#[test]
fn round_trip_needs_a_leading_true() {
    // a history that starts with `false` loses its leading bits
    let name = Cluster::history_to_name(&[false, true]);
    assert_eq!(name, "1");
    assert_eq!(Cluster::name_to_history(&name), vec![true]);
    // a name that starts with '0' loses its leading digit
    let history = Cluster::name_to_history("01");
    assert_eq!(Cluster::history_to_name(&history), "1");
}

#[test]
fn name_of_cluster() {
    let c = leaf(vec![true, false, true], 0, 1, 0);
    assert_eq!(c.name(), "5");
    assert_eq!(c.history(), &[true, false, true]);
}

#[test]
fn depth_root_and_children_histories() {
    let root = leaf(vec![true], 0, 4, 3);
    assert_eq!(root.depth(), 0);
    assert!(root.is_root());
    assert_eq!(root.child_history(false), vec![true, false]);
    assert_eq!(root.child_history(true), vec![true, true]);
    let child = leaf(root.child_history(true), 2, 2, 1);
    assert_eq!(child.depth(), 1);
    assert!(!child.is_root());
}

#[test]
fn ancestors_and_descendants() {
    let root = leaf(vec![true], 0, 4, 3);
    let left = leaf(vec![true, false], 0, 2, 1);
    let left_right = leaf(vec![true, false, true], 1, 1, 0);
    let right = leaf(vec![true, true], 2, 2, 1);

    assert!(root.is_ancestor_of(&left));
    assert!(root.is_ancestor_of(&left_right));
    assert!(left.is_ancestor_of(&left_right));
    assert!(!right.is_ancestor_of(&left_right));
    assert!(!root.is_ancestor_of(&root));
    assert!(!left.is_ancestor_of(&root));
    assert!(left_right.is_descendant_of(&root));
    assert!(left_right.is_descendant_of(&left));
    assert!(!left_right.is_descendant_of(&right));
}

#[test]
fn ordering_by_depth_then_offset() {
    let root = leaf(vec![true], 0, 4, 3);
    let left = leaf(vec![true, false], 0, 2, 1);
    let right = leaf(vec![true, true], 2, 2, 1);

    assert_eq!(root.cmp(&left), Ordering::Less);
    assert_eq!(left.cmp(&root), Ordering::Greater);
    assert_eq!(left.cmp(&right), Ordering::Less);
    assert_eq!(right.cmp(&left), Ordering::Greater);
    assert_eq!(right.cmp(&right), Ordering::Equal);
    assert_eq!(left.partial_cmp(&right), Some(Ordering::Less));
    assert!(root < left && left < right && right > left && right <= right);
}

#[test]
fn equality_by_history() {
    let a = leaf(vec![true, false], 0, 2, 1);
    let b = leaf(vec![true, false], 5, 7, 9);
    let c = leaf(vec![true, true], 0, 2, 1);
    assert!(a == b);
    assert!(a != c);
}

#[test]
fn hash_of_offset_and_cardinality() {
    let a = leaf(vec![true, false], 3, 2, 1);
    let b = leaf(vec![true, true, true], 3, 2, 9);
    let hash = |c: &Cluster| {
        let mut h = DefaultHasher::new();
        c.hash(&mut h);
        h.finish()
    };
    let pair = {
        let mut h = DefaultHasher::new();
        (3_usize, 2_usize).hash(&mut h);
        h.finish()
    };
    assert_eq!(hash(&a), hash(&b));
    assert_eq!(hash(&a), pair);
}

#[test]
fn singletons_and_leaves() {
    let a = leaf(vec![true], 0, 1, 0);
    assert!(a.is_singleton());
    assert!(a.is_leaf());
    assert!(a.children().is_none());
    assert_eq!(a.polar_distance(), None);
    let b = leaf(vec![true], 0, 2, 5);
    assert!(!b.is_singleton());
}

#[test]
fn distances_of_metrics() {
    let data: Vec<Vec<u32>> = vec![vec![1, 5, 2], vec![4, 1, 2], vec![0]];
    let manhattan = VecDataset::new("m".to_string(), data.clone(), Metric::Manhattan);
    let chebyshev = VecDataset::new("c".to_string(), data, Metric::Chebyshev);
    assert_eq!(manhattan.one_to_one(0, 1), 7);
    assert_eq!(chebyshev.one_to_one(0, 1), 4);
    // the shorter vector decides how many coordinates count
    assert_eq!(manhattan.one_to_one(0, 2), 1);
    assert_eq!(chebyshev.one_to_one(1, 2), 4);
    assert_eq!(manhattan.one_to_one(1, 1), 0);
    assert_eq!(manhattan.one_to_many(0, &[2, 1, 0]), vec![1, 7, 0]);
    assert_eq!(manhattan.query_to_one(&[0, 0, 0], 0), 8);
    assert_eq!(manhattan.metric(), Metric::Manhattan);
    assert_eq!(manhattan.name(), "m");
}

#[test]
fn median_is_first_medoid() {
    let data = points(&[0, 1, 2, 3, 10]);
    // sums: 16, 13, 12, 13, 44
    assert_eq!(data.median(&[0, 1, 2, 3, 4]), Some(2));
    // sums over {0, 1}: 1, 1; the first one wins
    assert_eq!(data.median(&[1, 0]), Some(1));
    assert_eq!(data.median(&[]), None);
    assert_eq!(data.median(&[4]), Some(4));
}

#[test]
fn choose_unique_picks_distinct_positions() {
    let data = points(&[0, 1, 2, 3, 4, 5]);
    let indices = [0, 1, 2, 3, 4, 5];
    let chosen = data.choose_unique(3, &indices, Some(7));
    assert_eq!(chosen.len(), 3);
    let mut sorted = chosen.clone();
    sorted.sort_unstable();
    sorted.dedup();
    assert_eq!(sorted.len(), 3);
    assert!(chosen.iter().all(|i| indices.contains(i)));
    let all = data.choose_unique(10, &indices, None);
    let mut all_sorted = all.clone();
    all_sorted.sort_unstable();
    assert_eq!(all_sorted, indices.to_vec());
    // the same seed gives the same choice
    assert_eq!(data.choose_unique(3, &indices, Some(7)), chosen);
}

#[test]
fn reorder_permutes_instances() {
    let mut data = points(&[10, 20, 30]);
    data.reorder(&[2, 0, 1]);
    assert_eq!(data.query_to_one(&[0], 0), 30);
    assert_eq!(data.query_to_one(&[0], 1), 10);
    assert_eq!(data.query_to_one(&[0], 2), 20);
    assert_eq!(data.indices(), &[0, 1, 2]);
    assert_eq!(data.cardinality(), 3);
}

#[test]
fn criteria_all_or_any() {
    let c = leaf(vec![true, false], 0, 5, 3);
    let all = PartitionCriteria::new(true).with_max_depth(3).with_min_cardinality(10);
    assert!(!all.check(&c));
    let any = PartitionCriteria::new(false).with_max_depth(3).with_min_cardinality(10);
    assert!(any.check(&c));
    assert_eq!(any.criteria, vec![PartitionCriterion::MaxDepth(3), PartitionCriterion::MinCardinality(10)]);
    // a singleton is never partitioned
    let s = leaf(vec![true], 0, 5, 0);
    assert!(!PartitionCriteria::new(true).check(&s));
    // with no criteria, all of them hold and none of them does
    assert!(PartitionCriteria::new(true).check(&c));
    assert!(!PartitionCriteria::new(false).check(&c));
}

#[test]
fn new_cluster_center_and_radius() {
    let data = points(&[0, 1, 2, 3, 10]);
    let c = Cluster::new(&data, Some(1), vec![true, true], 7, &[4, 0, 1, 2, 3]);
    assert_eq!(c.arg_center, 2);
    assert_eq!(c.arg_radial, 4);
    assert_eq!(c.radius, 8);
    assert_eq!(c.cardinality, 5);
    assert_eq!(c.offset, 7);
    assert_eq!(c.history, vec![true, true]);
    assert!(c.is_leaf());
    // a tie for the farthest instance goes to the first
    let d = points(&[5, 0, 10]);
    let c = Cluster::new_root(&d, &[0, 1, 2], None);
    assert_eq!(c.arg_center, 0);
    assert_eq!(c.arg_radial, 1);
    assert_eq!(c.radius, 5);
    assert_eq!(c.history, vec![true]);
}

#[test]
fn new_cluster_samples_large_sets() {
    let values: Vec<u32> = (0..150).collect();
    let data = points(&values);
    let indices: Vec<usize> = (0..150).collect();
    let c = Cluster::new(&data, Some(3), vec![true], 0, &indices);
    assert_eq!(c.cardinality, 150);
    assert!(c.arg_center < 150);
    let far = if c.arg_center < 75 { 149 } else { 0 };
    assert_eq!(c.arg_radial, far);
    assert_eq!(c.radius, data.one_to_one(c.arg_center, c.arg_radial));
}

#[test]
fn partition_splits_by_poles() {
    let mut data = points(&[0, 1, 2, 10, 11, 12, 13]);
    let indices = data.indices().to_vec();
    let criteria = PartitionCriteria::new(true).with_max_depth(1);
    let root = Cluster::new_root(&data, &indices, None).partition(&mut data, &criteria);
    let Some([left, right]) = root.children() else { unreachable!("the root is split") };
    assert_eq!(left.offset, 0);
    assert_eq!(left.cardinality, 4);
    assert_eq!(right.offset, 4);
    assert_eq!(right.cardinality, 3);
    assert!(left.is_leaf() && right.is_leaf());
    assert_eq!(root.max_leaf_depth(), 1);
    // the left child holds the instances near 10..13, the right one those near 0..2
    for i in 0..4 {
        assert!(data.query_to_one(&[0], i) >= 10);
    }
    for i in 4..7 {
        assert!(data.query_to_one(&[0], i) <= 2);
    }
    assert_eq!(root.polar_distance(), Some(13));
    let ch = root.children.as_ref().unwrap();
    assert_eq!(data.one_to_one(ch.arg_l, ch.arg_r), 13);
    assert_eq!(root.radius, data.one_to_one(root.arg_center, root.arg_radial));
    assert_eq!(root.indices(&data), &[0, 1, 2, 3, 4, 5, 6]);
    assert_eq!(left.indices(&data), &[0, 1, 2, 3]);
    assert_eq!(right.indices(&data), &[4, 5, 6]);
}

#[test]
fn subtree_is_pre_order() {
    let mut data = points(&[0, 1, 2, 3]);
    let indices = data.indices().to_vec();
    let criteria = PartitionCriteria::new(true).with_min_cardinality(1);
    let root = Cluster::new_root(&data, &indices, None).partition(&mut data, &criteria);
    let names: Vec<String> = root.subtree().iter().map(|c| c.name()).collect();
    assert_eq!(names, vec!["1", "2", "4", "5", "3", "6", "7"]);
    assert_eq!(root.max_leaf_depth(), 2);
}

#[test]
fn overlapping_children_by_pole_distances() {
    let mut data = points(&[0, 1, 2, 10, 11, 12, 13]);
    let indices = data.indices().to_vec();
    let criteria = PartitionCriteria::new(true).with_max_depth(1);
    let root = Cluster::new_root(&data, &indices, None).partition(&mut data, &criteria);
    let ch = root.children.as_ref().unwrap();
    // the poles are the instances 13 (left) and 0 (right), 13 apart
    assert_eq!(data.query_to_one(&[0], ch.arg_l), 13);
    assert_eq!(data.query_to_one(&[0], ch.arg_r), 0);
    // query 1, radius 0: (12 + 1) * (12 - 1) = 143 > 2 * 13 * 0, nearer the right pole
    let v = root.overlapping_children(&data, &[1], 0);
    assert_eq!(v.len(), 1);
    assert!(*v[0] == *ch.right);
    // query 12, radius 0: nearer the left pole
    let v = root.overlapping_children(&data, &[12], 0);
    assert_eq!(v.len(), 1);
    assert!(*v[0] == *ch.left);
    // query 6, radius 4: (7 + 6) * (7 - 6) = 13 <= 2 * 13 * 4
    let v = root.overlapping_children(&data, &[6], 4);
    assert_eq!(v.len(), 2);
    assert!(*v[0] == *ch.left && *v[1] == *ch.right);
    // a leaf has no children to overlap
    assert!(ch.left.overlapping_children(&data, &[6], 4).is_empty());
}

#[test]
fn distances_to_centers() {
    let data = points(&[0, 4, 9]);
    let a = Cluster::new(&data, None, vec![true], 0, &[0, 1]);
    let b = Cluster::new(&data, None, vec![true, true], 2, &[2]);
    assert_eq!(a.distance_to_other(&data, &b), data.one_to_one(a.arg_center, 2));
    assert_eq!(b.distance_to_instance(&data, &[3]), 6);
}

#[test]
fn serialized_children_and_bytes() {
    let mut data = points(&[0, 1, 2, 300]);
    let indices = data.indices().to_vec();
    let criteria = PartitionCriteria::new(true).with_max_depth(1);
    let root = Cluster::new_root(&data, &indices, None).partition(&mut data, &criteria);
    let s = SerializedCluster::from_cluster(&root);
    assert_eq!(s.name, "1");
    assert_eq!(s.radius_bytes, root.radius.to_le_bytes().to_vec());
    let info = s.child_info.as_ref().unwrap();
    assert_eq!(info.left_name, "2");
    assert_eq!(info.right_name, "3");
    assert_eq!(info.polar_distance_bytes, vec![44, 1, 0, 0]);
    let (c, info) = s.into_partial_cluster();
    assert_eq!(c.radius, root.radius);
    assert!(c.is_leaf());
    assert!(info.is_some());
    assert!(c == root);
}

#[test]
fn radius_bytes_are_little_endian() {
    let c = leaf(vec![true], 0, 1, 0x0102_0304);
    let s = SerializedCluster::from_cluster(&c);
    assert_eq!(s.radius_bytes, vec![4, 3, 2, 1]);
    let (back, _) = s.into_partial_cluster();
    assert_eq!(back.radius, 0x0102_0304);
}

#[test]
fn center_from_given_samples() {
    let data = points(&[0, 1, 2, 3, 10]);
    // the medoid of the samples {3, 4} is the first of them, the instance at 3
    let c = Cluster::from_samples(&data, None, vec![true], 0, &[0, 1, 2, 3, 4], &[3, 4]);
    assert_eq!(c.arg_center, 3);
    assert_eq!(c.arg_radial, 4);
    assert_eq!(c.radius, 7);
    // the medoid of all of them is the instance at 2
    let c = Cluster::from_samples(&data, None, vec![true], 0, &[0, 1, 2, 3, 4], &[0, 1, 2, 3, 4]);
    assert_eq!(c.arg_center, 2);
    assert_eq!(c.radius, 8);
}

#[test]
fn names_in_a_tree_are_unique() {
    let values: Vec<u32> = (0..40).map(|i| (i * 7) % 23 + i).collect();
    let mut data = points(&values);
    let indices = data.indices().to_vec();
    let criteria = PartitionCriteria::new(true).with_min_cardinality(1);
    let root = Cluster::new_root(&data, &indices, Some(5)).partition(&mut data, &criteria);
    let mut names: Vec<String> = root.subtree().iter().map(|c| c.name()).collect();
    let total = names.len();
    names.sort();
    names.dedup();
    assert_eq!(names.len(), total);
    for c in root.subtree() {
        assert_eq!(c.radius, data.one_to_one(c.arg_center, c.arg_radial));
        for j in c.offset..c.offset + c.cardinality {
            assert!(data.one_to_one(c.arg_center, j) <= c.radius);
        }
        if let Some([l, r]) = c.children() {
            assert_eq!(l.cardinality + r.cardinality, c.cardinality);
            assert!(r.cardinality <= l.cardinality);
            assert!(c.is_ancestor_of(l) && c.is_ancestor_of(r));
        }
    }
}

#[test]
fn overlapping_children_with_equal_pole_distances() {
    // the poles 0 and 10 are equally far from the query 5: (5 + 5) * 0 = 0,
    // so both children are returned
    let mut data = points(&[0, 6, 10]);
    let indices = data.indices().to_vec();
    let criteria = PartitionCriteria::new(true).with_max_depth(1);
    let root = Cluster::new_root(&data, &indices, None).partition(&mut data, &criteria);
    assert!(root.children().is_some());
    let v = root.overlapping_children(&data, &[5], 1);
    assert_eq!(v.len(), 2);
}

#[test]
fn overlapping_children_under_manhattan_in_two_dimensions() {
    let rows: Vec<Vec<u32>> = vec![vec![3, 5], vec![3, 6], vec![1, 0], vec![3, 0], vec![6, 3], vec![3, 4]];
    let mut data = VecDataset::new("plane".to_string(), rows, Metric::Manhattan);
    let indices = data.indices().to_vec();
    let criteria = PartitionCriteria::new(true).with_max_depth(1);
    let root = Cluster::new_root(&data, &indices, None).partition(&mut data, &criteria);
    let Some([left, right]) = root.children() else { unreachable!("the root is split") };
    let ch = root.children.as_ref().unwrap();
    let ql = data.query_to_one(&[6, 0], ch.arg_l);
    let qr = data.query_to_one(&[6, 0], ch.arg_r);
    assert_eq!(root.polar_distance(), Some(8));
    assert_eq!((ql, qr), (9, 5));
    // (9 + 5) * (9 - 5) = 56 > 2 * 8 * 3 = 48: only the child of the nearer pole
    let v = root.overlapping_children(&data, &[6, 0], 3);
    assert_eq!(v.len(), 1);
    assert!(*v[0] == *right);
    // (6, 3), on the other side, lies within 3 of the query; its pole is no
    // more than twice the radius farther away
    assert!((left.offset..left.offset + left.cardinality).any(|i| data.query_to_one(&[6, 0], i) <= 3));
    assert!(ql - qr <= 2 * 3);
    // radius 4: 56 <= 2 * 8 * 4 = 64, both children
    assert_eq!(root.overlapping_children(&data, &[6, 0], 4).len(), 2);
}

#[test]
fn leaves_have_no_children_poles_or_overlaps() {
    let mut data = points(&[0, 1, 2, 10, 11, 12, 13]);
    let indices = data.indices().to_vec();
    let criteria = PartitionCriteria::new(true).with_max_depth(1);
    let root = Cluster::new_root(&data, &indices, None).partition(&mut data, &criteria);
    for c in root.subtree() {
        let leaf = c.is_leaf();
        assert_eq!(c.children().is_none(), leaf);
        assert_eq!(c.polar_distance().is_none(), leaf);
        assert_eq!(c.overlapping_children(&data, &[5], 2).is_empty(), leaf);
    }
}

#[test]
fn distance_between_centers_is_symmetric() {
    let data = points(&[0, 4, 9]);
    let a = Cluster::new(&data, None, vec![true], 0, &[0, 1]);
    let b = Cluster::new(&data, None, vec![true, true], 2, &[2]);
    assert_eq!(a.distance_to_other(&data, &b), b.distance_to_other(&data, &a));
    assert_eq!(a.distance_to_other(&data, &a), 0);
}

#[test]
fn seeded_construction_is_repeatable() {
    let values: Vec<u32> = (0..150).map(|v| (v * 37) % 151).collect();
    let data = points(&values);
    let indices: Vec<usize> = (0..150).collect();
    let a = Cluster::new(&data, Some(11), vec![true], 0, &indices);
    let b = Cluster::new(&data, Some(11), vec![true], 0, &indices);
    assert_eq!(a.arg_center, b.arg_center);
    assert_eq!(a.arg_radial, b.arg_radial);
    assert_eq!(a.radius, b.radius);
    let r = Cluster::new_root(&data, &indices, Some(11));
    assert_eq!(r.arg_center, a.arg_center);
    assert_eq!(r.arg_radial, a.arg_radial);
    assert_eq!(r.radius, a.radius);
    assert_eq!(data.choose_unique(12, &indices, Some(5)), data.choose_unique(12, &indices, Some(5)));
}

#[test]
fn max_leaf_depth_is_depth_only_at_leaves() {
    let mut data = points(&[0, 1, 2, 3]);
    let indices = data.indices().to_vec();
    let criteria = PartitionCriteria::new(true).with_min_cardinality(1);
    let root = Cluster::new_root(&data, &indices, None).partition(&mut data, &criteria);
    for c in root.subtree() {
        assert_eq!(c.max_leaf_depth() == c.depth(), c.is_leaf());
        assert!(c.max_leaf_depth() >= c.depth());
    }
}

#[test]
fn sorting_lists_the_tree_level_by_level() {
    let mut data = points(&[0, 1, 2, 3]);
    let indices = data.indices().to_vec();
    let criteria = PartitionCriteria::new(true).with_min_cardinality(1);
    let root = Cluster::new_root(&data, &indices, None).partition(&mut data, &criteria);
    let mut all = root.subtree();
    all.sort_by(|a, b| Cluster::cmp(a, b));
    let names: Vec<String> = all.iter().map(|c| c.name()).collect();
    assert_eq!(names, vec!["1", "2", "3", "4", "5", "6", "7"]);
}

#[test]
fn readable_names() {
    assert!(Cluster::is_readable_name("1"));
    assert!(Cluster::is_readable_name("1f"));
    assert!(!Cluster::is_readable_name(""));
    assert!(!Cluster::is_readable_name("1/"));
    assert!(!Cluster::is_readable_name("\u{e9}1"));
}

#[test]
fn poles_lie_within_twice_the_radius() {
    let mut data = points(&[0, 1, 2, 10, 11, 12, 13, 40, 41]);
    let indices = data.indices().to_vec();
    let criteria = PartitionCriteria::new(true).with_min_cardinality(1);
    let root = Cluster::new_root(&data, &indices, None).partition(&mut data, &criteria);
    for c in root.subtree() {
        if let Some(p) = c.polar_distance() {
            assert!(p <= 2 * c.radius);
        }
    }
}

#[test]
fn overlapping_children_weighs_the_polar_distance() {
    // poles at 0 (left) and 2 (right), 2 apart; query 10 is 10 and 8 away
    let data = points(&[0, 2]);
    let mut c = leaf(vec![true], 0, 2, 1);
    c.children = Some(Children {
        left: Box::new(leaf(vec![true, false], 0, 1, 0)),
        right: Box::new(leaf(vec![true, true], 1, 1, 0)),
        arg_l: 0,
        arg_r: 1,
        polar_distance: 2,
    });
    // (10 + 8) * (10 - 8) = 36 > 2 * 2 * 1 = 4: only the right child
    let v = c.overlapping_children(&data, &[10], 1);
    assert_eq!(v.len(), 1);
    assert!(*v[0] == *c.children.as_ref().unwrap().right);
    // 36 <= 2 * 2 * 9 = 36: both
    assert_eq!(c.overlapping_children(&data, &[10], 9).len(), 2);
}
