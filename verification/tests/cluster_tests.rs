use abd_clam::{Cluster, Metric, PartitionCriteria, SerializedCluster, VecDataset};
use rand::distributions::{Bernoulli, Distribution};
use rand::{Rng, SeedableRng};

/// Four points on the diagonal.
fn diagonal_data() -> VecDataset {
    let data: Vec<Vec<u32>> = vec![vec![0, 0, 0], vec![1, 1, 1], vec![2, 2, 2], vec![3, 3, 3]];
    VecDataset::new("test".to_string(), data, Metric::Manhattan)
}

/// Eight points on a line, multiplied by ten and shifted by 50 so that they
/// are non-negative integers.
fn line_data() -> VecDataset {
    let points: Vec<i64> = vec![100, 10, -50, 80, 30, 20, 5, 0];
    let data: Vec<Vec<u32>> = points.iter().map(|&p| vec![(p + 50) as u32]).collect();
    VecDataset::new("test".to_string(), data, Metric::Manhattan)
}

#[test]
fn test_cluster() {
    let mut data = diagonal_data();
    let indices = data.indices().to_vec();
    let partition_criteria = PartitionCriteria::new(true).with_max_depth(3).with_min_cardinality(1);
    let root = Cluster::new_root(&data, &indices, Some(42)).partition(&mut data, &partition_criteria);

    assert!(!root.is_leaf());
    assert!(root.children().is_some());

    assert_eq!(root.depth(), 0);
    assert_eq!(root.cardinality, 4);
    assert_eq!(root.subtree().len(), 7);
    assert!(root.radius > 0);

    assert_eq!(root.name(), "1");

    let Some([left, right]) = root.children() else {
        unreachable!("The root cluster has children.")
    };
    assert_eq!(left.name(), "2");
    assert_eq!(right.name(), "3");

    for child in [left, right] {
        assert_eq!(child.depth(), 1);
        assert_eq!(child.cardinality, 2);
        assert_eq!(child.subtree().len(), 3);
    }

    let subtree = root.subtree();
    assert_eq!(
        subtree.len(),
        7,
        "The subtree of the root cluster should have 7 elements but had {}.",
        subtree.len()
    );
    for c in root.subtree() {
        let radius = data.one_to_one(c.arg_center, c.arg_radial);
        assert_eq!(
            radius,
            c.radius,
            "Radius must be equal to the distance to the farthest instance. {} had radius {} but distance {radius}.",
            c.name(),
            c.radius,
        );
    }
}

#[test]
fn test_leaf_indices() {
    let mut data = line_data();
    let partition_criteria = PartitionCriteria::new(true).with_max_depth(3).with_min_cardinality(1);

    let indices = data.indices().to_vec();
    let root = Cluster::new_root(&data, &indices, Some(42)).partition(&mut data, &partition_criteria);

    let mut leaf_indices = root.indices(&data).to_vec();
    leaf_indices.sort_unstable();

    assert_eq!(leaf_indices, data.indices());
}

#[test]
fn test_end_to_end_reordering() {
    let mut data = line_data();
    let partition_criteria = PartitionCriteria::new(true).with_max_depth(3).with_min_cardinality(1);

    let indices = data.indices().to_vec();
    let root = Cluster::new_root(&data, &indices, Some(42)).partition(&mut data, &partition_criteria);

    // Assert that the root's indices actually cover the whole dataset.
    assert_eq!(data.cardinality(), root.indices(&data).len());

    // Assert that the dataset's indices have been reordered in depth-first order
    assert_eq!((0..data.cardinality()).collect::<Vec<usize>>(), data.indices());
}

#[test]
fn cluster() {
    let (dimensionality, min_val, max_val) = (10, 0_u32, 1_000_u32);
    let seed = 42;

    let mut rng = rand_chacha::ChaCha8Rng::seed_from_u64(seed);
    let data: Vec<Vec<u32>> = (0..10_000)
        .map(|_| (0..dimensionality).map(|_| rng.gen_range(min_val..=max_val)).collect())
        .collect();
    let mut data = VecDataset::new("test".to_string(), data, Metric::Manhattan);
    let indices = data.indices().to_vec();
    let partition_criteria = PartitionCriteria::new(true).with_min_cardinality(1);

    let root = Cluster::new_root(&data, &indices, Some(seed)).partition(&mut data, &partition_criteria);

    for c in root.subtree() {
        assert!(c.cardinality > 0, "Cardinality must be positive.");

        let radius = data.one_to_one(c.arg_center, c.arg_radial);
        assert_eq!(
            radius, c.radius,
            "Radius must be equal to the distance to the farthest instance. {} had radius {} but distance {radius}.",
            c.name(),
            c.radius,
        );
    }
}

/// The fields of a serialized cluster without children as a JSON object.
fn serialized_to_json(s: &SerializedCluster) -> String {
    let mut m = serde_json::Map::new();
    m.insert("name".to_string(), serde_json::Value::from(s.name.clone()));
    m.insert("seed".to_string(), serde_json::Value::from(s.seed));
    m.insert("offset".to_string(), serde_json::Value::from(s.offset));
    m.insert("cardinality".to_string(), serde_json::Value::from(s.cardinality));
    m.insert("arg_center".to_string(), serde_json::Value::from(s.arg_center));
    m.insert("arg_radial".to_string(), serde_json::Value::from(s.arg_radial));
    m.insert("radius_bytes".to_string(), serde_json::Value::from(s.radius_bytes.clone()));
    m.insert("child_info".to_string(), serde_json::Value::Null);
    serde_json::to_string(&serde_json::Value::Object(m)).unwrap()
}

/// Reads a serialized cluster without children back from a JSON object.
fn serialized_from_json(text: &str) -> SerializedCluster {
    let v: serde_json::Value = serde_json::from_str(text).unwrap();
    let field = |k: &str| v.get(k).unwrap().as_u64().unwrap() as usize;
    assert!(v.get("child_info").unwrap().is_null());
    SerializedCluster {
        name: v.get("name").unwrap().as_str().unwrap().to_string(),
        seed: v.get("seed").unwrap().as_u64(),
        offset: field("offset"),
        cardinality: field("cardinality"),
        arg_center: field("arg_center"),
        arg_radial: field("arg_radial"),
        radius_bytes: v
            .get("radius_bytes")
            .unwrap()
            .as_array()
            .unwrap()
            .iter()
            .map(|b| b.as_u64().unwrap() as u8)
            .collect(),
        child_info: None,
    }
}

#[test]
fn test_basic() {
    let data = diagonal_data();
    let indices = data.indices().to_vec();
    let mut c1 = Cluster::new_root(&data, &indices, Some(42));
    c1.history = vec![true, true, false, false, true];

    let s1 = SerializedCluster::from_cluster(&c1);
    let s1_string = serialized_to_json(&s1);

    let s2: SerializedCluster = serialized_from_json(&s1_string);
    assert_eq!(s1.name, s2.name);
    assert_eq!(s1.seed, s2.seed);
    assert_eq!(s1.offset, s2.offset);
    assert_eq!(s1.cardinality, s2.cardinality);
    assert_eq!(s1.arg_center, s2.arg_center);
    assert_eq!(s1.arg_radial, s2.arg_radial);
    assert_eq!(s1.radius_bytes, s2.radius_bytes);

    let (c2, chls) = s2.into_partial_cluster();

    assert_eq!(s1.name, "19");
    assert_eq!(s1.radius_bytes, c1.radius.to_le_bytes().to_vec());
    assert_eq!(c1.seed, c2.seed);
    assert_eq!(c1.offset, c2.offset);
    assert_eq!(c1.cardinality, c2.cardinality);
    assert_eq!(c1.arg_center, c2.arg_center);
    assert_eq!(c1.arg_radial, c2.arg_radial);
    assert_eq!(c1.radius, c2.radius);

    assert!(c1 == c2);
    assert!(chls.is_none());
}

#[test]
fn test_history_to_name() {
    let d = Bernoulli::new(0.3).unwrap();

    for length in 1..800 {
        let mut hist = vec![true];

        for _ in 1..length {
            let b = d.sample(&mut rand::thread_rng());
            hist.push(b);
        }

        let name = Cluster::history_to_name(&hist);
        let recovered = Cluster::name_to_history(&name);
        assert_eq!(recovered, hist);
    }
}

#[test]
fn test_name_to_history() {
    let charset = "0123456789abcdef";
    let mut rng = rand::thread_rng();

    for length in 1..200 {
        // Randomly choose the first char. Must be nonzero
        let idx = rng.gen_range(1..charset.len());
        let c = charset.chars().nth(idx).unwrap();
        let mut name = String::from(c);

        // Randomly choose the remaining characters
        for _ in 1..length {
            let idx = rng.gen_range(0..charset.len());
            let c = charset.chars().nth(idx).unwrap();
            name.push(c);
        }

        let hist = Cluster::name_to_history(&name);
        let recovered_name = Cluster::history_to_name(&hist);

        assert_eq!(recovered_name, name);
    }
}
