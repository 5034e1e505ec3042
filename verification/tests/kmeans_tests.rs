use kmeans::{
    assign_all, davis_bouldin_index, deterministic_kmeans, distance, dunn_index, partitions_equal,
    recompute_centroids, span_clusters, Centroid, ClusterError, Dataset,
};

fn square_dataset() -> Dataset {
    Dataset::new(vec![vec![0, 0], vec![0, 1], vec![10, 0], vec![10, 1]]).unwrap()
}

#[test]
fn distance_is_exact_squared_euclidean() {
    assert_eq!(distance(&vec![0, 0], &vec![3, 4]), 25);
    assert_eq!(distance(&vec![1, 2, 3], &vec![1, 2, 3]), 0);
    assert_eq!(distance(&vec![-2], &vec![2]), 16);
}

#[test]
fn seed_of_one_is_the_mean() {
    let d = square_dataset();
    let seeds = span_clusters(&d, 1).unwrap();
    assert_eq!(seeds.len(), 1);
    assert_eq!(seeds[0].sums, vec![20, 2]);
    assert_eq!(seeds[0].count, 4);
}

#[test]
fn seeding_breaks_ties_towards_the_first_vector() {
    let d = square_dataset();
    let seeds = span_clusters(&d, 2).unwrap();
    assert_eq!(seeds.len(), 2);
    assert_eq!(seeds[1].sums, vec![0, 0]);
    assert_eq!(seeds[1].count, 1);
}

#[test]
fn two_well_separated_groups_are_recovered() {
    let d = square_dataset();
    let p = deterministic_kmeans(&d, 2).unwrap();
    assert_eq!(p, vec![vec![2, 3], vec![0, 1]]);

    let dunn = dunn_index(&d, &p).unwrap();
    assert_eq!(dunn.num, 100);
    assert_eq!(dunn.den, 1);
    assert!(dunn.num > 0);

    let db = davis_bouldin_index(&d, &p).unwrap();
    assert!(db.den > 0);
    assert_eq!(db.num.checked_mul(200).unwrap(), db.den);
}

#[test]
fn result_is_a_true_partition() {
    let d = square_dataset();
    let p = deterministic_kmeans(&d, 3).unwrap();
    assert_eq!(p.len(), 3);
    let mut seen = vec![false; 4];
    let mut total = 0;
    for cl in &p {
        for &v in cl {
            assert!(v < 4);
            assert!(!seen[v]);
            seen[v] = true;
            total += 1;
        }
    }
    assert_eq!(total, 4);
}

#[test]
fn two_runs_return_identical_partitions() {
    let d = square_dataset();
    let p1 = deterministic_kmeans(&d, 2).unwrap();
    let p2 = deterministic_kmeans(&d, 2).unwrap();
    assert!(partitions_equal(&p1, &p2));
    assert_eq!(p1, p2);
}

#[test]
fn converged_partition_is_a_fixed_point() {
    let d = square_dataset();
    let p = deterministic_kmeans(&d, 2).unwrap();
    let cents = recompute_centroids(&d, &p);
    let again = assign_all(&d, &cents);
    assert!(partitions_equal(&p, &again));
}

#[test]
fn scaling_the_dataset_changes_no_assignment() {
    let rows = vec![vec![0, 0], vec![0, 1], vec![10, 0], vec![10, 1]];
    let scaled: Vec<Vec<i64>> = rows.iter().map(|r| r.iter().map(|x| x * 3).collect()).collect();
    let d1 = Dataset::new(rows).unwrap();
    let d2 = Dataset::new(scaled).unwrap();
    let p1 = deterministic_kmeans(&d1, 2).unwrap();
    let p2 = deterministic_kmeans(&d2, 2).unwrap();
    assert_eq!(p1, p2);
}

#[test]
fn one_cluster_per_distinct_vector_makes_dunn_degenerate() {
    let d = Dataset::new(vec![vec![0], vec![1], vec![2]]).unwrap();
    let p = deterministic_kmeans(&d, 3).unwrap();
    assert_eq!(p, vec![vec![1], vec![0], vec![2]]);
    for cl in &p {
        assert_eq!(cl.len(), 1);
    }
    assert_eq!(dunn_index(&d, &p), Err(ClusterError::DegenerateCluster));
}

#[test]
fn coincident_centroids_make_davis_bouldin_degenerate() {
    let d = Dataset::new(vec![vec![0], vec![0], vec![5]]).unwrap();
    let p = vec![vec![0], vec![1], vec![2]];
    assert_eq!(davis_bouldin_index(&d, &p), Err(ClusterError::DegenerateCluster));
}

#[test]
fn too_few_distinct_values_fail_initialization() {
    let d = Dataset::new(vec![vec![0], vec![0]]).unwrap();
    assert_eq!(span_clusters(&d, 2).map(|_| ()), Err(ClusterError::Initialization));
    assert_eq!(deterministic_kmeans(&d, 2), Err(ClusterError::Initialization));
}

#[test]
fn indices_need_at_least_two_clusters() {
    let d = Dataset::new(vec![vec![0], vec![7]]).unwrap();
    let p = vec![vec![0, 1]];
    assert_eq!(dunn_index(&d, &p), Err(ClusterError::InsufficientClusters));
    assert_eq!(davis_bouldin_index(&d, &p), Err(ClusterError::InsufficientClusters));
}

#[test]
fn dunn_with_an_empty_side_has_no_linkage_pair() {
    let d = Dataset::new(vec![vec![0], vec![7]]).unwrap();
    let p = vec![vec![0, 1], vec![]];
    assert_eq!(dunn_index(&d, &p), Err(ClusterError::DegenerateCluster));
}

#[test]
fn ragged_rows_are_a_dimension_mismatch() {
    assert_eq!(Dataset::new(vec![vec![1, 2], vec![3]]).map(|_| ()),
        Err(ClusterError::DimensionMismatch));
}

#[test]
fn out_of_range_input_is_rejected() {
    assert_eq!(Dataset::new(vec![]).map(|_| ()), Err(ClusterError::ValueOutOfRange));
    assert_eq!(Dataset::new(vec![vec![2_000_000]]).map(|_| ()),
        Err(ClusterError::ValueOutOfRange));
    assert_eq!(Dataset::new(vec![vec![-2_000_000]]).map(|_| ()),
        Err(ClusterError::ValueOutOfRange));
}

#[test]
fn empty_cluster_keeps_the_zero_vector_centroid() {
    let d = Dataset::new(vec![vec![2, 4], vec![4, 8]]).unwrap();
    let p = vec![vec![0, 1], vec![]];
    let cents = recompute_centroids(&d, &p);
    assert_eq!(cents.len(), 2);
    assert_eq!(cents[0].sums, vec![6, 12]);
    assert_eq!(cents[0].count, 2);
    assert_eq!(cents[1].sums, vec![0, 0]);
    assert_eq!(cents[1].count, 1);
}

#[test]
fn assignment_breaks_ties_towards_the_lowest_centroid_index() {
    let d = Dataset::new(vec![vec![0]]).unwrap();
    let cents = vec![
        Centroid { sums: vec![0], count: 1 },
        Centroid { sums: vec![0], count: 1 },
    ];
    let p = assign_all(&d, &cents);
    assert_eq!(p, vec![vec![0], vec![]]);
}

#[test]
fn partitions_equal_compares_membership_and_order() {
    let a = vec![vec![0, 1], vec![2]];
    let b = vec![vec![0, 1], vec![2]];
    let c = vec![vec![1, 0], vec![2]];
    let e = vec![vec![0, 1], vec![2], vec![]];
    assert!(partitions_equal(&a, &b));
    assert!(!partitions_equal(&a, &c));
    assert!(!partitions_equal(&a, &e));
}

#[test]
fn an_exact_intermediate_past_the_machine_word_is_reported() {
    let d = Dataset::new(vec![vec![0], vec![10_000], vec![20_000], vec![30_000], vec![40_000]])
        .unwrap();
    let p = vec![vec![0], vec![1], vec![2], vec![3], vec![4]];
    assert_eq!(davis_bouldin_index(&d, &p), Err(ClusterError::NumericOverflow));
}

#[test]
fn duplicates_split_across_clusters_give_a_zero_dunn_numerator() {
    let d = Dataset::new(vec![vec![0], vec![0], vec![5]]).unwrap();
    let p = vec![vec![0, 2], vec![1]];
    let dunn = dunn_index(&d, &p).unwrap();
    assert_eq!(dunn.num, 0);
    assert_eq!(dunn.den, 25);
}
