use linfa_nn::BallTree;
use linfa_nn::BallTreeBuilder;
use linfa_nn::BuildError;
use linfa_nn::L1Dist;
use linfa_nn::L2Dist;
use linfa_nn::NnError;
use linfa_nn::PointBatch;
use linfa_nn::calc_radius;
use linfa_nn::centroid;
use linfa_nn::partition;

fn batch_of(rows: &[&[i32]]) -> PointBatch {
    let ncols = if rows.is_empty() { 0 } else { rows[0].len() };
    let mut data: Vec<i32> = Vec::new();
    for r in rows {
        assert_eq!(r.len(), ncols);
        data.extend_from_slice(r);
    }
    PointBatch::from_shape_vec(rows.len(), ncols, data).unwrap()
}

fn points_of(rows: &[&[i32]]) -> Vec<Vec<i32>> {
    rows.iter().map(|r| r.to_vec()).collect()
}

/// Squared Euclidean distance, for brute-force cross-checks.
fn sq_dist(a: &[i32], b: &[i32]) -> u128 {
    a.iter()
        .zip(b.iter())
        .map(|(x, y)| {
            let d = (*x as i64 - *y as i64) as i128;
            (d * d) as u128
        })
        .sum()
}

fn assert_partition(
    input: &[&[i32]],
    exp_left: &[&[i32]],
    exp_med: &[i32],
    exp_right: &[&[i32]],
    exp_rad: u128,
) {
    let points = points_of(input);
    let idxs: Vec<usize> = (0..points.len()).collect();
    let (l, mid, r) = partition(&points, idxs);
    let mut left: Vec<Vec<i32>> = l.iter().map(|&i| points[i].clone()).collect();
    let mut right: Vec<Vec<i32>> = r.iter().map(|&i| points[i].clone()).collect();
    let mut exp_l: Vec<Vec<i32>> = exp_left.iter().map(|s| s.to_vec()).collect();
    let mut exp_r: Vec<Vec<i32>> = exp_right.iter().map(|s| s.to_vec()).collect();
    left.sort();
    right.sort();
    exp_l.sort();
    exp_r.sort();
    assert_eq!(left, exp_l);
    assert_eq!(points[mid], exp_med.to_vec());
    assert_eq!(right, exp_r);
    let all: Vec<usize> = (0..points.len()).collect();
    let med_row = points[mid].clone();
    assert_eq!(calc_radius(&points, &all, &med_row, &L2Dist), exp_rad);
}

#[test]
fn partition_test() {
    // partition 2 elements
    assert_partition(
        &[&[0, 1], &[2, 3]],
        &[&[0, 1]],
        &[2, 3],
        &[&[2, 3]],
        8,
    );
    assert_partition(
        &[&[2, 3], &[0, 1]],
        &[&[0, 1]],
        &[2, 3],
        &[&[2, 3]],
        8,
    );

    // Partition along the dimension with highest spread (coordinates on a
    // tenth-unit grid, reduced distances scaled by a hundred)
    assert_partition(
        &[&[3, 50], &[45, 70], &[81, 15]],
        &[&[3, 50]],
        &[45, 70],
        &[&[45, 70], &[81, 15]],
        4321,
    );

    // Degenerate data
    assert_partition(
        &[&[14, 43], &[14, 43], &[14, 43], &[14, 43]],
        &[&[14, 43]],
        &[14, 43],
        &[&[14, 43], &[14, 43], &[14, 43]],
        0,
    );
}

#[test]
fn single_leaf_centroid_and_radius() {
    // two points, leaf size 2: one leaf, centroid at the mean, radius the
    // reduced distance from the centroid to each corner
    let points = points_of(&[&[0, 1], &[2, 3]]);
    let idxs: Vec<usize> = vec![0, 1];
    let c = centroid(&points, &idxs, 2);
    assert_eq!(c, vec![1, 2]);
    assert_eq!(calc_radius(&points, &idxs, &c, &L2Dist), 2);

    let tree = BallTree::new(&batch_of(&[&[0, 1], &[2, 3]]), 2, L2Dist).unwrap();
    let res = tree.k_nearest(&vec![0, 1], 1).unwrap();
    assert_eq!(res, vec![0]);
    assert_eq!(sq_dist(&[0, 1], &[0, 1]), 0);
}

#[test]
fn two_separated_clusters() {
    // two tight clusters; a small ball around the origin must only ever
    // see the first one
    let rows: &[&[i32]] = &[&[0, 0], &[1, 1], &[2, 0], &[100, 100], &[101, 99], &[99, 101]];
    let tree = BallTree::new(&batch_of(rows), 1, L2Dist).unwrap();
    let res = tree.within_range(&vec![0, 0], 5).unwrap();
    assert_eq!(res, vec![0, 1, 2]);
}

#[test]
fn k_nearest_returns_all_sorted() {
    let rows: &[&[i32]] = &[&[5, 5], &[-3, 4], &[0, 0], &[10, -2], &[1, 1], &[-7, -7]];
    let tree = BallTree::new(&batch_of(rows), 2, L2Dist).unwrap();
    let q = vec![1, 0];
    let res = tree.k_nearest(&q, tree.len()).unwrap();
    assert_eq!(res.len(), rows.len());
    let mut seen: Vec<usize> = res.clone();
    seen.sort();
    assert_eq!(seen, vec![0, 1, 2, 3, 4, 5]);
    for w in res.windows(2) {
        assert!(sq_dist(&q, rows[w[0]]) <= sq_dist(&q, rows[w[1]]));
    }
}

#[test]
fn k_nearest_truncates_and_orders() {
    let rows: &[&[i32]] = &[&[9, 9], &[1, 0], &[0, 2], &[-4, 0], &[3, 3]];
    let tree = BallTree::new(&batch_of(rows), 1, L2Dist).unwrap();
    let res = tree.k_nearest(&vec![0, 0], 3).unwrap();
    assert_eq!(res.len(), 3);
    assert_eq!(res[0], 1);
    assert_eq!(res[1], 2);
    assert_eq!(res[2], 3);
}

#[test]
fn within_range_matches_linear_scan() {
    // a fixed scattering of points; cross-check the range query against a
    // brute-force scan at several radii around several centers
    let rows: Vec<Vec<i32>> = vec![
        vec![0, 0],
        vec![3, 4],
        vec![-5, 12],
        vec![7, -1],
        vec![2, 2],
        vec![-3, -4],
        vec![8, 8],
        vec![1, -9],
        vec![-6, 5],
        vec![4, 4],
        vec![0, 7],
        vec![-2, -2],
    ];
    let row_refs: Vec<&[i32]> = rows.iter().map(|r| r.as_slice()).collect();
    let tree = BallTree::new(&batch_of(&row_refs), 2, L2Dist).unwrap();
    for q in [[0i32, 0], [3, 3], [-4, 6]] {
        for r in [0u64, 2, 5, 9, 15] {
            let mut got = tree.within_range(&q.to_vec(), r).unwrap();
            got.sort();
            let mut want: Vec<usize> = (0..rows.len())
                .filter(|&i| sq_dist(&q, &rows[i]) <= (r as u128) * (r as u128))
                .collect();
            want.sort();
            assert_eq!(got, want);
        }
    }
}

#[test]
fn within_range_includes_boundary() {
    // a point at exactly the query radius is part of the answer
    let tree = BallTree::new(&batch_of(&[&[3, 4], &[30, 40]]), 1, L2Dist).unwrap();
    let res = tree.within_range(&vec![0, 0], 5).unwrap();
    assert_eq!(res, vec![0]);
}

#[test]
fn empty_index_answers_empty() {
    let batch = PointBatch::from_shape_vec(0, 2, vec![]).unwrap();
    let tree = BallTree::new(&batch, 4, L2Dist).unwrap();
    assert_eq!(tree.len(), 0);
    assert_eq!(tree.k_nearest(&vec![1, 2], 10).unwrap(), Vec::<usize>::new());
    assert_eq!(tree.within_range(&vec![1, 2], 1000).unwrap(), Vec::<usize>::new());
}

#[test]
fn zero_neighbours_requested() {
    let tree = BallTree::new(&batch_of(&[&[1, 2], &[3, 4]]), 2, L2Dist).unwrap();
    assert_eq!(tree.k_nearest(&vec![0, 0], 0).unwrap(), Vec::<usize>::new());
}

#[test]
fn wrong_dimension_is_rejected_and_harmless() {
    let tree = BallTree::new(&batch_of(&[&[0, 1], &[2, 3]]), 2, L2Dist).unwrap();
    assert_eq!(tree.k_nearest(&vec![0, 1, 2], 1), Err(NnError::WrongDimension));
    assert_eq!(tree.within_range(&vec![7], 3), Err(NnError::WrongDimension));
    // the index stays valid for correctly-shaped queries
    assert_eq!(tree.k_nearest(&vec![0, 1], 1).unwrap(), vec![0]);
}

#[test]
fn batch_shape_must_be_allocatable() {
    // a shape whose non-zero axis product overflows ndarray's allocation
    // bound is refused even when it has no elements at all
    assert!(PointBatch::from_shape_vec(0, usize::MAX, vec![]).is_none());
    assert!(PointBatch::from_shape_vec(usize::MAX, 0, vec![]).is_none());
    // and a mismatched element count is refused
    assert!(PointBatch::from_shape_vec(2, 2, vec![1, 2, 3]).is_none());
}

#[test]
fn zero_columns_fail_construction() {
    let batch = PointBatch::from_shape_vec(0, 0, vec![]).unwrap();
    match BallTree::new(&batch, 4, L2Dist) {
        Err(BuildError::ZeroDimension) => {}
        _ => panic!("expected a zero-dimension error"),
    }
}

#[test]
fn identical_points_build_and_answer() {
    // fully degenerate input: construction terminates and queries see
    // every copy
    let p: [i32; 2] = [14, 43];
    let rows: Vec<&[i32]> = (0..9).map(|_| &p[..]).collect();
    let tree = BallTree::new(&batch_of(&rows), 2, L2Dist).unwrap();
    let mut res = tree.k_nearest(&vec![14, 43], 9).unwrap();
    res.sort();
    assert_eq!(res, (0..9).collect::<Vec<usize>>());
    assert_eq!(tree.within_range(&vec![14, 43], 0).unwrap().len(), 9);
}

#[test]
fn manhattan_metric_queries() {
    let rows: &[&[i32]] = &[&[0, 0], &[2, 1], &[-1, -1], &[4, 4], &[6, 0]];
    let tree = BallTree::new(&batch_of(rows), 1, L1Dist).unwrap();
    let mut res = tree.within_range(&vec![0, 0], 3).unwrap();
    res.sort();
    // Manhattan distances: 0, 3, 2, 8, 6
    assert_eq!(res, vec![0, 1, 2]);
    let near = tree.k_nearest(&vec![5, 0], 2).unwrap();
    assert_eq!(near.len(), 2);
    assert_eq!(near[0], 4);
    assert_eq!(near[1], 1);
}

#[test]
fn builder_uses_default_leaf_size() {
    let rows: &[&[i32]] = &[&[0, 0], &[1, 0], &[0, 1], &[5, 5], &[9, 9]];
    let builder = BallTreeBuilder::new();
    let tree = builder.from_batch(&batch_of(rows), L2Dist).unwrap();
    let res = tree.k_nearest(&vec![0, 0], 2).unwrap();
    assert_eq!(res[0], 0);
    assert!(res[1] == 1 || res[1] == 2);
}

#[test]
fn larger_grid_brute_force_check() {
    // a 6x5 grid, deep enough to exercise branching and pruning
    let mut rows: Vec<Vec<i32>> = Vec::new();
    for x in 0..6i32 {
        for y in 0..5i32 {
            rows.push(vec![x * 7 - 20, y * 11 - 22]);
        }
    }
    let row_refs: Vec<&[i32]> = rows.iter().map(|r| r.as_slice()).collect();
    let tree = BallTree::new(&batch_of(&row_refs), 2, L2Dist).unwrap();
    let q = vec![-1, 3];
    for k in [1usize, 3, 7, 30] {
        let res = tree.k_nearest(&q, k).unwrap();
        assert_eq!(res.len(), k.min(rows.len()));
        // sorted by true distance
        for w in res.windows(2) {
            assert!(sq_dist(&q, &rows[w[0]]) <= sq_dist(&q, &rows[w[1]]));
        }
        // nothing omitted is closer than the worst reported
        if res.len() == k {
            let worst = sq_dist(&q, &rows[res[k - 1]]);
            for i in 0..rows.len() {
                if !res.contains(&i) {
                    assert!(sq_dist(&q, &rows[i]) >= worst);
                }
            }
        }
    }
}

#[test]
fn negative_coordinates_centroid() {
    // the centroid rounds toward zero on the grid
    let points = points_of(&[&[-3, 5], &[-4, 6]]);
    let idxs: Vec<usize> = vec![0, 1];
    let c = centroid(&points, &idxs, 2);
    assert_eq!(c, vec![-3, 5]);
}
