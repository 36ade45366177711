use linfa_nn::Distance;
use linfa_nn::L1Dist;
use linfa_nn::L2Dist;

#[test]
fn squared_euclidean_values() {
    let d = L2Dist;
    assert_eq!(d.rdistance(&vec![0, 0], &vec![3, 4]), 25);
    assert_eq!(d.rdistance(&vec![1, 2], &vec![1, 2]), 0);
    assert_eq!(d.rdistance(&vec![-2, -3], &vec![2, 3]), 52);
    assert_eq!(d.rdistance(&vec![i32::MIN], &vec![i32::MAX]), (u32::MAX as u128) * (u32::MAX as u128));
}

#[test]
fn euclidean_conversions_round_trip() {
    let d = L2Dist;
    assert_eq!(d.dist_to_rdist(5), 25);
    assert_eq!(d.rdist_to_dist(25), 5);
    // rounding down between perfect squares
    assert_eq!(d.rdist_to_dist(26), 5);
    assert_eq!(d.rdist_to_dist(35), 5);
    assert_eq!(d.rdist_to_dist(36), 6);
    assert_eq!(d.rdist_to_dist(0), 0);
}

#[test]
fn euclidean_sphere_bound() {
    let d = L2Dist;
    // query at reduced distance 100 (true 10) from a center of reduced
    // radius 4 (true 2): nothing inside can be nearer than true 8,
    // reduced 49 after rounding the bound down through the grid
    assert_eq!(d.sphere_lb(100, 4), 49);
    // inside the sphere the bound collapses to zero
    assert_eq!(d.sphere_lb(4, 100), 0);
    assert_eq!(d.sphere_lb(0, 0), 0);
}

#[test]
fn manhattan_values_and_bound() {
    let d = L1Dist;
    assert_eq!(d.rdistance(&vec![0, 0], &vec![3, 4]), 7);
    assert_eq!(d.rdistance(&vec![-1, -1], &vec![1, 1]), 4);
    assert_eq!(d.dist_to_rdist(9), 9);
    assert_eq!(d.rdist_to_dist(9), 9);
    assert_eq!(d.sphere_lb(10, 3), 7);
    assert_eq!(d.sphere_lb(3, 10), 0);
}
