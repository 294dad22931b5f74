//! The clustering assignment step on concrete histograms.

use holdem_blueprint::clustering::histogram::Histogram;
use holdem_blueprint::clustering::layer::kmeans_assign;
use holdem_blueprint::clustering::layer::kmeanspp_weights;
use holdem_blueprint::clustering::layer::lloyd_step;
use holdem_blueprint::clustering::layer::nearest;

fn histogram(weights: Vec<u64>) -> Histogram {
    let mut h = Histogram::new(weights.len());
    for (bin, w) in weights.iter().enumerate() {
        for _ in 0..*w {
            h.tally(bin);
        }
    }
    h
}

#[test]
fn points_go_to_their_nearest_centroid() {
    let centroids = vec![histogram(vec![4, 0, 0]), histogram(vec![0, 0, 4])];
    let points = vec![
        histogram(vec![3, 1, 0]),
        histogram(vec![0, 1, 3]),
        histogram(vec![4, 0, 0]),
    ];
    let assignment = kmeans_assign(&points, &centroids, 3);
    assert_eq!(assignment, vec![0, 1, 0]);
}

#[test]
fn ties_break_toward_the_lowest_centroid() {
    let centroids = vec![histogram(vec![2, 2]), histogram(vec![2, 2])];
    let point = histogram(vec![1, 3]);
    assert_eq!(nearest(&point, &centroids), 0);
}

#[test]
fn seeding_weights_square_the_nearest_distance() {
    let chosen = vec![histogram(vec![2, 0]), histogram(vec![0, 2])];
    let points = vec![histogram(vec![2, 0]), histogram(vec![1, 1])];
    let w = kmeanspp_weights(&points, &chosen, 2);
    // a point sitting on a centroid has zero weight
    assert_eq!(w[0], 0);
    assert!(w[1] > 0);
}

#[test]
fn lloyd_step_sums_assigned_points_and_keeps_empty_centroids() {
    let centroids = vec![histogram(vec![4, 0]), histogram(vec![0, 4]), histogram(vec![2, 2])];
    let points = vec![histogram(vec![3, 0]), histogram(vec![4, 1]), histogram(vec![0, 3])];
    let assign = kmeans_assign(&points, &centroids, 2);
    let next = lloyd_step(&points, &centroids, &assign, 2);
    assert_eq!(next[0].weights, vec![7, 1]);
    assert_eq!(next[1].weights, vec![0, 3]);
    // nothing was assigned to the third centroid: it keeps its histogram
    assert_eq!(next[2].weights, vec![2, 2]);
}
