//! The earth-mover metric on concrete histograms.

use holdem_blueprint::clustering::histogram::emd;
use holdem_blueprint::clustering::histogram::Histogram;

fn histogram(weights: Vec<u64>) -> Histogram {
    let mut h = Histogram::new(weights.len());
    for (bin, w) in weights.iter().enumerate() {
        for _ in 0..*w {
            h.tally(bin);
        }
    }
    h
}

#[test]
fn emd_is_symmetric() {
    let p = histogram(vec![3, 0, 1, 2]);
    let q = histogram(vec![0, 4, 1, 1]);
    assert_eq!(emd(&p, &q), emd(&q, &p));
}

#[test]
fn emd_of_identical_histograms_is_zero() {
    let p = histogram(vec![5, 2, 0, 7]);
    let q = histogram(vec![5, 2, 0, 7]);
    assert_eq!(emd(&p, &p), 0);
    assert_eq!(emd(&p, &q), 0);
}

#[test]
fn emd_grows_with_separation() {
    // all mass in bin 0 versus all mass one bin away, then three away
    let p = histogram(vec![6, 0, 0, 0]);
    let near = histogram(vec![0, 6, 0, 0]);
    let far = histogram(vec![0, 0, 0, 6]);
    let d_near = emd(&p, &near);
    let d_far = emd(&p, &far);
    assert!(d_near > 0);
    assert!(d_far > d_near);
}

#[test]
fn emd_exact_value_on_unit_masses() {
    // one unit at bin 0 against one unit at bin 2, over 3 bins:
    // cumulative differences are 1, 1, 0, each scaled by mass 1 * 1
    let p = histogram(vec![1, 0, 0]);
    let q = histogram(vec![0, 0, 1]);
    assert_eq!(emd(&p, &q), 2);
}

#[test]
fn absorb_adds_pointwise_and_clear_empties() {
    let mut p = histogram(vec![1, 2, 3]);
    let q = histogram(vec![4, 0, 1]);
    p.absorb(&q);
    assert_eq!(p.weights, vec![5, 2, 4]);
    p.clear();
    assert_eq!(p.weights, vec![0, 0, 0]);
}
