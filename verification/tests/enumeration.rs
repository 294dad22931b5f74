//! Street enumeration and the sampling decision functions.

use holdem_blueprint::cards::observation::Observation;
use holdem_blueprint::cards::street::Street;
use holdem_blueprint::mccfr::sampling::explore_any_index;
use holdem_blueprint::mccfr::sampling::explore_one_index;

#[test]
fn exhaust_walks_preflop_pockets() {
    let mut it = Observation::exhaust(Street::Pref);
    let mut count = 0usize;
    while let Some(o) = it.next() {
        assert_eq!(o.street(), Street::Pref);
        count += 1;
    }
    // every unordered pair of two cards, each with an empty board
    assert_eq!(count, 52 * 51 / 2);
}

#[test]
fn exhaust_boards_follow_the_street() {
    let mut it = Observation::exhaust(Street::Flop);
    let first = it.next().expect("the flop space is not empty");
    assert_eq!(first.street(), Street::Flop);
    assert_eq!(first.public().count(), 3);
}

#[test]
fn chance_sampling_reduces_the_draw() {
    assert_eq!(explore_any_index(7, 3), 1);
    assert_eq!(explore_any_index(9, 3), 0);
}

#[test]
fn weighted_sampling_lands_in_the_window() {
    let weights = vec![0u64, 5, 0, 5];
    // draws 0..4 pick index 1; draws 5..9 pick index 3; never 0 or 2
    assert_eq!(explore_one_index(0, &weights), 1);
    assert_eq!(explore_one_index(4, &weights), 1);
    assert_eq!(explore_one_index(5, &weights), 3);
    assert_eq!(explore_one_index(19, &weights), 3);
}
