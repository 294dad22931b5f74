//! Side-pot settlement: chips are conserved and slices go to the best
//! live hands.

use holdem_blueprint::engine::seat::BetStatus;
use holdem_blueprint::gameplay::payout::Payout;
use holdem_blueprint::gameplay::showdown::Showdown;

fn settle(lines: Vec<Payout>) -> Vec<Payout> {
    Showdown::new(lines).payouts()
}

#[test]
fn showdown_sidepots() {
    let lines = vec![
        Payout::new(0, BetStatus::Playing, 10, 9),
        Payout::new(1, BetStatus::Playing, 20, 9),
        Payout::new(2, BetStatus::Playing, 20, 8),
    ];
    let out = settle(lines);
    // The two best hands split the 30-chip main pot; the deeper of the
    // two also takes the whole 20-chip side pot.
    assert_eq!(out[0].reward, 15);
    assert_eq!(out[1].reward, 35);
    assert_eq!(out[2].reward, 0);
    let staked: u32 = out.iter().map(|p| p.staked).sum();
    let reward: u32 = out.iter().map(|p| p.reward).sum();
    assert_eq!(staked, reward);
}

#[test]
fn showdown_split_with_odd_chip() {
    let lines = vec![
        Payout::new(0, BetStatus::Playing, 11, 9),
        Payout::new(1, BetStatus::Playing, 11, 9),
        Payout::new(2, BetStatus::Folded, 11, 0),
    ];
    let out = settle(lines);
    // 33 chips split two ways: the earlier seat takes the odd chip.
    assert_eq!(out[0].reward, 17);
    assert_eq!(out[1].reward, 16);
    assert_eq!(out[2].reward, 0);
}

#[test]
fn showdown_folded_never_wins() {
    let lines = vec![
        Payout::new(0, BetStatus::Folded, 5, 100),
        Payout::new(1, BetStatus::Playing, 5, 1),
    ];
    let out = settle(lines);
    assert_eq!(out[0].reward, 0);
    assert_eq!(out[1].reward, 10);
}

#[test]
fn showdown_conserves_chips() {
    let lines = vec![
        Payout::new(0, BetStatus::Playing, 7, 3),
        Payout::new(1, BetStatus::Shoved, 13, 5),
        Payout::new(2, BetStatus::Folded, 4, 0),
        Payout::new(3, BetStatus::Playing, 13, 5),
    ];
    let out = settle(lines);
    let staked: u32 = out.iter().map(|p| p.staked).sum();
    let reward: u32 = out.iter().map(|p| p.reward).sum();
    assert_eq!(staked, reward);
    assert_eq!(out[2].reward, 0);
}
