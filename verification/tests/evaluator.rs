//! The evaluator against known hands, full deck and short deck.

use holdem_blueprint::cards::card::Card;
use holdem_blueprint::cards::evaluator::Evaluator;
use holdem_blueprint::cards::hand::Hand;
use holdem_blueprint::cards::rank::Rank;
use holdem_blueprint::cards::ranking::Ranking;

fn card_of(s: &str) -> Card {
    let mut chars = s.chars();
    let r = match chars.next().unwrap() {
        '2' => 0,
        '3' => 1,
        '4' => 2,
        '5' => 3,
        '6' => 4,
        '7' => 5,
        '8' => 6,
        '9' => 7,
        'T' => 8,
        'J' => 9,
        'Q' => 10,
        'K' => 11,
        'A' => 12,
        _ => panic!("bad rank"),
    };
    let s = match chars.next().unwrap() {
        'c' => 0,
        'd' => 1,
        'h' => 2,
        's' => 3,
        _ => panic!("bad suit"),
    };
    Card::new(4 * r + s)
}

fn hand_of(s: &str) -> Hand {
    let mut h = Hand::empty();
    for w in s.split_whitespace() {
        h = h.with(card_of(w));
    }
    h
}

fn eval(s: &str) -> Ranking {
    Evaluator::from_hand(hand_of(s)).find_ranking()
}

fn eval_short(s: &str) -> Ranking {
    Evaluator::shortdeck(hand_of(s)).find_ranking()
}

#[test]
fn high_card() {
    assert!(eval("As Kh Qd Jc 9s") == Ranking::HighCard(Rank::Ace));
}

#[test]
fn one_pair() {
    assert!(eval("As Ah Kd Qc Js") == Ranking::OnePair(Rank::Ace));
}

#[test]
fn two_pair() {
    assert!(eval("As Ah Kd Kc Qs") == Ranking::TwoPair(Rank::Ace, Rank::King));
}

#[test]
fn three_oak() {
    assert!(eval("As Ah Ad Kc Qs") == Ranking::ThreeOAK(Rank::Ace));
}

#[test]
fn straight() {
    assert!(eval("Ts Jh Qd Kc As") == Ranking::Straight(Rank::Ace));
}

#[test]
fn flush() {
    assert!(eval("As Ks Qs Js 9s") == Ranking::Flush(Rank::Ace));
}

#[test]
fn full_house() {
    assert!(eval("As Ah Ad Kc Ks") == Ranking::FullHouse(Rank::Ace, Rank::King));
}

#[test]
fn four_oak() {
    assert!(eval("As Ah Ad Ac Ks") == Ranking::FourOAK(Rank::Ace));
}

#[test]
fn straight_flush() {
    assert!(eval("Ts Js Qs Ks As") == Ranking::StraightFlush(Rank::Ace));
}

#[test]
fn wheel_straight() {
    assert!(eval("As 2h 3d 4c 5s") == Ranking::Straight(Rank::Five));
}

#[test]
fn shortdeck_wheel_straight() {
    assert_eq!(eval_short("6s 7h 8d 9c As"), Ranking::Straight(Rank::Nine));
}

#[test]
fn wheel_straight_flush() {
    assert!(eval("As 2s 3s 4s 5s") == Ranking::StraightFlush(Rank::Five));
}

#[test]
fn evaluator_wheel_straight_flush() {
    assert!(eval_short("As 6s 7s 8s 9s") == Ranking::StraightFlush(Rank::Nine));
}

#[test]
fn seven_card_hand() {
    assert!(eval("As Ah Kd Kc Qs Jh 9d") == Ranking::TwoPair(Rank::Ace, Rank::King));
}

#[test]
fn flush_over_straight() {
    assert!(eval("4h 6h 7h 8h 9h Ts") == Ranking::Flush(Rank::Nine));
}

#[test]
fn full_house_over_flush() {
    assert!(eval("Kh Ah Ad As Ks Qs Js") == Ranking::FullHouse(Rank::Ace, Rank::King));
}

#[test]
fn four_oak_over_full_house() {
    assert!(eval("As Ah Ad Ac Ks Kh Qd") == Ranking::FourOAK(Rank::Ace));
}

#[test]
fn straight_flush_over_four_oak() {
    assert!(eval("Ts Js Qs Ks As Ah Ad") == Ranking::StraightFlush(Rank::Ace));
}

#[test]
fn low_straight() {
    assert!(eval("As 2s 3h 4d 5c 6s") == Ranking::Straight(Rank::Six));
}

#[test]
fn three_pair() {
    assert!(eval("As Ah Kd Kc Qs Qh Jd") == Ranking::TwoPair(Rank::Ace, Rank::King));
}

#[test]
fn two_three_oak() {
    assert!(eval("As Ah Ad Kc Ks Kh Qd") == Ranking::FullHouse(Rank::Ace, Rank::King));
}

#[test]
fn kickers_of_a_pair() {
    let h = hand_of("As Ah Kd Qc Js");
    let e = Evaluator::from_hand(h);
    let ranking = e.find_ranking();
    let kicks = e.find_kickers(ranking);
    // ranks King, Queen, Jack kick: bits 11, 10, 9
    assert_eq!(kicks.mask, (1 << 11) | (1 << 10) | (1 << 9));
}

#[test]
fn strength_orders_by_category_then_kickers() {
    let better = Evaluator::from_hand(hand_of("As Ah Kd Qc Js")).strength();
    let worse = Evaluator::from_hand(hand_of("Ks Kh Ad Qc Js")).strength();
    assert!(better.value() > worse.value());
    let hi = Evaluator::from_hand(hand_of("As Kh Qd Jc 9s")).strength();
    let lo = Evaluator::from_hand(hand_of("As Kh Qd Jc 8s")).strength();
    assert!(hi.value() > lo.value());
}
