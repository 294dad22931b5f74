//! River equity counting and bucketing.

use holdem_blueprint::cards::card::Card;
use holdem_blueprint::cards::hand::Hand;
use holdem_blueprint::cards::observation::equity_bucket;
use holdem_blueprint::cards::observation::Observation;
use holdem_blueprint::EQUITIES;

fn card_of(s: &str) -> Card {
    let mut chars = s.chars();
    let r = match chars.next().unwrap() {
        '2' => 0,
        '3' => 1,
        '4' => 2,
        '5' => 3,
        '6' => 4,
        '7' => 5,
        '8' => 6,
        '9' => 7,
        'T' => 8,
        'J' => 9,
        'Q' => 10,
        'K' => 11,
        'A' => 12,
        _ => panic!("bad rank"),
    };
    let s = match chars.next().unwrap() {
        'c' => 0,
        'd' => 1,
        'h' => 2,
        's' => 3,
        _ => panic!("bad suit"),
    };
    Card::new(4 * r + s)
}

fn hand_of(s: &str) -> Hand {
    let mut h = Hand::empty();
    for w in s.split_whitespace() {
        h = h.with(card_of(w));
    }
    h
}

#[test]
fn the_nuts_win_every_decided_matchup() {
    // hero holds a royal flush using both pocket cards
    let pocket = hand_of("As Ks");
    let public = hand_of("Qs Js Ts 2d 7c");
    let o = Observation::new(pocket, public);
    let (wins, decided) = o.equity();
    // 45 unseen cards leave 990 opponent pockets, none of which ties
    assert_eq!(decided, 990);
    assert_eq!(wins, 990);
    assert_eq!(equity_bucket(wins, decided, EQUITIES), EQUITIES - 1);
}

#[test]
fn a_dominated_board_splits_matchups() {
    // hero plays the board's straight; many opponents tie, some win
    let pocket = hand_of("2c 2d");
    let public = hand_of("9s Ts Jh Qd Kc");
    let o = Observation::new(pocket, public);
    let (wins, decided) = o.equity();
    assert!(wins < decided);
    assert!(decided < 990);
}

#[test]
fn equity_buckets_cover_the_range() {
    assert_eq!(equity_bucket(0, 10, EQUITIES), 0);
    assert_eq!(equity_bucket(5, 10, EQUITIES), EQUITIES / 2);
    assert_eq!(equity_bucket(10, 10, EQUITIES), EQUITIES - 1);
    // an all-tie river sits in the middle bucket
    assert_eq!(equity_bucket(0, 0, EQUITIES), EQUITIES / 2);
}
