//! The observation codec round-trips through its packed integer form.

use holdem_blueprint::cards::card::Card;
use holdem_blueprint::cards::hand::Hand;
use holdem_blueprint::cards::observation::Observation;
use holdem_blueprint::cards::street::Street;
use rand::Rng;

fn random_river_observation() -> Observation {
    let mut rng = rand::thread_rng();
    let mut ids: Vec<u8> = Vec::new();
    while ids.len() < 7 {
        let c: u8 = rng.gen_range(0..52);
        if !ids.contains(&c) {
            ids.push(c);
        }
    }
    let mut pocket = Hand::empty();
    let mut public = Hand::empty();
    for (k, id) in ids.iter().enumerate() {
        if k < 2 {
            pocket = pocket.with(Card::new(*id));
        } else {
            public = public.with(Card::new(*id));
        }
    }
    Observation::new(pocket, public)
}

#[test]
fn bijective_i64() {
    let random = random_river_observation();
    assert!(random == Observation::decode(random.encode()));
}

#[test]
fn encode_is_injective_across_draws() {
    for _ in 0..32 {
        let a = random_river_observation();
        let b = random_river_observation();
        if a != b {
            assert_ne!(a.encode(), b.encode());
        }
    }
}

#[test]
fn street_follows_board_size() {
    let o = random_river_observation();
    assert_eq!(o.street(), Street::Rive);
    let pocket = o.pocket();
    let preflop = Observation::new(pocket, Hand::empty());
    assert_eq!(preflop.street(), Street::Pref);
}

#[test]
fn children_extend_the_board() {
    let o = random_river_observation();
    let pocket = o.pocket();
    let turnish = {
        // drop one public card to sit on the turn
        let mut cards = o.public().cards();
        let last = cards.pop().unwrap();
        let public = o.public().without(last);
        Observation::new(pocket, public)
    };
    let kids = turnish.children();
    assert_eq!(kids.len(), 46);
    for kid in kids.iter() {
        assert_eq!(kid.street(), Street::Rive);
        assert_eq!(kid.pocket(), pocket);
    }
}
