//! The hand evaluator: ranks a 5-to-7 card hand into an ordered strength.
//!
//! Every step is specified over the bitboard directly: how many cards of a
//! rank the hand holds, whether five consecutive ranks are present, and
//! which suit plane carries a flush.

use vstd::prelude::*;
use crate::cards::hand::Hand;
use crate::cards::hand::spec_size;
use crate::cards::hand::count_below;
use crate::cards::hand::spec_has;
use crate::cards::kicks::Kickers;
use crate::cards::rank::Rank;
use crate::cards::ranking::Ranking;
use crate::cards::suit::Suit;

verus! {

/// Which deck the table plays: the full 52-card deck, or the 36-card
/// short deck that drops ranks below Six. The deck only moves the wheel
/// straight: `A-2-3-4-5` in the full deck, `A-6-7-8-9` in the short one.
#[derive(Debug, Clone, Copy, PartialEq, Eq, Structural)]
pub enum DeckMode {
    Full,
    Short,
}

/// Does the hand hold the card of rank `r` and suit `s`?
pub open spec fn suited(h: Hand, r: int, s: int) -> bool {
    h.has((4 * r + s) as u64)
}

/// How many suits of rank `r` the hand holds.
pub open spec fn rank_count(h: Hand, r: int) -> int {
    (if suited(h, r, 0) {
        1int
    } else {
        0int
    }) + (if suited(h, r, 1) {
        1int
    } else {
        0int
    }) + (if suited(h, r, 2) {
        1int
    } else {
        0int
    }) + (if suited(h, r, 3) {
        1int
    } else {
        0int
    })
}

/// The highest rank strictly below `ceil` of which the hand holds at
/// least `n` cards.
pub open spec fn spec_oak_under(h: Hand, n: int, ceil: int) -> Option<int>
    decreases ceil,
{
    if ceil <= 0 {
        None
    } else if rank_count(h, ceil - 1) >= n {
        Some(ceil - 1)
    } else {
        spec_oak_under(h, n, ceil - 1)
    }
}

/// Five consecutive ranks ending at `hi` are all present.
pub open spec fn run_of_five(h: Hand, hi: int) -> bool {
    rank_count(h, hi) >= 1 && rank_count(h, hi - 1) >= 1 && rank_count(h, hi - 2) >= 1
        && rank_count(h, hi - 3) >= 1 && rank_count(h, hi - 4) >= 1
}

/// The highest straight ending strictly below `ceil`, ignoring the wheel.
pub open spec fn spec_straight_from(h: Hand, ceil: int) -> Option<int>
    decreases ceil,
{
    if ceil <= 4 {
        None
    } else if run_of_five(h, ceil - 1) {
        Some(ceil - 1)
    } else {
        spec_straight_from(h, ceil - 1)
    }
}

/// Does the hand hold the wheel, the lowest straight of the deck?
pub open spec fn spec_wheel(h: Hand, mode: DeckMode) -> bool {
    match mode {
        DeckMode::Full => rank_count(h, 12) >= 1 && rank_count(h, 0) >= 1 && rank_count(h, 1) >= 1
            && rank_count(h, 2) >= 1 && rank_count(h, 3) >= 1,
        DeckMode::Short => rank_count(h, 12) >= 1 && rank_count(h, 4) >= 1 && rank_count(h, 5)
            >= 1 && rank_count(h, 6) >= 1 && rank_count(h, 7) >= 1,
    }
}

/// The rank index of the wheel's high card.
pub open spec fn spec_wheel_rank(mode: DeckMode) -> int {
    match mode {
        DeckMode::Full => 3,
        DeckMode::Short => 7,
    }
}

/// The high rank of the best straight in the hand, the wheel included.
pub open spec fn spec_straight(h: Hand, mode: DeckMode) -> Option<int> {
    match spec_straight_from(h, 13) {
        Some(hi) => Some(hi),
        None => if spec_wheel(h, mode) {
            Some(spec_wheel_rank(mode))
        } else {
            None
        },
    }
}

/// The bit plane of one suit: the hand restricted to suit `s`.
pub open spec fn spec_plane(h: Hand, s: int) -> Hand {
    Hand { bits: h.spec_bits() & (0x1111111111111u64 << (s as u64)) }
}

/// The first suit, scanning from index `s` upward, of which the hand
/// holds at least five cards.
pub open spec fn spec_flush_from(h: Hand, s: int) -> Option<int>
    decreases 4 - s,
{
    if s >= 4 {
        None
    } else if spec_plane(h, s).size() >= 5 {
        Some(s)
    } else {
        spec_flush_from(h, s + 1)
    }
}

/// The suit of the flush, if any.
pub open spec fn spec_flush_suit(h: Hand) -> Option<int> {
    spec_flush_from(h, 0)
}

/// The rank with the given index.
pub open spec fn spec_rank_at(i: int) -> Rank {
    if i == 0 {
        Rank::Two
    } else if i == 1 {
        Rank::Three
    } else if i == 2 {
        Rank::Four
    } else if i == 3 {
        Rank::Five
    } else if i == 4 {
        Rank::Six
    } else if i == 5 {
        Rank::Seven
    } else if i == 6 {
        Rank::Eight
    } else if i == 7 {
        Rank::Nine
    } else if i == 8 {
        Rank::Ten
    } else if i == 9 {
        Rank::Jack
    } else if i == 10 {
        Rank::Queen
    } else if i == 11 {
        Rank::King
    } else {
        Rank::Ace
    }
}

/// The straight flush or flush carried by the flush suit, if any.
pub open spec fn spec_flush_ranking(h: Hand, mode: DeckMode) -> Option<Ranking> {
    match spec_flush_suit(h) {
        None => None,
        Some(s) => {
            let plane = spec_plane(h, s);
            match spec_straight(plane, mode) {
                Some(hi) => Some(Ranking::StraightFlush(spec_rank_at(hi))),
                None => match spec_oak_under(plane, 1, 13) {
                    Some(top) => Some(Ranking::Flush(spec_rank_at(top))),
                    None => None,
                },
            }
        },
    }
}

/// Four of a kind, if any.
pub open spec fn spec_quads_ranking(h: Hand) -> Option<Ranking> {
    match spec_oak_under(h, 4, 13) {
        Some(r) => Some(Ranking::FourOAK(spec_rank_at(r))),
        None => None,
    }
}

/// A full house: the best trips with a distinct pair below them.
pub open spec fn spec_house_ranking(h: Hand) -> Option<Ranking> {
    match spec_oak_under(h, 3, 13) {
        Some(t) => match spec_oak_under(h, 2, t) {
            Some(p) => Some(Ranking::FullHouse(spec_rank_at(t), spec_rank_at(p))),
            None => None,
        },
        None => None,
    }
}

/// The best straight, if any.
pub open spec fn spec_straight_ranking(h: Hand, mode: DeckMode) -> Option<Ranking> {
    match spec_straight(h, mode) {
        Some(hi) => Some(Ranking::Straight(spec_rank_at(hi))),
        None => None,
    }
}

/// Three of a kind, if any.
pub open spec fn spec_trips_ranking(h: Hand) -> Option<Ranking> {
    match spec_oak_under(h, 3, 13) {
        Some(r) => Some(Ranking::ThreeOAK(spec_rank_at(r))),
        None => None,
    }
}

/// Two pair, or one pair when no second pair exists below the first.
pub open spec fn spec_pairs_ranking(h: Hand) -> Option<Ranking> {
    match spec_oak_under(h, 2, 13) {
        Some(hi) => match spec_oak_under(h, 2, hi) {
            Some(lo) => Some(Ranking::TwoPair(spec_rank_at(hi), spec_rank_at(lo))),
            None => Some(Ranking::OnePair(spec_rank_at(hi))),
        },
        None => None,
    }
}

/// One pair, if any.
pub open spec fn spec_pair_ranking(h: Hand) -> Option<Ranking> {
    match spec_oak_under(h, 2, 13) {
        Some(r) => Some(Ranking::OnePair(spec_rank_at(r))),
        None => None,
    }
}

/// The bare high card, if the hand holds any card at all.
pub open spec fn spec_high_ranking(h: Hand) -> Option<Ranking> {
    match spec_oak_under(h, 1, 13) {
        Some(r) => Some(Ranking::HighCard(spec_rank_at(r))),
        None => None,
    }
}

/// The ranking of a hand: the first category that matches, trying
/// straight flush and flush, then quads, full house, straight, trips,
/// two pair, one pair, and high card, in that order. Resolving the
/// flush family first agrees with the strength order of categories on
/// hands of at most seven cards, where five suited cards leave no room
/// for quads or a full house; on wider hands the two orders can part.
pub open spec fn spec_ranking(h: Hand, mode: DeckMode) -> Ranking {
    match spec_flush_ranking(h, mode) {
        Some(v) => v,
        None => match spec_quads_ranking(h) {
            Some(v) => v,
            None => match spec_house_ranking(h) {
                Some(v) => v,
                None => match spec_straight_ranking(h, mode) {
                    Some(v) => v,
                    None => match spec_trips_ranking(h) {
                        Some(v) => v,
                        None => match spec_pairs_ranking(h) {
                            Some(v) => v,
                            None => match spec_high_ranking(h) {
                                Some(v) => v,
                                None => Ranking::HighCard(Rank::Two),
                            },
                        },
                    },
                },
            },
        },
    }
}

/// The rank indices a ranking consumes; kickers never repeat them.
pub open spec fn spec_consumed(v: Ranking, r: int) -> bool {
    match v {
        Ranking::HighCard(x) => r == x.spec_index(),
        Ranking::OnePair(x) => r == x.spec_index(),
        Ranking::ThreeOAK(x) => r == x.spec_index(),
        Ranking::FourOAK(x) => r == x.spec_index(),
        Ranking::TwoPair(hi, lo) => r == hi.spec_index() || r == lo.spec_index(),
        _ => true,
    }
}

/// How many kickers each ranking expects.
pub open spec fn spec_kicker_count(v: Ranking) -> int {
    match v {
        Ranking::HighCard(_) => 4,
        Ranking::OnePair(_) => 3,
        Ranking::ThreeOAK(_) => 2,
        Ranking::TwoPair(_, _) => 1,
        Ranking::FourOAK(_) => 1,
        _ => 0,
    }
}

/// Is rank `r` eligible to be a kicker for ranking `v` in hand `h`?
pub open spec fn spec_eligible(h: Hand, v: Ranking, r: int) -> bool {
    0 <= r < 13 && rank_count(h, r) >= 1 && !spec_consumed(v, r)
}

/// How many eligible ranks lie strictly above `r`.
pub open spec fn spec_eligible_above(h: Hand, v: Ranking, r: int) -> int
    decreases 13 - r,
{
    if r >= 12 {
        0
    } else {
        spec_eligible_above(h, v, r + 1) + if spec_eligible(h, v, r + 1) {
            1int
        } else {
            0int
        }
    }
}

/// Is rank `r` one of the kickers: eligible, with fewer than the
/// expected number of eligible ranks above it?
pub open spec fn spec_kicker(h: Hand, v: Ranking, r: int) -> bool {
    spec_eligible(h, v, r) && spec_eligible_above(h, v, r) < spec_kicker_count(v)
}

/// The kicker mask as a number, summing ranks from `r` upward.
pub open spec fn spec_kick_value_from(h: Hand, v: Ranking, r: int) -> int
    decreases 13 - r,
{
    if r >= 13 {
        0
    } else {
        spec_kick_value_from(h, v, r + 1) + if spec_kicker(h, v, r) {
            vstd::arithmetic::power2::pow2(r as nat) as int
        } else {
            0int
        }
    }
}

/// The numeric value of the kicker mask owed to ranking `v`.
pub open spec fn spec_kick_value(h: Hand, v: Ranking) -> int {
    spec_kick_value_from(h, v, 0)
}

/// The packed strength of a whole hand: the ranking's value with the
/// kicker mask below it. Integer `<` on this value is the full
/// strength order of hands.
pub open spec fn spec_strength_value(h: Hand, mode: DeckMode) -> int {
    spec_ranking(h, mode).spec_value() * 8192 + spec_kick_value(h, spec_ranking(h, mode))
}

/// A lazy evaluator for a hand's strength. It searches the bitboard for
/// the best category, scanning ranks from high to low.
#[derive(Debug, Clone, Copy, PartialEq, Eq, Structural)]
pub struct Evaluator {
    pub hand: Hand,
    pub mode: DeckMode,
}

impl Evaluator {
    /// A well-formed evaluator wraps a well-formed hand.
    pub open spec fn wf(self) -> bool {
        self.hand.wf()
    }

    /// Evaluate a hand against the full deck.
    pub fn from_hand(hand: Hand) -> (e: Evaluator)
        requires
            hand.wf(),
        ensures
            e.wf(),
            e.hand == hand,
            e.mode == DeckMode::Full,
    {
        Evaluator { hand, mode: DeckMode::Full }
    }

    /// Evaluate a hand against the short deck.
    pub fn shortdeck(hand: Hand) -> (e: Evaluator)
        requires
            hand.wf(),
        ensures
            e.wf(),
            e.hand == hand,
            e.mode == DeckMode::Short,
    {
        Evaluator { hand, mode: DeckMode::Short }
    }

    /// The best ranking the hand supports.
    pub fn find_ranking(&self) -> (r: Ranking)
        requires
            self.wf(),
            self.hand.size() >= 1,
        ensures
            r == spec_ranking(self.hand, self.mode),
    {
        if let Some(v) = self.find_flush() {
            return v;
        }
        if let Some(v) = self.find_4_oak() {
            return v;
        }
        if let Some(v) = self.find_3_oak_2_oak() {
            return v;
        }
        if let Some(v) = self.find_straight() {
            return v;
        }
        if let Some(v) = self.find_3_oak() {
            return v;
        }
        if let Some(v) = self.find_2_oak_2_oak() {
            return v;
        }
        if let Some(v) = self.find_2_oak() {
            return v;
        }
        if let Some(v) = self.find_1_oak() {
            return v;
        }
        proof {
            lemma_nonempty_has_rank(self.hand);
        }
        Ranking::HighCard(Rank::Two)
    }

    /// The kickers owed to a ranking: the highest eligible ranks, as
    /// many as the category expects.
    pub fn find_kickers(&self, value: Ranking) -> (k: Kickers)
        requires
            self.wf(),
        ensures
            k.wf(),
            forall|r: u16| r < 13 ==> (k.has_rank(r) == spec_kicker(self.hand, value, r as int)),
            k.spec_mask() == spec_kick_value(self.hand, value),
    {
        let n: u8 = match value {
            Ranking::HighCard(_) => 4,
            Ranking::OnePair(_) => 3,
            Ranking::ThreeOAK(_) => 2,
            Ranking::TwoPair(_, _) => 1,
            Ranking::FourOAK(_) => 1,
            _ => {
                proof {
                    lemma_no_kickers(self.hand, value, 0);
                }
                return Kickers::none();
            },
        };
        let mut out = Kickers::none();
        let mut seen: u8 = 0;
        let mut r: u8 = 13;
        while r > 0
            invariant
                r <= 13,
                self.wf(),
                out.wf(),
                n == spec_kicker_count(value),
                seen == spec_eligible_above(self.hand, value, r as int - 1),
                seen <= 13 - r,
                out.spec_mask() == spec_kick_value_from(self.hand, value, r as int),
                forall|i: u16| i < 13 ==> (out.has_rank(i) == (i as int >= r && spec_kicker(
                    self.hand,
                    value,
                    i as int,
                ))),
            decreases r,
        {
            r = r - 1;
            let eligible = self.is_eligible(value, r);
            if eligible {
                if seen < n {
                    proof {
                        assert(!out.has_rank(r as u16));
                    }
                    out = out.with(r as u16);
                }
                seen = seen + 1;
            }
        }
        out
    }

    /// The full strength of the hand: its ranking and the kickers that
    /// break ties within the category.
    pub fn strength(&self) -> (s: crate::cards::strength::Strength)
        requires
            self.wf(),
            self.hand.size() >= 1,
        ensures
            s.ranking == spec_ranking(self.hand, self.mode),
            s.kickers.wf(),
            s.spec_value() == spec_strength_value(self.hand, self.mode),
    {
        let ranking = self.find_ranking();
        let kickers = self.find_kickers(ranking);
        crate::cards::strength::Strength::new(ranking, kickers)
    }

    /// Is rank `r` present in the hand and not consumed by the ranking?
    fn is_eligible(&self, value: Ranking, r: u8) -> (b: bool)
        requires
            self.wf(),
            r < 13,
        ensures
            b == spec_eligible(self.hand, value, r as int),
    {
        if self.count_rank_of(self.hand, r) < 1 {
            return false;
        }
        let consumed = match value {
            Ranking::HighCard(x) => r == x.index(),
            Ranking::OnePair(x) => r == x.index(),
            Ranking::ThreeOAK(x) => r == x.index(),
            Ranking::FourOAK(x) => r == x.index(),
            Ranking::TwoPair(hi, lo) => r == hi.index() || r == lo.index(),
            _ => true,
        };
        !consumed
    }

    /// The straight flush or flush, if the hand has five of one suit.
    pub fn find_flush(&self) -> (res: Option<Ranking>)
        requires
            self.wf(),
        ensures
            res == spec_flush_ranking(self.hand, self.mode),
    {
        match self.find_suit_of_flush() {
            None => None,
            Some(suit) => {
                let plane = self.plane(suit.index());
                match self.find_rank_of_straight(plane) {
                    Some(hi) => Some(Ranking::StraightFlush(hi)),
                    None => {
                        match self.oak_under_in(plane, 1, 13) {
                            Some(top) => Some(Ranking::Flush(top)),
                            None => {
                                proof {
                                    lemma_flush_plane_size(self.hand, 0, suit.spec_index() as int);
                                    lemma_nonempty_has_rank(plane);
                                }
                                None
                            },
                        }
                    },
                }
            },
        }
    }

    /// Four of a kind.
    pub fn find_4_oak(&self) -> (res: Option<Ranking>)
        requires
            self.wf(),
        ensures
            res == spec_quads_ranking(self.hand),
    {
        match self.find_rank_of_n_oak(4) {
            Some(r) => Some(Ranking::FourOAK(r)),
            None => None,
        }
    }

    /// A full house: trips plus a distinct pair below them.
    pub fn find_3_oak_2_oak(&self) -> (res: Option<Ranking>)
        requires
            self.wf(),
        ensures
            res == spec_house_ranking(self.hand),
    {
        match self.find_rank_of_n_oak(3) {
            Some(trips) => {
                match self.find_rank_of_n_oak_under(2, Some(trips)) {
                    Some(pairs) => Some(Ranking::FullHouse(trips, pairs)),
                    None => None,
                }
            },
            None => None,
        }
    }

    /// The best straight.
    pub fn find_straight(&self) -> (res: Option<Ranking>)
        requires
            self.wf(),
        ensures
            res == spec_straight_ranking(self.hand, self.mode),
    {
        match self.find_rank_of_straight(self.hand) {
            Some(r) => Some(Ranking::Straight(r)),
            None => None,
        }
    }

    /// Three of a kind.
    pub fn find_3_oak(&self) -> (res: Option<Ranking>)
        requires
            self.wf(),
        ensures
            res == spec_trips_ranking(self.hand),
    {
        match self.find_rank_of_n_oak(3) {
            Some(r) => Some(Ranking::ThreeOAK(r)),
            None => None,
        }
    }

    /// Two pair, degrading to one pair when no second pair exists.
    pub fn find_2_oak_2_oak(&self) -> (res: Option<Ranking>)
        requires
            self.wf(),
        ensures
            res == spec_pairs_ranking(self.hand),
    {
        match self.find_rank_of_n_oak(2) {
            Some(hi) => {
                match self.find_rank_of_n_oak_under(2, Some(hi)) {
                    Some(lo) => Some(Ranking::TwoPair(hi, lo)),
                    None => Some(Ranking::OnePair(hi)),
                }
            },
            None => None,
        }
    }

    /// One pair.
    pub fn find_2_oak(&self) -> (res: Option<Ranking>)
        requires
            self.wf(),
        ensures
            res == spec_pair_ranking(self.hand),
    {
        match self.find_rank_of_n_oak(2) {
            Some(r) => Some(Ranking::OnePair(r)),
            None => None,
        }
    }

    /// The high card.
    pub fn find_1_oak(&self) -> (res: Option<Ranking>)
        requires
            self.wf(),
        ensures
            res == spec_high_ranking(self.hand),
    {
        match self.find_rank_of_n_oak(1) {
            Some(r) => Some(Ranking::HighCard(r)),
            None => None,
        }
    }

    /// The high rank of the best straight in the given board, the wheel
    /// included. Takes the board as an argument so that it serves both
    /// the whole hand and one suit's plane.
    pub fn find_rank_of_straight(&self, hand: Hand) -> (res: Option<Rank>)
        requires
            hand.wf(),
        ensures
            match res {
                Some(rk) => spec_straight(hand, self.mode) == Some(rk.spec_index() as int),
                None => spec_straight(hand, self.mode) is None,
            },
    {
        let mut hi: u8 = 13;
        while hi > 4
            invariant
                4 <= hi <= 13,
                hand.wf(),
                spec_straight_from(hand, 13) == spec_straight_from(hand, hi as int),
            decreases hi,
        {
            hi = hi - 1;
            if self.count_rank_of(hand, hi) >= 1 && self.count_rank_of(hand, hi - 1) >= 1
                && self.count_rank_of(hand, hi - 2) >= 1 && self.count_rank_of(hand, hi - 3) >= 1
                && self.count_rank_of(hand, hi - 4) >= 1 {
                return Some(Rank::from_index(hi));
            }
        }
        let wheel = match self.mode {
            DeckMode::Full => self.count_rank_of(hand, 12) >= 1 && self.count_rank_of(hand, 0) >= 1
                && self.count_rank_of(hand, 1) >= 1 && self.count_rank_of(hand, 2) >= 1
                && self.count_rank_of(hand, 3) >= 1,
            DeckMode::Short => self.count_rank_of(hand, 12) >= 1 && self.count_rank_of(hand, 4)
                >= 1 && self.count_rank_of(hand, 5) >= 1 && self.count_rank_of(hand, 6) >= 1
                && self.count_rank_of(hand, 7) >= 1,
        };
        if wheel {
            match self.mode {
                DeckMode::Full => Some(Rank::Five),
                DeckMode::Short => Some(Rank::Nine),
            }
        } else {
            None
        }
    }

    /// The straight, if any, within one suit's plane.
    pub fn find_rank_of_straight_flush(&self, suit: Suit) -> (res: Option<Rank>)
        requires
            self.wf(),
        ensures
            match res {
                Some(rk) => spec_straight(spec_plane(self.hand, suit.spec_index() as int), self.mode)
                    == Some(rk.spec_index() as int),
                None => spec_straight(spec_plane(self.hand, suit.spec_index() as int), self.mode)
                    is None,
            },
    {
        let plane = self.plane(suit.index());
        self.find_rank_of_straight(plane)
    }

    /// The first suit holding at least five cards.
    pub fn find_suit_of_flush(&self) -> (res: Option<Suit>)
        requires
            self.wf(),
        ensures
            match res {
                Some(suit) => spec_flush_suit(self.hand) == Some(suit.spec_index() as int),
                None => spec_flush_suit(self.hand) is None,
            },
    {
        let mut s: u8 = 0;
        while s < 4
            invariant
                s <= 4,
                self.wf(),
                spec_flush_from(self.hand, 0) == spec_flush_from(self.hand, s as int),
            decreases 4 - s,
        {
            let plane = self.plane(s);
            if plane.count() >= 5 {
                return Some(Suit::from_index(s));
            }
            s = s + 1;
        }
        None
    }

    /// The highest rank strictly below `rank` held at least `oak` times.
    pub fn find_rank_of_n_oak_under(&self, oak: u8, rank: Option<Rank>) -> (res: Option<Rank>)
        requires
            self.wf(),
            oak >= 1,
        ensures
            match res {
                Some(rk) => spec_oak_under(
                    self.hand,
                    oak as int,
                    match rank {
                        Some(c) => c.spec_index() as int,
                        None => 13,
                    },
                ) == Some(rk.spec_index() as int),
                None => spec_oak_under(
                    self.hand,
                    oak as int,
                    match rank {
                        Some(c) => c.spec_index() as int,
                        None => 13,
                    },
                ) is None,
            },
    {
        let ceil: u8 = match rank {
            Some(c) => c.index(),
            None => 13,
        };
        self.oak_under_in(self.hand, oak, ceil)
    }

    /// The highest rank held at least `n` times.
    pub fn find_rank_of_n_oak(&self, n: u8) -> (res: Option<Rank>)
        requires
            self.wf(),
            n >= 1,
        ensures
            match res {
                Some(rk) => spec_oak_under(self.hand, n as int, 13) == Some(rk.spec_index() as int),
                None => spec_oak_under(self.hand, n as int, 13) is None,
            },
    {
        self.oak_under_in(self.hand, n, 13)
    }

    /// Scan ranks below `ceil` from the top for one held `oak` times in
    /// the given board.
    fn oak_under_in(&self, hand: Hand, oak: u8, ceil: u8) -> (res: Option<Rank>)
        requires
            hand.wf(),
            oak >= 1,
            ceil <= 13,
        ensures
            match res {
                Some(rk) => spec_oak_under(hand, oak as int, ceil as int) == Some(
                    rk.spec_index() as int,
                ),
                None => spec_oak_under(hand, oak as int, ceil as int) is None,
            },
    {
        let mut c: u8 = ceil;
        while c > 0
            invariant
                c <= ceil <= 13,
                hand.wf(),
                spec_oak_under(hand, oak as int, ceil as int) == spec_oak_under(
                    hand,
                    oak as int,
                    c as int,
                ),
            decreases c,
        {
            if self.count_rank_of(hand, c - 1) >= oak {
                return Some(Rank::from_index(c - 1));
            }
            c = c - 1;
        }
        None
    }

    /// How many cards of rank `r` the given board holds.
    fn count_rank_of(&self, hand: Hand, r: u8) -> (c: u8)
        requires
            hand.wf(),
            r < 13,
        ensures
            c == rank_count(hand, r as int),
            c <= 4,
    {
        let bits = hand.bits();
        let base: u64 = 4 * (r as u64);
        let mut c: u8 = 0;
        if (bits >> base) & 1u64 == 1u64 {
            c = c + 1;
        }
        if (bits >> (base + 1)) & 1u64 == 1u64 {
            c = c + 1;
        }
        if (bits >> (base + 2)) & 1u64 == 1u64 {
            c = c + 1;
        }
        if (bits >> (base + 3)) & 1u64 == 1u64 {
            c = c + 1;
        }
        c
    }

    /// One suit's plane of the hand, as its own board.
    fn plane(&self, s: u8) -> (p: Hand)
        requires
            self.wf(),
            s < 4,
        ensures
            p == spec_plane(self.hand, s as int),
            p.wf(),
    {
        proof {
            lemma_plane_wf(self.hand.spec_bits(), s as u64);
        }
        Hand::from_bits(self.hand.bits() & (0x1111111111111u64 << (s as u64)))
    }
}

/// Restricting to a suit plane keeps the board well formed.
proof fn lemma_plane_wf(h: u64, s: u64)
    by (bit_vector)
    requires
        h >> 52 == 0u64,
        s < 4,
    ensures
        (h & (0x1111111111111u64 << s)) >> 52 == 0u64,
{
}

/// The count of eligible ranks above any rank is never negative.
proof fn lemma_eligible_above_nonneg(h: Hand, v: Ranking, r: int)
    ensures
        spec_eligible_above(h, v, r) >= 0,
    decreases 13 - r,
{
    if r < 12 {
        lemma_eligible_above_nonneg(h, v, r + 1);
    }
}

/// A category that expects no kickers gets an empty mask.
proof fn lemma_no_kickers(h: Hand, v: Ranking, r: int)
    requires
        spec_kicker_count(v) == 0,
    ensures
        spec_kick_value_from(h, v, r) == 0,
        forall|i: int| !spec_kicker(h, v, i),
    decreases 13 - r,
{
    assert forall|i: int| !spec_kicker(h, v, i) by {
        lemma_eligible_above_nonneg(h, v, i);
    }
    if r < 13 {
        lemma_no_kickers(h, v, r + 1);
    }
}

/// A suit the flush scan settles on holds at least five cards.
proof fn lemma_flush_plane_size(h: Hand, s0: int, s: int)
    requires
        spec_flush_from(h, s0) == Some(s),
    ensures
        spec_plane(h, s).size() >= 5,
    decreases 4 - s0,
{
    if s0 < 4 && !(spec_plane(h, s0).size() >= 5) {
        lemma_flush_plane_size(h, s0 + 1, s);
    }
}

/// The sum of the rank counts of the first `k` ranks.
pub open spec fn sum_rank_counts(h: Hand, k: int) -> int
    decreases k,
{
    if k <= 0 {
        0
    } else {
        sum_rank_counts(h, k - 1) + rank_count(h, k - 1)
    }
}

/// The card count below bit `4 * k` is the sum of the first `k` rank counts.
proof fn lemma_size_by_ranks(h: Hand, k: int)
    requires
        0 <= k <= 13,
    ensures
        count_below(h.spec_bits(), 4 * k) == sum_rank_counts(h, k),
    decreases k,
{
    if k > 0 {
        lemma_size_by_ranks(h, k - 1);
        let b = h.spec_bits();
        assert(count_below(b, 4 * k) == count_below(b, 4 * k - 1) + if spec_has(
            b,
            (4 * k - 1) as u64,
        ) {
            1nat
        } else {
            0nat
        });
        assert(count_below(b, 4 * k - 1) == count_below(b, 4 * k - 2) + if spec_has(
            b,
            (4 * k - 2) as u64,
        ) {
            1nat
        } else {
            0nat
        });
        assert(count_below(b, 4 * k - 2) == count_below(b, 4 * k - 3) + if spec_has(
            b,
            (4 * k - 3) as u64,
        ) {
            1nat
        } else {
            0nat
        });
        assert(count_below(b, 4 * k - 3) == count_below(b, 4 * (k - 1)) + if spec_has(
            b,
            (4 * (k - 1)) as u64,
        ) {
            1nat
        } else {
            0nat
        });
        assert(suited(h, k - 1, 0) == spec_has(b, (4 * (k - 1)) as u64));
        assert(suited(h, k - 1, 1) == spec_has(b, (4 * k - 3) as u64));
        assert(suited(h, k - 1, 2) == spec_has(b, (4 * k - 2) as u64));
        assert(suited(h, k - 1, 3) == spec_has(b, (4 * k - 1) as u64));
    }
}

/// When no rank reaches a count of `n` below `ceil`, the scan reports none.
proof fn lemma_oak_none(h: Hand, n: int, ceil: int)
    requires
        spec_oak_under(h, n, ceil) is None,
    ensures
        forall|r: int| 0 <= r < ceil ==> rank_count(h, r) < n,
    decreases ceil,
{
    if ceil > 0 {
        lemma_oak_none(h, n, ceil - 1);
    }
}

/// When every rank count is zero, the sum of the counts is zero.
proof fn lemma_sum_zero(h: Hand, k: int)
    requires
        forall|r: int| 0 <= r < k ==> rank_count(h, r) < 1,
    ensures
        sum_rank_counts(h, k) <= 0,
    decreases k,
{
    if k > 0 {
        lemma_sum_zero(h, k - 1);
    }
}

/// A non-empty hand holds at least one rank.
pub proof fn lemma_nonempty_has_rank(h: Hand)
    requires
        h.size() >= 1,
    ensures
        spec_oak_under(h, 1, 13) is Some,
{
    if spec_oak_under(h, 1, 13) is None {
        lemma_oak_none(h, 1, 13);
        lemma_sum_zero(h, 13);
        lemma_size_by_ranks(h, 13);
        assert(count_below(h.spec_bits(), 52) == 0);
    }
}

} // verus!
