//! The 64-bit hand bitboard: one bit per card at position `4 * rank + suit`.

use vstd::prelude::*;
use crate::cards::card::Card;

verus! {

/// Does bit `i` of `h` hold a card?
pub open spec fn spec_has(h: u64, i: u64) -> bool {
    i < 52 && ((h >> i) & 1u64) == 1u64
}

/// How many of the bits of `h` strictly below `n` are set.
pub open spec fn count_below(h: u64, n: int) -> nat
    decreases n,
{
    if n <= 0 {
        0
    } else {
        count_below(h, n - 1) + if spec_has(h, (n - 1) as u64) {
            1nat
        } else {
            0nat
        }
    }
}

/// The number of cards in the bitboard.
pub open spec fn spec_size(h: u64) -> nat {
    count_below(h, 52)
}

/// Bitwise OR unions the card sets.
proof fn lemma_or_bits(a: u64, b: u64)
    by (bit_vector)
    ensures
        forall|i: u64| i < 64 ==> ((((a | b) >> i) & 1u64 == 1u64) == (((a >> i) & 1u64 == 1u64)
            || ((b >> i) & 1u64 == 1u64))),
{
}

/// A single set bit reads back as exactly that card.
proof fn lemma_single_bit(c: u64)
    by (bit_vector)
    requires
        c < 52,
    ensures
        forall|i: u64| i < 64 ==> ((((1u64 << c) >> i) & 1u64 == 1u64) == (i == c)),
{
}

/// Masking with the complement clears exactly the removed card.
proof fn lemma_clear_bit(h: u64, c: u64)
    by (bit_vector)
    requires
        c < 52,
    ensures
        forall|i: u64| i < 64 ==> ((((h & !(1u64 << c)) >> i) & 1u64 == 1u64) == (i != c && ((h
            >> i) & 1u64 == 1u64))),
{
}

/// One step of the bit-by-bit board comparison.
proof fn lemma_shift_step(a: u64, b: u64, k: u64)
    by (bit_vector)
    requires
        k < 63,
        a >> ((k + 1) as u64) == b >> ((k + 1) as u64),
        ((a >> k) & 1u64 == 1u64) == ((b >> k) & 1u64 == 1u64),
    ensures
        a >> k == b >> k,
{
}

/// The top bit alone decides the last comparison step.
proof fn lemma_shift_top(a: u64, b: u64)
    by (bit_vector)
    requires
        ((a >> 63u64) & 1u64 == 1u64) == ((b >> 63u64) & 1u64 == 1u64),
    ensures
        a >> 63u64 == b >> 63u64,
{
}

/// A shift by zero changes nothing.
proof fn lemma_shift_zero(a: u64)
    by (bit_vector)
    ensures
        a >> 0u64 == a,
{
}

/// High bits above the deck are clear on a well-formed board.
proof fn lemma_high_bits_clear(a: u64)
    by (bit_vector)
    requires
        a >> 52 == 0u64,
    ensures
        forall|i: u64| 52 <= i < 64 ==> ((a >> i) & 1u64) != 1u64,
{
}

/// Equal bits below 52 and none above make equal boards.
proof fn lemma_bits_extensional(a: u64, b: u64)
    requires
        a >> 52 == 0u64,
        b >> 52 == 0u64,
        forall|i: u64| i < 52 ==> (((a >> i) & 1u64 == 1u64) == ((b >> i) & 1u64 == 1u64)),
    ensures
        a == b,
{
    lemma_high_bits_clear(a);
    lemma_high_bits_clear(b);
    assert(forall|i: u64| i < 64 ==> (((a >> i) & 1u64 == 1u64) == ((b >> i) & 1u64 == 1u64)));
    lemma_ext_rec(a, b, 0);
    lemma_shift_zero(a);
    lemma_shift_zero(b);
}

/// Bit-by-bit comparison of the boards, from bit `k` upwards.
proof fn lemma_ext_rec(a: u64, b: u64, k: u64)
    requires
        k <= 63,
        forall|i: u64| i < 64 ==> (((a >> i) & 1u64 == 1u64) == ((b >> i) & 1u64 == 1u64)),
    ensures
        a >> k == b >> k,
    decreases 63 - k,
{
    if k == 63 {
        lemma_shift_top(a, b);
    } else {
        lemma_ext_rec(a, b, (k + 1) as u64);
        lemma_shift_step(a, b, k);
    }
}

/// The union of two boards without high bits has no high bits.
proof fn lemma_or_high(a: u64, b: u64)
    by (bit_vector)
    requires
        a >> 52 == 0u64,
        b >> 52 == 0u64,
    ensures
        (a | b) >> 52 == 0u64,
        (a & !b) >> 52 == 0u64,
        (1u64 << 51) >> 52 == 0u64,
{
}

/// A single card bit has no high bits.
proof fn lemma_single_high(c: u64)
    by (bit_vector)
    requires
        c < 52,
    ensures
        (1u64 << c) >> 52 == 0u64,
{
}

/// The empty board counts no cards below any bound.
proof fn lemma_count_empty(n: int)
    ensures
        count_below(0u64, n) == 0,
    decreases n,
{
    if n > 0 {
        lemma_count_empty(n - 1);
        let j = (n - 1) as u64;
        assert((0u64 >> j) & 1u64 != 1u64) by (bit_vector);
    }
}

/// Counting is monotone in the bound.
pub proof fn lemma_count_monotone(h: u64, m: int, n: int)
    requires
        m <= n,
    ensures
        count_below(h, m) <= count_below(h, n),
    decreases n - m,
{
    if m < n {
        lemma_count_monotone(h, m, n - 1);
    }
}

/// Boards that agree bit for bit have equal counts.
proof fn lemma_count_congruence(a: u64, b: u64, n: int)
    requires
        forall|i: u64| i < 52 ==> (spec_has(a, i) == spec_has(b, i)),
        n <= 52,
    ensures
        count_below(a, n) == count_below(b, n),
    decreases n,
{
    if n > 0 {
        lemma_count_congruence(a, b, n - 1);
    }
}

/// A hand of cards, stored as a 64-bit bitboard. Bit `4 * rank + suit`
/// is set exactly when that card is in the hand.
#[derive(Debug, Clone, Copy, PartialEq, Eq, Structural)]
pub struct Hand {
    pub bits: u64,
}

impl Hand {
    /// The raw bitboard.
    pub open spec fn spec_bits(self) -> u64 {
        self.bits
    }

    /// Does the hand hold the card with identifier `i`?
    pub open spec fn has(self, i: u64) -> bool {
        spec_has(self.bits, i)
    }

    /// A hand is well formed when no bit above the deck is set.
    pub open spec fn wf(self) -> bool {
        self.bits >> 52 == 0u64
    }

    /// The number of cards held.
    pub open spec fn size(self) -> nat {
        spec_size(self.bits)
    }

    /// Two hands are disjoint when no card is in both.
    pub open spec fn disjoint(self, other: Hand) -> bool {
        forall|i: u64| i < 52 ==> !(self.has(i) && other.has(i))
    }

    /// The hand with no cards.
    pub fn empty() -> (h: Hand)
        ensures
            h.wf(),
            h.spec_bits() == 0u64,
            h.size() == 0,
            forall|i: u64| i < 52 ==> !h.has(i),
    {
        let h = Hand { bits: 0 };
        proof {
            assert(0u64 >> 52 == 0u64) by (bit_vector);
            assert(forall|i: u64| i < 52 ==> ((0u64 >> i) & 1u64) != 1u64) by (bit_vector);
            lemma_count_empty(52);
        }
        h
    }

    /// Rebuild a hand from its raw bitboard.
    pub fn from_bits(bits: u64) -> (h: Hand)
        requires
            bits >> 52 == 0u64,
        ensures
            h.wf(),
            h.spec_bits() == bits,
    {
        Hand { bits }
    }

    /// The raw bitboard.
    pub fn bits(self) -> (r: u64)
        ensures
            r == self.spec_bits(),
    {
        self.bits
    }

    /// The union of two hands. The caller keeps the two sides disjoint;
    /// the union itself is defined regardless.
    pub fn add(a: Hand, b: Hand) -> (r: Hand)
        requires
            a.wf(),
            b.wf(),
        ensures
            r.wf(),
            forall|i: u64| i < 52 ==> (r.has(i) == (a.has(i) || b.has(i))),
            r.spec_bits() == (a.spec_bits() | b.spec_bits()),
    {
        proof {
            lemma_or_bits(a.bits, b.bits);
            lemma_or_high(a.bits, b.bits);
        }
        Hand { bits: a.bits | b.bits }
    }

    /// Does the hand hold this card?
    pub fn contains(self, card: Card) -> (r: bool)
        requires
            card.wf(),
        ensures
            r == self.has(card.spec_id() as u64),
    {
        (self.bits >> (card.id() as u64)) & 1u64 == 1u64
    }

    /// The hand extended with one card.
    pub fn with(self, card: Card) -> (r: Hand)
        requires
            self.wf(),
            card.wf(),
        ensures
            r.wf(),
            forall|i: u64| i < 52 ==> (r.has(i) == (self.has(i) || i == card.spec_id() as u64)),
            r.spec_bits() == (self.spec_bits() | (1u64 << (card.spec_id() as u64))),
    {
        let c = card.id() as u64;
        proof {
            lemma_single_bit(c);
            lemma_single_high(c);
            lemma_or_bits(self.bits, 1u64 << c);
            lemma_or_high(self.bits, 1u64 << c);
        }
        Hand { bits: self.bits | (1u64 << c) }
    }

    /// The hand with one card taken out.
    pub fn without(self, card: Card) -> (r: Hand)
        requires
            self.wf(),
            card.wf(),
        ensures
            r.wf(),
            forall|i: u64| i < 52 ==> (r.has(i) == (self.has(i) && i != card.spec_id() as u64)),
    {
        let c = card.id() as u64;
        proof {
            lemma_clear_bit(self.bits, c);
            lemma_single_high(c);
            lemma_or_high(self.bits, 1u64 << c);
        }
        Hand { bits: self.bits & !(1u64 << c) }
    }

    /// The number of cards in the hand.
    pub fn count(self) -> (r: usize)
        requires
            self.wf(),
        ensures
            r == self.size(),
            r <= 52,
    {
        let mut n: usize = 0;
        let mut i: u64 = 0;
        while i < 52
            invariant
                i <= 52,
                n == count_below(self.bits, i as int),
                n <= i,
            decreases 52 - i,
        {
            if (self.bits >> i) & 1u64 == 1u64 {
                n = n + 1;
            }
            i = i + 1;
        }
        proof {
            lemma_count_monotone(self.bits, 0, 52);
        }
        n
    }

    /// The cards of the hand, in increasing identifier order.
    pub fn cards(self) -> (r: Vec<Card>)
        requires
            self.wf(),
        ensures
            r@.len() == self.size(),
            forall|k: int| 0 <= k < r@.len() ==> (#[trigger] r@[k]).wf() && self.has(
                r@[k].spec_id() as u64,
            ),
            forall|k1: int, k2: int|
                0 <= k1 < k2 < r@.len() ==> r@[k1].spec_id() < r@[k2].spec_id(),
            forall|i: u64| i < 52 && self.has(i) ==> exists|k: int|
                0 <= k < r@.len() && (#[trigger] r@[k]).spec_id() == i,
    {
        let mut out: Vec<Card> = Vec::new();
        let mut i: u64 = 0;
        while i < 52
            invariant
                i <= 52,
                self.wf(),
                out@.len() == count_below(self.bits, i as int),
                forall|k: int| 0 <= k < out@.len() ==> (#[trigger] out@[k]).wf() && self.has(
                    out@[k].spec_id() as u64,
                ) && out@[k].spec_id() < i,
                forall|k1: int, k2: int|
                    0 <= k1 < k2 < out@.len() ==> out@[k1].spec_id() < out@[k2].spec_id(),
                forall|j: u64| j < i && self.has(j) ==> exists|k: int|
                    0 <= k < out@.len() && (#[trigger] out@[k]).spec_id() == j,
            decreases 52 - i,
        {
            let ghost before = out@;
            if (self.bits >> i) & 1u64 == 1u64 {
                out.push(Card::new(i as u8));
            }
            proof {
                assert forall|j: u64| j < i + 1 && self.has(j) implies exists|k: int|
                    0 <= k < out@.len() && (#[trigger] out@[k]).spec_id() == j by {
                    if j == i {
                        assert(out@[out@.len() - 1].spec_id() == j);
                    } else {
                        let k = choose|k: int|
                            0 <= k < before.len() && (#[trigger] before[k]).spec_id() == j;
                        assert(out@[k].spec_id() == j);
                    }
                }
            }
            i = i + 1;
        }
        out
    }
}

/// Hands that hold the same cards are equal.
pub proof fn lemma_hand_extensional(a: Hand, b: Hand)
    requires
        a.wf(),
        b.wf(),
        forall|i: u64| i < 52 ==> (a.has(i) == b.has(i)),
    ensures
        a == b,
{
    assert forall|i: u64| i < 52 implies (((a.spec_bits() >> i) & 1u64 == 1u64) == ((b.spec_bits()
        >> i) & 1u64 == 1u64)) by {
        assert(a.has(i) == b.has(i));
    }
    lemma_bits_extensional(a.spec_bits(), b.spec_bits());
}

/// Hands that hold the same cards have the same size.
pub proof fn lemma_hand_size_congruence(a: Hand, b: Hand)
    requires
        forall|i: u64| i < 52 ==> (a.has(i) == b.has(i)),
    ensures
        a.size() == b.size(),
{
    assert forall|i: u64| i < 52 implies (spec_has(a.spec_bits(), i) == spec_has(
        b.spec_bits(),
        i,
    )) by {
        assert(a.has(i) == b.has(i));
    }
    lemma_count_congruence(a.spec_bits(), b.spec_bits(), 52);
}

/// The union of two hands, at the specification level.
pub open spec fn spec_union(a: Hand, b: Hand) -> Hand {
    Hand { bits: a.spec_bits() | b.spec_bits() }
}

/// What `spec_union` holds: the cards of both sides.
pub proof fn lemma_spec_union(a: Hand, b: Hand)
    requires
        a.wf(),
        b.wf(),
    ensures
        spec_union(a, b).wf(),
        forall|i: u64| i < 52 ==> (spec_union(a, b).has(i) == (a.has(i) || b.has(i))),
{
    lemma_or_bits(a.spec_bits(), b.spec_bits());
    lemma_or_high(a.spec_bits(), b.spec_bits());
}

/// A union with a fixed base determines its other side.
pub proof fn lemma_union_cancels(base: Hand, r1: Hand, r2: Hand)
    requires
        base.wf(),
        r1.wf(),
        r2.wf(),
        base.disjoint(r1),
        base.disjoint(r2),
        spec_union(base, r1) == spec_union(base, r2),
    ensures
        r1 == r2,
{
    lemma_spec_union(base, r1);
    lemma_spec_union(base, r2);
    assert forall|i: u64| i < 52 implies (r1.has(i) == r2.has(i)) by {
        assert(spec_union(base, r1).has(i) == spec_union(base, r2).has(i));
    }
    lemma_hand_extensional(r1, r2);
}

/// The hand extended with one card, at the specification level.
pub open spec fn spec_with(h: Hand, c: u64) -> Hand {
    Hand { bits: h.spec_bits() | (1u64 << c) }
}

/// The hand with one card taken out, at the specification level.
pub open spec fn spec_without(h: Hand, c: u64) -> Hand {
    Hand { bits: h.spec_bits() & !(1u64 << c) }
}

/// What `spec_with` holds: the old cards plus the new one; adding a
/// fresh card grows the hand by one.
pub proof fn lemma_spec_with(h: Hand, c: u64)
    requires
        h.wf(),
        c < 52,
    ensures
        spec_with(h, c).wf(),
        forall|i: u64| i < 52 ==> (spec_with(h, c).has(i) == (h.has(i) || i == c)),
        !h.has(c) ==> spec_with(h, c).size() == h.size() + 1,
{
    lemma_single_bit(c);
    lemma_single_high(c);
    lemma_or_bits(h.spec_bits(), 1u64 << c);
    lemma_or_high(h.spec_bits(), 1u64 << c);
    if !h.has(c) {
        assert(forall|i: u64|
            i < 52 ==> spec_has(h.spec_bits() | (1u64 << c), i) == (spec_has(h.spec_bits(), i) || i
                == c));
        lemma_with_size(h.spec_bits(), c, 52);
    }
}

/// What `spec_without` holds: the old cards less the removed one;
/// removing a held card shrinks the hand by one and adding it back
/// restores the hand.
pub proof fn lemma_spec_without(h: Hand, c: u64)
    requires
        h.wf(),
        c < 52,
    ensures
        spec_without(h, c).wf(),
        forall|i: u64| i < 52 ==> (spec_without(h, c).has(i) == (h.has(i) && i != c)),
        !spec_without(h, c).has(c),
        h.has(c) ==> spec_with(spec_without(h, c), c) == h,
        h.has(c) ==> spec_without(h, c).size() + 1 == h.size(),
{
    lemma_clear_bit(h.spec_bits(), c);
    lemma_single_high(c);
    lemma_or_high(h.spec_bits(), 1u64 << c);
    let t = spec_without(h, c);
    lemma_spec_with(t, c);
    if h.has(c) {
        assert forall|i: u64| i < 52 implies (spec_with(t, c).has(i) == h.has(i)) by {
            assert(spec_with(t, c).has(i) == (t.has(i) || i == c));
            assert(t.has(i) == (h.has(i) && i != c));
        }
        lemma_hand_extensional(spec_with(t, c), h);
    }
}

/// Adding the same fresh card to two different hands keeps them
/// different, and adding it back after a removal restores the hand.
pub proof fn lemma_spec_with_injective(a: Hand, b: Hand, c: u64)
    requires
        a.wf(),
        b.wf(),
        c < 52,
        !a.has(c),
        !b.has(c),
        spec_with(a, c) == spec_with(b, c),
    ensures
        a == b,
{
    lemma_spec_with(a, c);
    lemma_spec_with(b, c);
    lemma_hand_extensional(a, b);
}

/// A board with no card counted below `k` holds no card below `k`.
pub proof fn lemma_count_zero(h: u64, k: int)
    requires
        count_below(h, k) == 0,
        k <= 52,
    ensures
        forall|i: u64| i < k ==> !spec_has(h, i),
    decreases k,
{
    if k > 0 {
        lemma_count_zero(h, k - 1);
    }
}

/// A non-empty board has a first card: one it holds, with nothing below.
pub proof fn lemma_first_card(h: Hand, n: int)
    requires
        0 <= n <= 52,
        count_below(h.spec_bits(), n) >= 1,
    ensures
        exists|m: u64|
            m < n && (#[trigger] h.has(m)) && (forall|i: u64| i < m ==> !h.has(i)),
    decreases n,
{
    if count_below(h.spec_bits(), n - 1) >= 1 {
        lemma_first_card(h, n - 1);
        let m = choose|m: u64|
            m < n - 1 && (#[trigger] h.has(m)) && (forall|i: u64| i < m ==> !h.has(i));
        assert(m < n && h.has(m) && (forall|i: u64| i < m ==> !h.has(i)));
    } else {
        lemma_count_zero(h.spec_bits(), n - 1);
        let m = (n - 1) as u64;
        assert(h.has(m) && (forall|i: u64| i < m ==> !h.has(i)));
    }
}

/// A union of disjoint hands counts both sides' cards.
pub proof fn lemma_union_count(a: Hand, b: Hand, u: Hand, n: int)
    requires
        n <= 52,
        a.disjoint(b),
        forall|i: u64| i < 52 ==> (u.has(i) == (a.has(i) || b.has(i))),
    ensures
        count_below(u.spec_bits(), n) == count_below(a.spec_bits(), n) + count_below(
            b.spec_bits(),
            n,
        ),
    decreases n,
{
    if n > 0 {
        lemma_union_count(a, b, u, n - 1);
        let j = (n - 1) as u64;
        if j < 52 {
            assert(u.has(j) == (a.has(j) || b.has(j)));
            assert(!(a.has(j) && b.has(j)));
        } else {
            assert(!spec_has(u.spec_bits(), j));
            assert(!spec_has(a.spec_bits(), j));
            assert(!spec_has(b.spec_bits(), j));
        }
    }
}

/// Adding a fresh card grows the hand by one.
pub proof fn lemma_with_size(h: u64, c: u64, n: int)
    requires
        n <= 52,
        c < 52,
        !spec_has(h, c),
        forall|i: u64| i < 52 ==> spec_has(h | (1u64 << c), i) == (spec_has(h, i) || i == c),
    ensures
        c < n ==> count_below(h | (1u64 << c), n) == count_below(h, n) + 1,
        c >= n ==> count_below(h | (1u64 << c), n) == count_below(h, n),
    decreases n,
{
    if n > 0 {
        lemma_with_size(h, c, n - 1);
        let j = (n - 1) as u64;
        if j < 52 {
            assert(spec_has(h | (1u64 << c), j) == (spec_has(h, j) || j == c));
        } else {
            assert(!spec_has(h | (1u64 << c), j));
            assert(!spec_has(h, j));
        }
        assert(count_below(h | (1u64 << c), n) == count_below(h | (1u64 << c), n - 1) + if spec_has(
            h | (1u64 << c),
            j,
        ) {
            1nat
        } else {
            0nat
        });
        assert(count_below(h, n) == count_below(h, n - 1) + if spec_has(h, j) {
            1nat
        } else {
            0nat
        });
    }
}

} // verus!
