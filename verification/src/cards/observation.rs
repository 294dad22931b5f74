//! Observations: the memoryless `(pocket, public)` state between deals,
//! and its bijective packing into a 64-bit integer.

use vstd::prelude::*;
use vstd::arithmetic::div_mod::lemma_fundamental_div_mod_converse;
use vstd::arithmetic::power::pow;
use crate::cards::card::Card;
use crate::cards::hand::Hand;
use crate::cards::hand::count_below;
use crate::cards::hand::lemma_hand_extensional;
use crate::cards::street::Street;

verus! {

/// The cards of a board with identifier below `i`, in ascending order.
pub open spec fn spec_upto(h: Hand, i: int) -> Seq<u8>
    decreases i,
{
    if i <= 0 {
        Seq::empty()
    } else {
        spec_upto(h, i - 1) + if h.has((i - 1) as u64) {
            seq![(i - 1) as u8]
        } else {
            Seq::empty()
        }
    }
}

/// All cards of a board, in ascending order.
pub open spec fn spec_cards_seq(h: Hand) -> Seq<u8> {
    spec_upto(h, 52)
}

/// Cards packed into an integer: each card takes one byte, holding its
/// identifier plus one so that no card reads as the empty byte. The
/// first card of the sequence lands in the most significant used byte.
pub open spec fn spec_pack(s: Seq<u8>) -> int
    decreases s.len(),
{
    if s.len() == 0 {
        0
    } else {
        spec_pack(s.drop_last()) * 256 + (s.last() + 1)
    }
}

/// The card list grows one entry per set bit.
proof fn lemma_upto_len(h: Hand, i: int)
    requires
        0 <= i <= 52,
    ensures
        spec_upto(h, i).len() == count_below(h.spec_bits(), i),
    decreases i,
{
    if i > 0 {
        lemma_upto_len(h, i - 1);
    }
}

/// What the card list holds: exactly the set bits below the bound, in
/// ascending order.
proof fn lemma_upto_elems(h: Hand, i: int)
    requires
        0 <= i <= 52,
    ensures
        forall|k: int|
            0 <= k < spec_upto(h, i).len() ==> (#[trigger] spec_upto(h, i)[k]) < i && h.has(
                spec_upto(h, i)[k] as u64,
            ),
        forall|k1: int, k2: int|
            0 <= k1 < k2 < spec_upto(h, i).len() ==> spec_upto(h, i)[k1] < spec_upto(h, i)[k2],
        forall|c: u64| c < i && h.has(c) ==> spec_upto(h, i).contains(c as u8),
    decreases i,
{
    if i > 0 {
        lemma_upto_elems(h, i - 1);
        let s = spec_upto(h, i);
        let t = spec_upto(h, i - 1);
        assert forall|c: u64| c < i && h.has(c) implies s.contains(c as u8) by {
            if c < i - 1 {
                let k = choose|k: int| 0 <= k < t.len() && t[k] == c as u8;
                assert(s[k] == c as u8);
            } else {
                assert(s[s.len() - 1] == c as u8);
            }
        }
    }
}

/// A packed value is never negative.
proof fn lemma_pack_nonneg(s: Seq<u8>)
    ensures
        spec_pack(s) >= 0,
    decreases s.len(),
{
    if s.len() > 0 {
        lemma_pack_nonneg(s.drop_last());
    }
}

/// A packed value is bounded by one byte per card, and a non-empty
/// pack is at least one.
proof fn lemma_pack_bounds(s: Seq<u8>)
    requires
        forall|k: int| 0 <= k < s.len() ==> (#[trigger] s[k]) < 255,
    ensures
        0 <= spec_pack(s) < pow(256, s.len() as nat),
        s.len() >= 1 ==> spec_pack(s) >= pow(256, (s.len() - 1) as nat),
    decreases s.len(),
{
    reveal(pow);
    if s.len() == 0 {
        assert(pow(256, 0nat) == 1);
    } else {
        assert forall|k: int| 0 <= k < s.drop_last().len() implies (#[trigger] s.drop_last()[k])
            < 255 by {
            assert(s.drop_last()[k] == s[k]);
        }
        lemma_pack_bounds(s.drop_last());
        assert(pow(256, s.len() as nat) == 256 * pow(256, (s.len() - 1) as nat));
        if s.len() >= 2 {
            assert(pow(256, (s.len() - 1) as nat) == 256 * pow(256, (s.len() - 2) as nat));
        } else {
            assert(pow(256, 0nat) == 1);
        }
    }
}

/// Packing is injective on card sequences.
proof fn lemma_pack_injective(s1: Seq<u8>, s2: Seq<u8>)
    requires
        forall|k: int| 0 <= k < s1.len() ==> (#[trigger] s1[k]) < 255,
        forall|k: int| 0 <= k < s2.len() ==> (#[trigger] s2[k]) < 255,
        spec_pack(s1) == spec_pack(s2),
    ensures
        s1 == s2,
    decreases s1.len(),
{
    reveal(pow);
    lemma_pack_bounds(s1);
    lemma_pack_bounds(s2);
    if s1.len() == 0 || s2.len() == 0 {
        if s1.len() != s2.len() {
            assert(pow(256, 0nat) == 1);
        }
        assert(s1 =~= s2);
    } else {
        let q1 = spec_pack(s1.drop_last());
        let q2 = spec_pack(s2.drop_last());
        lemma_pack_nonneg(s1.drop_last());
        lemma_pack_nonneg(s2.drop_last());
        lemma_fundamental_div_mod_converse(spec_pack(s1), 256, q1, s1.last() + 1);
        lemma_fundamental_div_mod_converse(spec_pack(s2), 256, q2, s2.last() + 1);
        assert(s1.last() == s2.last());
        assert(q1 == q2);
        lemma_pack_injective(s1.drop_last(), s2.drop_last());
        assert(s1 =~= s1.drop_last().push(s1.last()));
        assert(s2 =~= s2.drop_last().push(s2.last()));
    }
}

/// Appending one card multiplies the pack by 256 and adds the byte.
proof fn lemma_pack_push(s: Seq<u8>, c: u8)
    ensures
        spec_pack(s.push(c)) == spec_pack(s) * 256 + (c + 1),
{
    assert(s.push(c).drop_last() =~= s);
    assert(s.push(c).last() == c);
}

/// The memoryless state of one player's view: two pocket cards and the
/// public board. The pocket and the board never share a card.
#[derive(Debug, Clone, Copy, PartialEq, Eq, Structural)]
pub struct Observation {
    pub pocket: Hand,
    pub public: Hand,
}

impl Observation {
    /// An observation is well formed when both hands are well formed
    /// and disjoint, the pocket holds two cards, and the board holds as
    /// many cards as some street shows.
    pub open spec fn wf(self) -> bool {
        &&& self.pocket.wf()
        &&& self.public.wf()
        &&& self.pocket.disjoint(self.public)
        &&& self.pocket.size() == 2
        &&& (self.public.size() == 0 || self.public.size() == 3 || self.public.size() == 4
            || self.public.size() == 5)
    }

    /// The street implied by the board size.
    pub open spec fn spec_street(self) -> Street {
        if self.public.size() == 0 {
            Street::Pref
        } else if self.public.size() == 3 {
            Street::Flop
        } else if self.public.size() == 4 {
            Street::Turn
        } else {
            Street::Rive
        }
    }

    /// The packed form: public cards then pocket cards, each one byte,
    /// the last pocket card in the least significant byte.
    pub open spec fn spec_encode(self) -> int {
        spec_pack(spec_cards_seq(self.public) + spec_cards_seq(self.pocket))
    }

    /// Assemble an observation from the two hands.
    pub fn new(pocket: Hand, public: Hand) -> (o: Observation)
        requires
            pocket.wf(),
            public.wf(),
            pocket.disjoint(public),
            pocket.size() == 2,
            public.size() == 0 || public.size() == 3 || public.size() == 4 || public.size() == 5,
        ensures
            o.wf(),
            o.pocket == pocket,
            o.public == public,
    {
        Observation { pocket, public }
    }

    /// The two private cards.
    pub fn pocket(&self) -> (r: Hand)
        ensures
            r == self.pocket,
    {
        self.pocket
    }

    /// The public board.
    pub fn public(&self) -> (r: Hand)
        ensures
            r == self.public,
    {
        self.public
    }

    /// The street this observation sits on.
    pub fn street(&self) -> (r: Street)
        requires
            self.wf(),
        ensures
            r == self.spec_street(),
    {
        let n = self.public.count();
        if n == 0 {
            Street::Pref
        } else if n == 3 {
            Street::Flop
        } else if n == 4 {
            Street::Turn
        } else {
            Street::Rive
        }
    }

    /// Pack the observation into a signed 64-bit integer.
    pub fn encode(&self) -> (r: i64)
        requires
            self.wf(),
        ensures
            r == self.spec_encode(),
            r >= 0,
    {
        let mut acc: u64 = 0;
        let ghost pub_seq = spec_cards_seq(self.public);
        let ghost pk_seq = spec_cards_seq(self.pocket);
        proof {
            lemma_upto_len(self.public, 52);
            lemma_upto_len(self.pocket, 52);
            lemma_upto_elems(self.public, 52);
            lemma_upto_elems(self.pocket, 52);
        }
        let mut i: u64 = 0;
        while i < 52
            invariant
                i <= 52,
                self.wf(),
                pub_seq == spec_cards_seq(self.public),
                acc == spec_pack(spec_upto(self.public, i as int)),
                spec_upto(self.public, i as int).len() <= 5,
                acc < 0x100_0000_0000,
            decreases 52 - i,
        {
            if (self.public.bits() >> i) & 1u64 == 1u64 {
                proof {
                    lemma_pack_push(spec_upto(self.public, i as int), i as u8);
                    assert(spec_upto(self.public, i as int + 1) =~= spec_upto(
                        self.public,
                        i as int,
                    ).push(i as u8));
                    lemma_upto_len(self.public, i as int + 1);
                    crate::cards::hand::lemma_count_monotone(
                        self.public.spec_bits(),
                        i as int + 1,
                        52,
                    );
                    lemma_upto_elems(self.public, i as int + 1);
                    lemma_pack_bounds(spec_upto(self.public, i as int + 1));
                    lemma_pow_le_5(spec_upto(self.public, i as int + 1).len() as nat);
                }
                acc = acc * 256 + (i + 1);
            } else {
                proof {
                    assert(spec_upto(self.public, i as int + 1) =~= spec_upto(
                        self.public,
                        i as int,
                    ));
                }
            }
            i = i + 1;
        }
        let ghost base = pub_seq;
        let mut j: u64 = 0;
        while j < 52
            invariant
                j <= 52,
                self.wf(),
                base == spec_cards_seq(self.public),
                base.len() <= 5,
                acc == spec_pack(base + spec_upto(self.pocket, j as int)),
                spec_upto(self.pocket, j as int).len() <= 2,
                acc < 0x100_0000_0000_0000,
            decreases 52 - j,
        {
            if (self.pocket.bits() >> j) & 1u64 == 1u64 {
                proof {
                    lemma_pack_push(base + spec_upto(self.pocket, j as int), j as u8);
                    assert(base + spec_upto(self.pocket, j as int + 1) =~= (base + spec_upto(
                        self.pocket,
                        j as int,
                    )).push(j as u8));
                    lemma_upto_len(self.pocket, j as int + 1);
                    crate::cards::hand::lemma_count_monotone(
                        self.pocket.spec_bits(),
                        j as int + 1,
                        52,
                    );
                    lemma_upto_elems(self.pocket, j as int + 1);
                    lemma_upto_elems(self.public, 52);
                    assert forall|k: int|
                        0 <= k < (base + spec_upto(self.pocket, j as int + 1)).len() implies (
                    #[trigger] (base + spec_upto(self.pocket, j as int + 1))[k]) < 255 by {
                        if k < base.len() {
                            assert((base + spec_upto(self.pocket, j as int + 1))[k] == base[k]);
                        } else {
                            assert((base + spec_upto(self.pocket, j as int + 1))[k] == spec_upto(
                                self.pocket,
                                j as int + 1,
                            )[k - base.len()]);
                        }
                    }
                    lemma_pack_bounds(base + spec_upto(self.pocket, j as int + 1));
                    lemma_pow_le_7((base + spec_upto(self.pocket, j as int + 1)).len() as nat);
                }
                acc = acc * 256 + (j + 1);
            } else {
                proof {
                    assert(base + spec_upto(self.pocket, j as int + 1) =~= base + spec_upto(
                        self.pocket,
                        j as int,
                    ));
                }
            }
            j = j + 1;
        }
        proof {
            lemma_pack_nonneg(base + spec_upto(self.pocket, 52));
        }
        acc as i64
    }

    /// Unpack an observation from its signed 64-bit form. The input
    /// must be the packing of some well-formed observation; the result
    /// is that observation.
    pub fn decode(bits: i64) -> (r: Observation)
        requires
            exists|o: Observation| o.wf() && bits == o.spec_encode(),
        ensures
            r.wf(),
            r.spec_encode() == bits,
    {
        let ghost o = choose|o: Observation| o.wf() && bits == o.spec_encode();
        let ghost pub_seq = spec_cards_seq(o.public);
        let ghost pk_seq = spec_cards_seq(o.pocket);
        let ghost s = pub_seq + pk_seq;
        proof {
            lemma_upto_len(o.public, 52);
            lemma_upto_len(o.pocket, 52);
            lemma_upto_elems(o.public, 52);
            lemma_upto_elems(o.pocket, 52);
            lemma_pack_nonneg(s);
            assert forall|k: int| 0 <= k < s.len() implies (#[trigger] s[k]) < 52 by {
                if k < pub_seq.len() {
                    assert(s[k] == pub_seq[k]);
                } else {
                    assert(s[k] == pk_seq[k - pub_seq.len()]);
                }
            }
            lemma_pack_bounds(s);
            lemma_pow_le_7(s.len() as nat);
        }
        proof {
            assert(s.take(s.len() as int) =~= s);
        }
        let mut v: u64 = bits as u64;
        let mut i: usize = 0;
        let mut pocket = Hand::empty();
        let mut public = Hand::empty();
        while v > 0
            invariant
                i <= s.len(),
                s.len() == pub_seq.len() + 2,
                pub_seq.len() <= 5,
                pk_seq.len() == 2,
                s == pub_seq + pk_seq,
                forall|k: int| 0 <= k < s.len() ==> (#[trigger] s[k]) < 52,
                v == spec_pack(s.take(s.len() - i)),
                pocket.wf(),
                public.wf(),
                forall|c: u64|
                    c < 52 ==> (pocket.has(c) == exists|k: int|
                        s.len() - i <= k < s.len() && k >= s.len() - 2 && s[k] == c),
                forall|c: u64|
                    c < 52 ==> (public.has(c) == exists|k: int|
                        s.len() - i <= k < s.len() - 2 && s[k] == c),
            decreases v,
        {
            let ghost m = s.len() - i;
            proof {
                if m == 0 {
                    assert(s.take(0) =~= Seq::<u8>::empty());
                }
                assert(m >= 1);
                let t = s.take(m);
                assert(t.drop_last() =~= s.take(m - 1));
                lemma_pack_nonneg(s.take(m - 1));
                lemma_fundamental_div_mod_converse(
                    spec_pack(t),
                    256,
                    spec_pack(s.take(m - 1)),
                    t.last() + 1,
                );
            }
            let byte = v % 256;
            let c = (byte - 1) as u8;
            let card = Card::new(c);
            proof {
                assert(s[m - 1] == c);
            }
            if i < 2 {
                let ghost before = pocket;
                pocket = pocket.with(card);
                proof {
                    assert forall|x: u64| x < 52 implies (pocket.has(x) == exists|k: int|
                        s.len() - (i + 1) <= k < s.len() && k >= s.len() - 2 && s[k] == x) by {
                        if pocket.has(x) {
                            if x == c as u64 {
                                assert(s.len() - (i + 1) <= m - 1 < s.len() && m - 1 >= s.len() - 2
                                    && s[m - 1] == x);
                            } else {
                                let k = choose|k: int|
                                    s.len() - i <= k < s.len() && k >= s.len() - 2 && s[k] == x;
                                assert(s.len() - (i + 1) <= k < s.len() && k >= s.len() - 2 && s[k]
                                    == x);
                            }
                        } else {
                            if exists|k: int|
                                s.len() - (i + 1) <= k < s.len() && k >= s.len() - 2 && s[k] == x {
                                let k = choose|k: int|
                                    s.len() - (i + 1) <= k < s.len() && k >= s.len() - 2 && s[k]
                                        == x;
                                if k == m - 1 {
                                    assert(x == c as u64);
                                } else {
                                    assert(before.has(x));
                                }
                            }
                        }
                    }
                }
            } else {
                let ghost before = public;
                public = public.with(card);
                proof {
                    assert(m - 1 < s.len() - 2);
                    assert forall|x: u64| x < 52 implies (public.has(x) == exists|k: int|
                        s.len() - (i + 1) <= k < s.len() - 2 && s[k] == x) by {
                        if public.has(x) {
                            if x == c as u64 {
                                assert(s.len() - (i + 1) <= m - 1 < s.len() - 2 && s[m - 1] == x);
                            } else {
                                let k = choose|k: int|
                                    s.len() - i <= k < s.len() - 2 && s[k] == x;
                                assert(s.len() - (i + 1) <= k < s.len() - 2 && s[k] == x);
                            }
                        } else {
                            if exists|k: int| s.len() - (i + 1) <= k < s.len() - 2 && s[k] == x {
                                let k = choose|k: int|
                                    s.len() - (i + 1) <= k < s.len() - 2 && s[k] == x;
                                if k == m - 1 {
                                    assert(x == c as u64);
                                } else {
                                    assert(before.has(x));
                                }
                            }
                        }
                    }
                }
            }
            v = v / 256;
            i = i + 1;
        }
        proof {
            let m = s.len() - i;
            if m > 0 {
                assert forall|k: int| 0 <= k < m implies (#[trigger] s.take(m as int)[k])
                    < 255 by {
                    assert(s.take(m as int)[k] == s[k]);
                }
                lemma_pack_bounds(s.take(m as int));
                lemma_pow_ge_1((m - 1) as nat);
            }
            assert(i == s.len());
            assert forall|c: u64| c < 52 implies (pocket.has(c) == o.pocket.has(c)) by {
                if pocket.has(c) {
                    let k = choose|k: int|
                        0 <= k < s.len() && k >= s.len() - 2 && s[k] == c;
                    assert(pk_seq[k - pub_seq.len()] == c);
                    assert(o.pocket.has(pk_seq[k - pub_seq.len()] as u64));
                } else {
                    if o.pocket.has(c) {
                        assert(pk_seq.contains(c as u8));
                        let j = choose|j: int| 0 <= j < pk_seq.len() && pk_seq[j] == c as u8;
                        assert(s[pub_seq.len() + j] == c as u8);
                        assert(pub_seq.len() + j >= s.len() - 2);
                    }
                }
            }
            assert forall|c: u64| c < 52 implies (public.has(c) == o.public.has(c)) by {
                if public.has(c) {
                    let k = choose|k: int| 0 <= k < s.len() - 2 && s[k] == c;
                    assert(pub_seq[k] == c);
                    assert(o.public.has(pub_seq[k] as u64));
                } else {
                    if o.public.has(c) {
                        assert(pub_seq.contains(c as u8));
                        let j = choose|j: int| 0 <= j < pub_seq.len() && pub_seq[j] == c as u8;
                        assert(s[j] == c as u8);
                    }
                }
            }
            lemma_hand_extensional(pocket, o.pocket);
            lemma_hand_extensional(public, o.public);
        }
        Observation { pocket, public }
    }

    /// Every observation reachable by dealing the next street's cards,
    /// each exactly once. The board grows by the street's reveal count;
    /// the pocket stays; the river has no children.
    pub fn children(&self) -> (res: Vec<Observation>)
        requires
            self.wf(),
        ensures
            forall|k: int| 0 <= k < res@.len() ==> {
                &&& (#[trigger] res@[k]).wf()
                &&& res@[k].pocket == self.pocket
                &&& res@[k].public.size() == self.public.size()
                    + self.spec_street().spec_n_revealed()
            },
            forall|k1: int, k2: int| 0 <= k1 < k2 < res@.len() ==> res@[k1] != res@[k2],
            self.spec_street() != Street::Rive ==> forall|rv: Hand|
                rv.wf() && rv.size() == self.spec_street().spec_n_revealed() && rv.disjoint(
                    self.pocket,
                ) && rv.disjoint(self.public) ==> #[trigger] res@.contains(
                    Observation {
                        pocket: self.pocket,
                        public: crate::cards::hand::spec_union(self.public, rv),
                    },
                ),
    {
        let street = self.street();
        let n = street.n_revealed();
        let mut out: Vec<Observation> = Vec::new();
        if n == 0 {
            return out;
        }
        let removed = Hand::add(self.pocket, self.public);
        let reveals = crate::cards::hands::combos_from(removed, n, 0);
        let mut j: usize = 0;
        while j < reveals.len()
            invariant
                j <= reveals@.len(),
                self.wf(),
                removed.wf(),
                n == self.spec_street().spec_n_revealed(),
                1 <= n <= 3,
                forall|i: u64| i < 52 ==> (removed.has(i) == (self.pocket.has(i)
                    || self.public.has(i))),
                forall|k: int| 0 <= k < reveals@.len() ==> crate::cards::hands::spec_combo(
                    #[trigger] reveals@[k],
                    removed,
                    n as int,
                    0,
                ),
                out@.len() == j,
                forall|jj: int|
                    0 <= jj < j ==> (#[trigger] out@[jj]) == (Observation {
                        pocket: self.pocket,
                        public: crate::cards::hand::spec_union(self.public, reveals@[jj]),
                    }),
                forall|k: int| 0 <= k < out@.len() ==> {
                    &&& (#[trigger] out@[k]).wf()
                    &&& out@[k].pocket == self.pocket
                    &&& out@[k].public.size() == self.public.size()
                        + self.spec_street().spec_n_revealed()
                },
            decreases reveals@.len() - j,
        {
            let reveal = reveals[j];
            let board = Hand::add(self.public, reveal);
            proof {
                assert(self.public.disjoint(reveal));
                crate::cards::hand::lemma_union_count(self.public, reveal, board, 52);
                assert(self.pocket.disjoint(board));
                assert(board == crate::cards::hand::spec_union(self.public, reveal));
            }
            out.push(Observation { pocket: self.pocket, public: board });
            j = j + 1;
        }
        proof {
            assert forall|k1: int, k2: int| 0 <= k1 < k2 < out@.len() implies out@[k1]
                != out@[k2] by {
                if out@[k1] == out@[k2] {
                    crate::cards::hand::lemma_union_cancels(
                        self.public,
                        reveals@[k1],
                        reveals@[k2],
                    );
                }
            }
            assert forall|rv: Hand|
                rv.wf() && rv.size() == self.spec_street().spec_n_revealed() && rv.disjoint(
                    self.pocket,
                ) && rv.disjoint(self.public) implies #[trigger] out@.contains(
                Observation {
                    pocket: self.pocket,
                    public: crate::cards::hand::spec_union(self.public, rv),
                },
            ) by {
                assert forall|i: u64| i < 52 implies !(rv.has(i) && removed.has(i)) by {}
                assert(crate::cards::hands::spec_combo(rv, removed, n as int, 0));
                assert(reveals@.contains(rv));
                let jj = choose|jj: int| 0 <= jj < reveals@.len() && reveals@[jj] == rv;
                assert(out@[jj] == Observation {
                    pocket: self.pocket,
                    public: crate::cards::hand::spec_union(self.public, reveals@[jj]),
                });
            }
        }
        out
    }
}


/// The first eight powers of 256, unfolded.
proof fn lemma_pow256_table()
    ensures
        pow(256, 0nat) == 1,
        pow(256, 1nat) == 0x100,
        pow(256, 2nat) == 0x10000,
        pow(256, 3nat) == 0x1000000,
        pow(256, 4nat) == 0x100000000,
        pow(256, 5nat) == 0x10000000000,
        pow(256, 6nat) == 0x1000000000000,
        pow(256, 7nat) == 0x100000000000000,
{
    reveal(pow);
    assert(pow(256, 0nat) == 1);
    assert(pow(256, 1nat) == 256 * pow(256, 0nat));
    assert(pow(256, 2nat) == 256 * pow(256, 1nat));
    assert(pow(256, 3nat) == 256 * pow(256, 2nat));
    assert(pow(256, 4nat) == 256 * pow(256, 3nat));
    assert(pow(256, 5nat) == 256 * pow(256, 4nat));
    assert(pow(256, 6nat) == 256 * pow(256, 5nat));
    assert(pow(256, 7nat) == 256 * pow(256, 6nat));
}

/// Small powers of 256 stay below the fixed-width bounds.
proof fn lemma_pow_le_5(n: nat)
    requires
        n <= 5,
    ensures
        pow(256, n) <= 0x100_0000_0000,
{
    lemma_pow256_table();
    vstd::arithmetic::power::lemma_pow_increases(256, n, 5nat);
}

/// Powers of 256 up to seven bytes fit in an unsigned 64-bit word.
proof fn lemma_pow_le_7(n: nat)
    requires
        n <= 7,
    ensures
        pow(256, n) <= 0x100_0000_0000_0000,
{
    lemma_pow256_table();
    vstd::arithmetic::power::lemma_pow_increases(256, n, 7nat);
}

/// Any power of 256 is at least one.
proof fn lemma_pow_ge_1(n: nat)
    ensures
        pow(256, n) >= 1,
{
    vstd::arithmetic::power::lemma_pow_positive(256, n);
}

/// Packing distinct well-formed observations gives distinct integers.
pub proof fn lemma_encode_injective(o1: Observation, o2: Observation)
    requires
        o1.wf(),
        o2.wf(),
        o1.spec_encode() == o2.spec_encode(),
    ensures
        o1 == o2,
{
    let s1 = spec_cards_seq(o1.public) + spec_cards_seq(o1.pocket);
    let s2 = spec_cards_seq(o2.public) + spec_cards_seq(o2.pocket);
    lemma_upto_len(o1.public, 52);
    lemma_upto_len(o1.pocket, 52);
    lemma_upto_len(o2.public, 52);
    lemma_upto_len(o2.pocket, 52);
    lemma_upto_elems(o1.public, 52);
    lemma_upto_elems(o1.pocket, 52);
    lemma_upto_elems(o2.public, 52);
    lemma_upto_elems(o2.pocket, 52);
    lemma_pack_injective(s1, s2);
    let pub1 = spec_cards_seq(o1.public);
    let pk1 = spec_cards_seq(o1.pocket);
    let pub2 = spec_cards_seq(o2.public);
    let pk2 = spec_cards_seq(o2.pocket);
    assert(pk1.len() == 2);
    assert(pk2.len() == 2);
    assert(s1.len() == s2.len());
    assert(pub1.len() == pub2.len());
    assert(pk1 =~= pk2) by {
        assert forall|j: int| 0 <= j < 2 implies pk1[j] == pk2[j] by {
            assert(s1[pub1.len() + j] == s2[pub2.len() + j]);
        }
    }
    assert(pub1 =~= pub2) by {
        assert forall|j: int| 0 <= j < pub1.len() implies pub1[j] == pub2[j] by {
            assert(s1[j] == s2[j]);
        }
    }
    lemma_same_cards(o1.pocket, o2.pocket);
    lemma_same_cards(o1.public, o2.public);
}

impl Observation {
    /// All seven cards the hero can use.
    pub open spec fn spec_board(self) -> Hand {
        crate::cards::hand::spec_union(self.pocket, self.public)
    }

    /// Is card `c` still in the deck for an opponent?
    pub open spec fn spec_free(self, c: int) -> bool {
        0 <= c < 52 && !self.spec_board().has(c as u64)
    }

    /// The hero's packed strength over pocket and board.
    pub open spec fn spec_hero_value(self) -> int {
        crate::cards::evaluator::spec_strength_value(
            self.spec_board(),
            crate::cards::evaluator::DeckMode::Full,
        )
    }

    /// An opponent's packed strength holding `c1` and `c2`.
    pub open spec fn spec_villain_value(self, c1: int, c2: int) -> int {
        crate::cards::evaluator::spec_strength_value(
            crate::cards::hand::spec_with(
                crate::cards::hand::spec_with(self.public, c1 as u64),
                c2 as u64,
            ),
            crate::cards::evaluator::DeckMode::Full,
        )
    }

    /// One for a match-up the hero wins: both opponent cards free, in
    /// order, and the hero's strength strictly higher.
    pub open spec fn spec_pair_win(self, c1: int, c2: int) -> int {
        if c1 < c2 && self.spec_free(c1) && self.spec_free(c2) && self.spec_hero_value()
            > self.spec_villain_value(c1, c2) {
            1int
        } else {
            0int
        }
    }

    /// One for a decided match-up: both opponent cards free, in order,
    /// and the strengths differ. Ties count for neither side.
    pub open spec fn spec_pair_decided(self, c1: int, c2: int) -> int {
        if c1 < c2 && self.spec_free(c1) && self.spec_free(c2) && self.spec_hero_value()
            != self.spec_villain_value(c1, c2) {
            1int
        } else {
            0int
        }
    }

    /// Won match-ups with first card `c1` and second card below `j`.
    pub open spec fn spec_row_wins(self, c1: int, j: int) -> int
        decreases j,
    {
        if j <= 0 {
            0
        } else {
            self.spec_row_wins(c1, j - 1) + self.spec_pair_win(c1, j - 1)
        }
    }

    /// Decided match-ups with first card `c1` and second card below `j`.
    pub open spec fn spec_row_decided(self, c1: int, j: int) -> int
        decreases j,
    {
        if j <= 0 {
            0
        } else {
            self.spec_row_decided(c1, j - 1) + self.spec_pair_decided(c1, j - 1)
        }
    }

    /// Won match-ups over all opponent pockets with first card below `i`.
    pub open spec fn spec_wins(self, i: int) -> int
        decreases i,
    {
        if i <= 0 {
            0
        } else {
            self.spec_wins(i - 1) + self.spec_row_wins(i - 1, 52)
        }
    }

    /// Decided match-ups over all opponent pockets with first card below `i`.
    pub open spec fn spec_decided(self, i: int) -> int
        decreases i,
    {
        if i <= 0 {
            0
        } else {
            self.spec_decided(i - 1) + self.spec_row_decided(i - 1, 52)
        }
    }

    /// River equity counts: how many of the legal two-card opponent
    /// pockets the hero beats, and how many are decided at all. Tied
    /// match-ups are excluded from both counts.
    pub fn equity(&self) -> (r: (u32, u32))
        requires
            self.wf(),
            self.spec_street() == Street::Rive,
        ensures
            r.0 == self.spec_wins(52),
            r.1 == self.spec_decided(52),
            r.0 <= r.1,
    {
        let board = Hand::add(self.pocket, self.public);
        proof {
            crate::cards::hand::lemma_union_count(self.pocket, self.public, board, 52);
            assert(board == self.spec_board());
        }
        let hero = crate::cards::evaluator::Evaluator::from_hand(board).strength().value();
        let mut wins: u32 = 0;
        let mut decided: u32 = 0;
        let mut c1: u8 = 0;
        while c1 < 52
            invariant
                c1 <= 52,
                self.wf(),
                board == self.spec_board(),
                board.wf(),
                hero == self.spec_hero_value(),
                wins == self.spec_wins(c1 as int),
                decided == self.spec_decided(c1 as int),
                wins <= decided,
                decided <= (c1 as int) * 52,
            decreases 52 - c1,
        {
            proof {
                lemma_row_bounds(*self, c1 as int, 52);
                crate::cards::hand::lemma_spec_union(self.pocket, self.public);
                assert((c1 as int + 1) * 52 == (c1 as int) * 52 + 52) by (nonlinear_arith);
            }
            if board.contains(Card::new(c1)) {
                proof {
                    lemma_row_empty(*self, c1 as int, 52);
                }
            } else {
                let mut c2: u8 = c1 + 1;
                proof {
                    lemma_row_low(*self, c1 as int, c1 as int + 1);
                }
                while c2 < 52
                    invariant
                        c1 < c2 <= 52,
                        self.wf(),
                        board == self.spec_board(),
                        board.wf(),
                        !board.has(c1 as u64),
                        hero == self.spec_hero_value(),
                        wins == self.spec_wins(c1 as int) + self.spec_row_wins(c1 as int, c2 as int),
                        decided == self.spec_decided(c1 as int) + self.spec_row_decided(
                            c1 as int,
                            c2 as int,
                        ),
                        wins <= decided,
                        decided <= (c1 as int) * 52 + c2,
                    decreases 52 - c2,
                {
                    proof {
                        crate::cards::hand::lemma_spec_union(self.pocket, self.public);
                    }
                    if !board.contains(Card::new(c2)) {
                        let held1 = self.public.with(Card::new(c1));
                        proof {
                            assert(!self.public.has(c1 as u64));
                            crate::cards::hand::lemma_spec_with(self.public, c1 as u64);
                            assert(held1 == crate::cards::hand::spec_with(
                                self.public,
                                c1 as u64,
                            ));
                        }
                        let villain = held1.with(Card::new(c2));
                        proof {
                            assert(!held1.has(c2 as u64));
                            crate::cards::hand::lemma_spec_with(held1, c2 as u64);
                            assert(villain == crate::cards::hand::spec_with(held1, c2 as u64));
                            assert(villain.size() == self.public.size() + 2);
                        }
                        let v = crate::cards::evaluator::Evaluator::from_hand(
                            villain,
                        ).strength().value();
                        if hero > v {
                            wins = wins + 1;
                        }
                        if hero != v {
                            decided = decided + 1;
                        }
                    }
                    c2 = c2 + 1;
                }
            }
            c1 = c1 + 1;
        }
        (wins, decided)
    }
}

/// A used first card decides no match-ups in its row.
proof fn lemma_row_empty(o: Observation, c1: int, j: int)
    requires
        !o.spec_free(c1),
    ensures
        o.spec_row_wins(c1, j) == 0,
        o.spec_row_decided(c1, j) == 0,
    decreases j,
{
    if j > 0 {
        lemma_row_empty(o, c1, j - 1);
    }
}

/// No match-up pairs a first card with a second at or below it.
proof fn lemma_row_low(o: Observation, c1: int, j: int)
    requires
        j <= c1 + 1,
    ensures
        o.spec_row_wins(c1, j) == 0,
        o.spec_row_decided(c1, j) == 0,
    decreases j,
{
    if j > 0 {
        lemma_row_low(o, c1, j - 1);
    }
}

/// Row counts never pass one per second card, wins never pass decided.
proof fn lemma_row_bounds(o: Observation, c1: int, j: int)
    requires
        j >= 0,
    ensures
        0 <= o.spec_row_wins(c1, j) <= o.spec_row_decided(c1, j) <= j,
    decreases j,
{
    if j > 0 {
        lemma_row_bounds(o, c1, j - 1);
    }
}

/// Discretize an equity count into one of `equities` equal-width
/// buckets: the winning fraction scaled to the bucket space, capped at
/// the top bucket; an all-tie observation lands in the middle bucket.
pub fn equity_bucket(wins: u32, total: u32, equities: u32) -> (b: u32)
    requires
        equities >= 1,
        wins <= total,
    ensures
        total == 0 ==> b == equities / 2,
        total > 0 ==> b == if (wins as int) * (equities as int) / (total as int) < equities {
            (wins as int) * (equities as int) / (total as int)
        } else {
            equities as int - 1
        },
{
    if total == 0 {
        equities / 2
    } else {
        proof {
            assert((wins as int) * (equities as int) <= 0xFFFF_FFFF * 0xFFFF_FFFF)
                by (nonlinear_arith)
                requires
                    wins <= 0xFFFF_FFFF,
                    equities <= 0xFFFF_FFFF,
            ;
        }
        let scaled = ((wins as u64) * (equities as u64)) / (total as u64);
        if scaled < equities as u64 {
            scaled as u32
        } else {
            equities - 1
        }
    }
}


/// A cursor over every observation of one street: all two-card pockets,
/// and for each pocket every board of the street's size drawn from the
/// remaining deck. Both layers enumerate in ascending lexicographic
/// order and their cursors strictly advance, so iteration progresses.
pub struct ObservationIterator {
    pub street: Street,
    pub pockets: crate::cards::hands::HandIterator,
    pub pocket: Option<Hand>,
    pub boards: crate::cards::hands::HandIterator,
}

impl ObservationIterator {
    /// The cursor is well formed: the pocket layer deals two cards from
    /// the full deck, and the board layer deals the street's count from
    /// the deck less the current pocket.
    pub open spec fn wf(self) -> bool {
        &&& self.pockets.wf()
        &&& self.pockets.n == 2
        &&& self.boards.wf()
        &&& match self.pocket {
            Some(pk) => {
                &&& pk.wf()
                &&& pk.size() == 2
                &&& self.boards.n == self.street.spec_n_observed()
                &&& self.boards.removed == pk
            },
            None => true,
        }
    }

    /// The next observation of the street, or nothing once every
    /// pocket's boards are spent.
    pub fn next(&mut self) -> (res: Option<Observation>)
        requires
            old(self).wf(),
        ensures
            final(self).wf(),
            final(self).street == old(self).street,
            match res {
                Some(o) => o.wf() && o.spec_street() == old(self).street,
                None => true,
            },
    {
        let pk = match self.pocket {
            Some(pk) => pk,
            None => {
                return None;
            },
        };
        match self.boards.next() {
            Some(board) => Some(self.assemble(pk, board)),
            None => {
                match self.pockets.next() {
                    None => {
                        self.pocket = None;
                        None
                    },
                    Some(pk2) => {
                        self.pocket = Some(pk2);
                        self.boards = crate::cards::hands::HandIterator::new(
                            self.street.n_observed() as usize,
                            pk2,
                        );
                        match self.boards.next() {
                            Some(board) => Some(self.assemble(pk2, board)),
                            None => {
                                self.pocket = None;
                                None
                            },
                        }
                    },
                }
            },
        }
    }

    /// Pair a pocket with a board of the street's size.
    fn assemble(&self, pk: Hand, board: Hand) -> (o: Observation)
        requires
            pk.wf(),
            pk.size() == 2,
            board.wf(),
            board.size() == self.street.spec_n_observed(),
            pk.disjoint(board),
        ensures
            o.wf(),
            o.spec_street() == self.street,
    {
        proof {
            assert forall|i: u64| i < 52 implies !(pk.has(i) && board.has(i)) by {}
        }
        Observation::new(pk, board)
    }
}

impl Observation {
    /// Every observation of the given street, as a cursor: each call
    /// to `next` yields one well-formed observation of the street until
    /// the space is exhausted.
    pub fn exhaust(street: Street) -> (it: ObservationIterator)
        ensures
            it.wf(),
            it.street == street,
    {
        let mut pockets = crate::cards::hands::HandIterator::new(2, Hand::empty());
        let pocket = pockets.next();
        match pocket {
            Some(pk) => {
                let boards = crate::cards::hands::HandIterator::new(
                    street.n_observed() as usize,
                    pk,
                );
                ObservationIterator { street, pockets, pocket: Some(pk), boards }
            },
            None => {
                let boards = crate::cards::hands::HandIterator::new(
                    street.n_observed() as usize,
                    Hand::empty(),
                );
                ObservationIterator { street, pockets, pocket: None, boards }
            },
        }
    }
}

/// Boards with the same ascending card list are the same board.
proof fn lemma_same_cards(h1: Hand, h2: Hand)
    requires
        h1.wf(),
        h2.wf(),
        spec_cards_seq(h1) == spec_cards_seq(h2),
    ensures
        h1 == h2,
{
    lemma_upto_elems(h1, 52);
    lemma_upto_elems(h2, 52);
    assert forall|c: u64| c < 52 implies (h1.has(c) == h2.has(c)) by {
        if h1.has(c) {
            assert(spec_cards_seq(h1).contains(c as u8));
            let k = choose|k: int|
                0 <= k < spec_cards_seq(h2).len() && spec_cards_seq(h2)[k] == c as u8;
            assert(h2.has(spec_cards_seq(h2)[k] as u64));
        }
        if h2.has(c) {
            assert(spec_cards_seq(h2).contains(c as u8));
            let k = choose|k: int|
                0 <= k < spec_cards_seq(h1).len() && spec_cards_seq(h1)[k] == c as u8;
            assert(h1.has(spec_cards_seq(h1)[k] as u64));
        }
    }
    lemma_hand_extensional(h1, h2);
}

} // verus!
