//! Kickers: the ranks left over to break ties between equal rankings.

use vstd::prelude::*;

verus! {

/// A set of kicker ranks, stored as a 13-bit mask: bit `r` is set when
/// rank index `r` is one of the kickers.
#[derive(Debug, Clone, Copy, PartialEq, Eq, Structural)]
pub struct Kickers {
    pub mask: u16,
}

impl Kickers {
    /// The raw rank mask.
    pub open spec fn spec_mask(self) -> u16 {
        self.mask
    }

    /// Is rank index `r` one of the kickers?
    pub open spec fn has_rank(self, r: u16) -> bool {
        r < 13 && ((self.mask >> r) & 1u16) == 1u16
    }

    /// A kicker set is well formed when no bit above the ranks is set.
    pub open spec fn wf(self) -> bool {
        self.mask >> 13 == 0u16
    }

    /// The empty kicker set.
    pub fn none() -> (r: Kickers)
        ensures
            r.wf(),
            r.spec_mask() == 0u16,
            forall|i: u16| !r.has_rank(i),
    {
        proof {
            assert(0u16 >> 13 == 0u16) by (bit_vector);
            assert(forall|i: u16| i < 13 ==> ((0u16 >> i) & 1u16) != 1u16) by (bit_vector);
        }
        Kickers { mask: 0 }
    }

    /// A kicker set from a raw rank mask.
    pub fn from_mask(mask: u16) -> (r: Kickers)
        requires
            mask >> 13 == 0u16,
        ensures
            r.wf(),
            r.spec_mask() == mask,
    {
        Kickers { mask }
    }

    /// The kicker set with rank `r` added. Adding a fresh rank raises
    /// the mask by exactly that rank's power of two.
    pub fn with(self, r: u16) -> (out: Kickers)
        requires
            self.wf(),
            r < 13,
        ensures
            out.wf(),
            forall|i: u16| i < 13 ==> (out.has_rank(i) == (self.has_rank(i) || i == r)),
            !self.has_rank(r) ==> out.spec_mask() == self.spec_mask() + vstd::arithmetic::power2::pow2(
                r as nat,
            ),
    {
        proof {
            lemma_kick_or_bit(self.mask, r);
            if !self.has_rank(r) {
                vstd::bits::lemma_u16_pow2_no_overflow(r as nat);
                vstd::bits::lemma_u16_shl_is_mul(1u16, r);
            }
        }
        Kickers { mask: self.mask | (1u16 << r) }
    }
}

/// Setting one rank bit in a 13-bit mask touches exactly that bit, and
/// when the bit was clear the OR is a plain addition.
proof fn lemma_kick_or_bit(m: u16, r: u16)
    by (bit_vector)
    requires
        m >> 13 == 0u16,
        r < 13,
    ensures
        (m | (1u16 << r)) >> 13 == 0u16,
        forall|i: u16| i < 13 ==> ((((m | (1u16 << r)) >> i) & 1u16 == 1u16) == (((m >> i) & 1u16
            == 1u16) || i == r)),
        ((m >> r) & 1u16 != 1u16) ==> (m | (1u16 << r)) == m + (1u16 << r),
{
}

} // verus!
