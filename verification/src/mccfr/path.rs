//! A 64-bit summary of a betting sub-sequence.

use vstd::prelude::*;

verus! {

/// A betting path summary. It is a hash of the history, not the
/// history itself; two paths compare only for equality.
#[derive(Debug, Clone, Copy, PartialEq, Eq, Structural)]
pub struct Path {
    pub bits: u64,
}

impl Path {
    /// Wrap a raw summary.
    pub fn from_bits(bits: u64) -> (p: Path)
        ensures
            p.bits == bits,
    {
        Path { bits }
    }

    /// A summary from a depth and a raise flag: the depth shifted up
    /// one bit, the flag in the low bit.
    pub fn from_depth(depth: usize, raise: bool) -> (p: Path)
        requires
            depth < 0x8000_0000_0000_0000,
        ensures
            p.bits == (depth as int) * 2 + if raise {
                1int
            } else {
                0int
            },
    {
        Path {
            bits: (depth as u64) * 2 + if raise {
                1u64
            } else {
                0u64
            },
        }
    }

    /// The raw summary.
    pub fn bits(self) -> (r: u64)
        ensures
            r == self.bits,
    {
        self.bits
    }
}

} // verus!
