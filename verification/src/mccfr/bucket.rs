//! Information-set keys: where the hand came from, what it looks like,
//! and where the betting can still go.

use vstd::prelude::*;
use crate::mccfr::path::Path;

verus! {

/// A cluster label: the learner's handle for a class of strategically
/// equivalent observations. River labels are equity bucket indices.
#[derive(Debug, Clone, Copy, PartialEq, Eq, Structural)]
pub struct Abstraction {
    pub id: u64,
}

impl Abstraction {
    /// Wrap a raw label.
    pub fn from_id(id: u64) -> (a: Abstraction)
        ensures
            a.id == id,
    {
        Abstraction { id }
    }

    /// The raw label.
    pub fn id(self) -> (r: u64)
        ensures
            r == self.id,
    {
        self.id
    }
}

/// An unordered pair of labels, keyed by the XOR of their identifiers;
/// the index of the pairwise-distance table.
#[derive(Debug, Clone, Copy, PartialEq, Eq, Structural)]
pub struct Pair {
    pub key: u64,
}

impl Pair {
    /// The key of an unordered pair.
    pub fn of(a: Abstraction, b: Abstraction) -> (p: Pair)
        ensures
            p.key == (a.id ^ b.id),
    {
        Pair { key: a.id ^ b.id }
    }
}

/// The pair key does not depend on the order of its two labels.
pub proof fn lemma_pair_symmetric(a: u64, b: u64)
    by (bit_vector)
    ensures
        (a ^ b) == (b ^ a),
        (a ^ a) == 0u64,
{
}

/// The information-set key: the betting path in, the abstraction of
/// the cards, and the betting paths out.
#[derive(Debug, Clone, Copy, PartialEq, Eq, Structural)]
pub struct Bucket {
    pub past: Path,
    pub present: Abstraction,
    pub future: Path,
}

impl Bucket {
    /// Assemble a key.
    pub fn new(past: Path, present: Abstraction, future: Path) -> (b: Bucket)
        ensures
            b.past == past,
            b.present == present,
            b.future == future,
    {
        Bucket { past, present, future }
    }
}

} // verus!
