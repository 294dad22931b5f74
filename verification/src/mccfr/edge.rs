//! Game-tree edges: the closed set of moves the learner samples over,
//! with bijective packings into small and wide integers.

use vstd::prelude::*;
use crate::mccfr::odds::Odds;
use crate::mccfr::odds::spec_grid;
use crate::mccfr::odds::grid;

verus! {

/// An edge of the abstract game tree. `Draw` is the chance deal;
/// raises carry their pot-odds fraction.
#[derive(Debug, Clone, Copy, PartialEq, Eq, Structural)]
pub enum Edge {
    Draw,
    Fold,
    Check,
    Call,
    Raise(Odds),
    Shove,
}

impl Edge {
    /// Is this edge an all-in?
    pub fn is_shove(&self) -> (r: bool)
        ensures
            r == (*self == Edge::Shove),
    {
        matches!(self, Edge::Shove)
    }

    /// Is this edge a raise?
    pub fn is_raise(&self) -> (r: bool)
        ensures
            r == (self is Raise),
    {
        matches!(self, Edge::Raise(_))
    }

    /// Is this edge the chance deal?
    pub fn is_chance(&self) -> (r: bool)
        ensures
            r == (*self == Edge::Draw),
    {
        matches!(self, Edge::Draw)
    }

    /// Is this edge aggressive: a raise or an all-in?
    pub fn is_aggro(&self) -> (r: bool)
        ensures
            r == ((self is Raise) || *self == Edge::Shove),
    {
        self.is_raise() || self.is_shove()
    }

    /// Is this edge a player's choice rather than chance?
    pub fn is_choice(&self) -> (r: bool)
        ensures
            r == (*self != Edge::Draw),
    {
        !self.is_chance()
    }

    /// The compact one-byte form: tags 1 to 5 for the plain moves,
    /// 6 to 15 for the raise grid.
    pub open spec fn spec_to_u8(self) -> int {
        match self {
            Edge::Draw => 1,
            Edge::Fold => 2,
            Edge::Check => 3,
            Edge::Call => 4,
            Edge::Shove => 5,
            Edge::Raise(o) => 6 + spec_grid_index(o),
        }
    }

    /// Pack the edge into one byte. Raises must sit on the grid.
    pub fn to_u8(self) -> (r: u8)
        requires
            self is Raise ==> self->Raise_0.spec_on_grid(),
        ensures
            r == self.spec_to_u8(),
            1 <= r <= 15,
    {
        match self {
            Edge::Draw => 1,
            Edge::Fold => 2,
            Edge::Check => 3,
            Edge::Call => 4,
            Edge::Shove => 5,
            Edge::Raise(odds) => {
                let k = odds.grid_position();
                match k {
                    Some(k) => {
                        proof {
                            lemma_grid_index_agrees(odds, k as int);
                        }
                        6 + k
                    },
                    None => {
                        proof {
                            assert(false);
                        }
                        0
                    },
                }
            },
        }
    }

    /// Unpack an edge from its one-byte form.
    pub fn from_u8(value: u8) -> (r: Edge)
        requires
            1 <= value <= 15,
        ensures
            r.spec_to_u8() == value,
            r is Raise ==> r->Raise_0.spec_on_grid(),
    {
        match value {
            1 => Edge::Draw,
            2 => Edge::Fold,
            3 => Edge::Check,
            4 => Edge::Call,
            5 => Edge::Shove,
            _ => {
                let k = value - 6;
                let o = grid(k);
                proof {
                    lemma_grid_index_of_entry(k as int);
                }
                Edge::Raise(o)
            },
        }
    }

    /// The wide form: a three-bit tag, with a raise's numerator and
    /// denominator in the two bytes above it.
    pub open spec fn spec_to_u64(self) -> int {
        match self {
            Edge::Draw => 0,
            Edge::Fold => 1,
            Edge::Check => 2,
            Edge::Call => 3,
            Edge::Raise(o) => 4 + (o.num as int) * 8 + (o.den as int) * 2048,
            Edge::Shove => 5,
        }
    }

    /// Pack the edge into a wide integer.
    pub fn to_u64(self) -> (r: u64)
        requires
            self is Raise ==> self->Raise_0.num < 256 && self->Raise_0.den < 256,
        ensures
            r == self.spec_to_u64(),
    {
        match self {
            Edge::Draw => 0,
            Edge::Fold => 1,
            Edge::Check => 2,
            Edge::Call => 3,
            Edge::Raise(o) => 4 + (o.num as u64) * 8 + (o.den as u64) * 2048,
            Edge::Shove => 5,
        }
    }

    /// Unpack an edge from its wide form. The tag must be a known move.
    pub fn from_u64(value: u64) -> (r: Edge)
        requires
            value % 8 != 6,
            value % 8 != 7,
            value % 8 >= 4 && value % 8 < 6 ==> value < 0x80000,
        ensures
            value % 8 == 4 ==> r == Edge::Raise(
                Odds { num: ((value / 8) % 256) as u32, den: ((value / 2048) % 256) as u32 },
            ),
            value % 8 != 4 ==> r.spec_to_u64() == value % 8,
    {
        let tag = value % 8;
        if tag == 0 {
            Edge::Draw
        } else if tag == 1 {
            Edge::Fold
        } else if tag == 2 {
            Edge::Check
        } else if tag == 3 {
            Edge::Call
        } else if tag == 4 {
            let num = ((value / 8) % 256) as u32;
            let den = ((value / 2048) % 256) as u32;
            Edge::Raise(Odds { num, den })
        } else {
            Edge::Shove
        }
    }
}

/// The grid index spec agrees with a found grid position.
pub open spec fn spec_grid_index(o: Odds) -> int {
    choose|k: int| 0 <= k < 10 && spec_grid(k) == o
}

/// Grid entries are distinct, so the chosen index is the found one.
proof fn lemma_grid_index_agrees(o: Odds, k: int)
    requires
        0 <= k < 10,
        spec_grid(k) == o,
    ensures
        spec_grid_index(o) == k,
{
    let j = spec_grid_index(o);
    assert(0 <= j < 10 && spec_grid(j) == o);
    assert(j == k) by {
        if j != k {
            assert(spec_grid(j) != spec_grid(k));
        }
    }
}

/// Each grid entry indexes back to itself.
proof fn lemma_grid_index_of_entry(k: int)
    requires
        0 <= k < 10,
    ensures
        spec_grid_index(spec_grid(k)) == k,
        spec_grid(k).spec_on_grid(),
{
    assert(spec_grid(k).spec_on_grid());
    lemma_grid_index_agrees(spec_grid(k), k);
}

/// Round trip through the one-byte form: every edge whose raise sits
/// on the grid comes back unchanged.
pub proof fn lemma_edge_u8_round_trip(e: Edge, r: Edge)
    requires
        e is Raise ==> e->Raise_0.spec_on_grid(),
        r.spec_to_u8() == e.spec_to_u8(),
        r is Raise ==> r->Raise_0.spec_on_grid(),
    ensures
        r == e,
{
    match e {
        Edge::Raise(o) => {
            let k = spec_grid_index(o);
            assert(0 <= k < 10 && spec_grid(k) == o);
            match r {
                Edge::Raise(o2) => {
                    let k2 = spec_grid_index(o2);
                    assert(0 <= k2 < 10 && spec_grid(k2) == o2);
                    assert(k == k2);
                },
                _ => {
                    assert(r.spec_to_u8() <= 5);
                },
            }
        },
        _ => {
            match r {
                Edge::Raise(o2) => {
                    let k2 = spec_grid_index(o2);
                    assert(0 <= k2 < 10 && spec_grid(k2) == o2);
                },
                _ => {},
            }
        },
    }
}

/// Round trip through the wide form: every edge with one-byte raise
/// parts comes back unchanged.
pub proof fn lemma_edge_u64_round_trip(e: Edge)
    requires
        e is Raise ==> e->Raise_0.num < 256 && e->Raise_0.den < 256,
    ensures
        forall|r: Edge|
            (r is Raise ==> #[trigger] r->Raise_0.num < 256 && r->Raise_0.den < 256)
                && r.spec_to_u64() == e.spec_to_u64() ==> r == e,
{
    assert forall|r: Edge|
        (r is Raise ==> #[trigger] r->Raise_0.num < 256 && r->Raise_0.den < 256)
            && r.spec_to_u64() == e.spec_to_u64() implies r == e by {
        match (e, r) {
            (Edge::Raise(a), Edge::Raise(b)) => {
                assert((a.num as int) * 8 + (a.den as int) * 2048 == (b.num as int) * 8 + (
                b.den as int) * 2048);
                assert(a.num == b.num && a.den == b.den) by (nonlinear_arith)
                    requires
                        a.num < 256 && a.den < 256 && b.num < 256 && b.den < 256,
                        (a.num as int) * 8 + (a.den as int) * 2048 == (b.num as int) * 8 + (
                        b.den as int) * 2048,
                ;
            },
            (Edge::Raise(a), _) => {
                assert(e.spec_to_u64() % 8 == 4) by (nonlinear_arith)
                    requires
                        e.spec_to_u64() == 4 + (a.num as int) * 8 + (a.den as int) * 2048,
                ;
                assert(r.spec_to_u64() < 8);
            },
            (_, Edge::Raise(b)) => {
                assert(r.spec_to_u64() % 8 == 4) by (nonlinear_arith)
                    requires
                        r.spec_to_u64() == 4 + (b.num as int) * 8 + (b.den as int) * 2048,
                ;
                assert(e.spec_to_u64() < 8);
            },
            (_, _) => {},
        }
    }
}

} // verus!
