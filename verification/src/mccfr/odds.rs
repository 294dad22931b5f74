//! Raise sizes as pot-odds fractions from a small fixed grid.

use vstd::prelude::*;

verus! {

/// A raise size as a fraction of the pot: `Odds(n, d)` bets `n/d` pot.
#[derive(Debug, Clone, Copy, PartialEq, Eq, Structural)]
pub struct Odds {
    pub num: u32,
    pub den: u32,
}

impl Odds {
    /// Build a fraction.
    pub fn new(num: u32, den: u32) -> (o: Odds)
        ensures
            o.num == num,
            o.den == den,
    {
        Odds { num, den }
    }

    /// Is this fraction one of the grid entries?
    pub open spec fn spec_on_grid(self) -> bool {
        exists|k: int| 0 <= k < 10 && spec_grid(k) == self
    }

    /// The position of this fraction on the grid, if any.
    pub fn grid_position(self) -> (r: Option<u8>)
        ensures
            match r {
                Some(k) => k < 10 && spec_grid(k as int) == self,
                None => !self.spec_on_grid(),
            },
    {
        let mut k: u8 = 0;
        while k < 10
            invariant
                k <= 10,
                forall|j: int| 0 <= j < k ==> spec_grid(j) != self,
            decreases 10 - k,
        {
            let g = grid(k);
            if g.num == self.num && g.den == self.den {
                return Some(k);
            }
            k = k + 1;
        }
        None
    }
}

/// The raise grid, from a quarter pot up to four times the pot.
pub open spec fn spec_grid(k: int) -> Odds {
    if k == 0 {
        Odds { num: 1, den: 4 }
    } else if k == 1 {
        Odds { num: 1, den: 3 }
    } else if k == 2 {
        Odds { num: 1, den: 2 }
    } else if k == 3 {
        Odds { num: 2, den: 3 }
    } else if k == 4 {
        Odds { num: 3, den: 4 }
    } else if k == 5 {
        Odds { num: 1, den: 1 }
    } else if k == 6 {
        Odds { num: 3, den: 2 }
    } else if k == 7 {
        Odds { num: 2, den: 1 }
    } else if k == 8 {
        Odds { num: 3, den: 1 }
    } else {
        Odds { num: 4, den: 1 }
    }
}

/// The raise grid entry at position `k`.
pub fn grid(k: u8) -> (o: Odds)
    requires
        k < 10,
    ensures
        o == spec_grid(k as int),
        o.num >= 1 && o.num <= 4,
        o.den >= 1 && o.den <= 4,
{
    match k {
        0 => Odds { num: 1, den: 4 },
        1 => Odds { num: 1, den: 3 },
        2 => Odds { num: 1, den: 2 },
        3 => Odds { num: 2, den: 3 },
        4 => Odds { num: 3, den: 4 },
        5 => Odds { num: 1, den: 1 },
        6 => Odds { num: 3, den: 2 },
        7 => Odds { num: 2, den: 1 },
        8 => Odds { num: 3, den: 1 },
        _ => Odds { num: 4, den: 1 },
    }
}

} // verus!
