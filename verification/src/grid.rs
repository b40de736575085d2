//! Blocks of grid cells and how they are quartered.

use vstd::prelude::*;
use crate::geometry::Cell;

verus! {

/// The four children of an internal node, in their fixed order.
#[derive(Clone, Copy, Debug, PartialEq, Eq, Structural)]
pub enum Quadrant {
    NorthEast,
    NorthWest,
    SouthEast,
    SouthWest,
}

/// A square block of grid cells: `side` cells along each axis, starting at
/// `(x0, y0)`.
#[derive(Clone, Copy, Debug, PartialEq, Eq, Structural)]
pub struct Square {
    pub x0: u64,
    pub y0: u64,
    pub side: u64,
}

/// Number of cells along each axis of the whole grid.
pub const GRID_SIDE: u64 = 0x1_0000_0000;

/// `side` is a power of two.
pub open spec fn halves_evenly(side: nat) -> bool
    decreases side,
{
    side == 1 || (side >= 2 && side % 2 == 0 && halves_evenly(side / 2))
}

/// Two to the power `n`.
pub open spec fn two_to(n: nat) -> nat
    decreases n,
{
    if n == 0 {
        1
    } else {
        2 * two_to((n - 1) as nat)
    }
}

/// Powers of two grow with the exponent.
pub proof fn lemma_two_to_grows(m: nat, n: nat)
    requires
        m <= n,
    ensures
        1 <= two_to(m) <= two_to(n),
    decreases n,
{
    if m < n {
        lemma_two_to_grows(m, (n - 1) as nat);
    } else if n > 0 {
        lemma_two_to_grows((m - 1) as nat, (n - 1) as nat);
    }
}

/// No block of the grid can be halved more than 32 times: a tree is never
/// deeper than that.
pub proof fn lemma_halvings(n: nat, side: u64)
    requires
        two_to(n) <= side <= GRID_SIDE,
    ensures
        n <= 32,
{
    if n > 32 {
        lemma_two_to_grows(33, n);
        assert(two_to(33) == 0x2_0000_0000) by {
            reveal_with_fuel(two_to, 34);
        }
    }
}

impl Square {
    /// The block that is the whole grid.
    pub open spec fn whole() -> Square {
        Square { x0: 0, y0: 0, side: GRID_SIDE }
    }

    /// The block lies in the grid and can be halved down to single cells.
    pub open spec fn wf(self) -> bool {
        &&& halves_evenly(self.side as nat)
        &&& self.x0 + self.side <= GRID_SIDE
        &&& self.y0 + self.side <= GRID_SIDE
    }

    /// The cell lies in the block.
    pub open spec fn contains(self, c: Cell) -> bool {
        &&& self.x0 <= c.x < self.x0 + self.side
        &&& self.y0 <= c.y < self.y0 + self.side
    }

    /// The quarter of the block that holds `c`: east of the middle column or
    /// not, north of the middle row or not.
    pub open spec fn quadrant_of(self, c: Cell) -> Quadrant {
        let east = c.x >= self.x0 + self.side / 2;
        let north = c.y >= self.y0 + self.side / 2;
        if north {
            if east {
                Quadrant::NorthEast
            } else {
                Quadrant::NorthWest
            }
        } else {
            if east {
                Quadrant::SouthEast
            } else {
                Quadrant::SouthWest
            }
        }
    }

    /// The quarter of the block in the given direction.
    pub open spec fn quarter(self, q: Quadrant) -> Square {
        let h = (self.side / 2) as u64;
        match q {
            Quadrant::NorthEast => Square { x0: (self.x0 + h) as u64, y0: (self.y0 + h) as u64, side: h },
            Quadrant::NorthWest => Square { x0: self.x0, y0: (self.y0 + h) as u64, side: h },
            Quadrant::SouthEast => Square { x0: (self.x0 + h) as u64, y0: self.y0, side: h },
            Quadrant::SouthWest => Square { x0: self.x0, y0: self.y0, side: h },
        }
    }
}

impl Square {
    /// Quartering keeps a block well formed.
    pub proof fn lemma_quarter(self, q: Quadrant)
        requires
            self.wf(),
            self.side >= 2,
        ensures
            self.quarter(q).wf(),
            self.quarter(q).side == self.side / 2,
            self.quarter(q).side < self.side,
    {
    }

    /// The quarter that a cell of the block points to holds that cell, and
    /// no other quarter does.
    pub proof fn lemma_quarter_of(self, c: Cell, q: Quadrant)
        requires
            self.wf(),
            self.side >= 2,
        ensures
            self.contains(c) && self.quadrant_of(c) == q ==> self.quarter(q).contains(c),
            self.quarter(q).contains(c) ==> self.contains(c) && self.quadrant_of(c) == q,
    {
    }

    /// Whether the cell lies in the block.
    pub fn holds(&self, c: Cell) -> (b: bool)
        requires
            self.wf(),
        ensures
            b == self.contains(c),
    {
        self.x0 <= c.x as u64 && (c.x as u64) < self.x0 + self.side && self.y0 <= c.y as u64 && (
        c.y as u64) < self.y0 + self.side
    }

    /// The quarter of the block that holds `c`.
    pub fn quadrant(&self, c: Cell) -> (q: Quadrant)
        requires
            self.wf(),
        ensures
            q == self.quadrant_of(c),
    {
        let half: u64 = self.side / 2;
        let east: bool = c.x as u64 >= self.x0 + half;
        let north: bool = c.y as u64 >= self.y0 + half;
        if north {
            if east {
                Quadrant::NorthEast
            } else {
                Quadrant::NorthWest
            }
        } else {
            if east {
                Quadrant::SouthEast
            } else {
                Quadrant::SouthWest
            }
        }
    }

    /// The quarter of the block in the given direction.
    pub fn quartered(&self, q: Quadrant) -> (r: Square)
        requires
            self.wf(),
        ensures
            r == self.quarter(q),
    {
        let h: u64 = self.side / 2;
        match q {
            Quadrant::NorthEast => Square { x0: self.x0 + h, y0: self.y0 + h, side: h },
            Quadrant::NorthWest => Square { x0: self.x0, y0: self.y0 + h, side: h },
            Quadrant::SouthEast => Square { x0: self.x0 + h, y0: self.y0, side: h },
            Quadrant::SouthWest => Square { x0: self.x0, y0: self.y0, side: h },
        }
    }
}

} // verus!
