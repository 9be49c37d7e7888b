//! Boards: forty cells, four rows of ten, one bit each.

use vstd::prelude::*;

verus! {

/// A board as a bit mask: bit `10 * row + column` is set where the cell is
/// filled, row 0 being the bottom row.
#[derive(Clone, Copy, Debug, PartialEq, Eq, Structural, Hash, PartialOrd, Ord)]
pub struct Board(pub u64);

/// The mask of all forty cells.
pub const FULL_MASK: u64 = 0xFF_FFFF_FFFF;

/// The mask of the twenty cells of the two bottom rows.
pub const HALF_MASK: u64 = 0xF_FFFF;

/// How many of the low `n` bits of `x` are set.
pub open spec fn low_ones(x: u64, n: nat) -> nat
    decreases n,
{
    if n == 0 {
        0
    } else {
        low_ones(x, (n - 1) as nat) + if (x >> ((n - 1) as u64)) & 1 == 1 {
            1nat
        } else {
            0nat
        }
    }
}

/// How many bits of `x` are set.
pub open spec fn ones(x: u64) -> nat {
    low_ones(x, 64)
}

/// `low_ones` never exceeds the number of bits looked at.
pub proof fn lemma_low_ones_bound(x: u64, n: nat)
    ensures
        low_ones(x, n) <= n,
    decreases n,
{
    if n > 0 {
        lemma_low_ones_bound(x, (n - 1) as nat);
    }
}

impl Board {
    /// The board with no cell filled.
    pub open spec fn spec_empty() -> Board {
        Board(0)
    }

    /// The board with every cell filled.
    pub open spec fn spec_full() -> Board {
        Board(FULL_MASK)
    }

    /// The board with exactly the two bottom rows filled.
    pub open spec fn spec_half() -> Board {
        Board(HALF_MASK)
    }

    /// The number of filled cells.
    pub open spec fn spec_count(self) -> nat {
        ones(self.0)
    }

    /// The board with no cell filled.
    pub fn empty() -> (r: Board)
        ensures
            r == Board::spec_empty(),
    {
        Board(0)
    }

    /// The board with every cell filled.
    pub fn full() -> (r: Board)
        ensures
            r == Board::spec_full(),
    {
        Board(FULL_MASK)
    }

    /// The board with exactly the two bottom rows filled.
    pub fn half() -> (r: Board)
        ensures
            r == Board::spec_half(),
    {
        Board(HALF_MASK)
    }

    /// The number of set bits of the mask.
    pub fn count(self) -> (r: u32)
        ensures
            r == self.spec_count(),
            r <= 64,
    {
        let mut n: u32 = 0;
        let mut i: u32 = 0;
        while i < 64
            invariant
                i <= 64,
                n == low_ones(self.0, i as nat),
                n <= i,
            decreases 64 - i,
        {
            let bit = (self.0 >> (i as u64)) & 1;
            assert(low_ones(self.0, (i + 1) as nat) == low_ones(self.0, i as nat) + if bit == 1 {
                1nat
            } else {
                0nat
            });
            if bit == 1 {
                n = n + 1;
            }
            i = i + 1;
        }
        n
    }
}

} // verus!
