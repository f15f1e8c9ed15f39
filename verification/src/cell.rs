use vstd::prelude::*;

verus! {

/// One Sudoku cell: either a definite digit or a set of candidate digits.
/// Digit `d` (1..=9) is encoded as bit `d - 1` of a 9-bit mask.
#[derive(Clone, Copy, PartialEq, Eq, Structural, Debug)]
pub enum Cell {
    Fixed(u16),
    Possible(u16),
}

/// `m` has exactly one of the nine digit bits set.
pub open spec fn one_bit(m: u16) -> bool {
    m == 1 || m == 2 || m == 4 || m == 8 || m == 16
        || m == 32 || m == 64 || m == 128 || m == 256
}

/// A mask of nine digit bits with exactly one bit set is exactly a power of
/// two below 512.
pub proof fn lemma_single_bit(m: u16)
    by (bit_vector)
    ensures
        (m != 0 && m < 512 && m & ((m - 1) as u16) == 0) <==> one_bit(m),
{
}

impl Cell {
    /// The candidate mask carried by the cell: for a fixed cell the single
    /// digit bit, for an open cell the set of digits still allowed.
    pub open spec fn mask(self) -> u16 {
        match self {
            Cell::Fixed(d) => d,
            Cell::Possible(m) => m,
        }
    }

    /// Well-formed cell: a fixed cell holds exactly one digit; an open cell
    /// holds at least two candidates (a single candidate must be collapsed
    /// to `Fixed`; an empty mask marks a dead cell and never rests in a
    /// well-formed grid).
    pub open spec fn wf(self) -> bool {
        match self {
            Cell::Fixed(d) => one_bit(d),
            Cell::Possible(m) => m < 512 && m != 0 && !one_bit(m),
        }
    }

    /// Collapsing a single-candidate open cell to a fixed digit; any other
    /// cell is left as it is.
    pub open spec fn collapse(self) -> Cell {
        match self {
            Cell::Possible(m) => if one_bit(m) { Cell::Fixed(m) } else { self },
            Cell::Fixed(_) => self,
        }
    }

    /// Changes `Cell::Possible` into `Cell::Fixed` when only one candidate
    /// remains and returns whether the cell still denotes a candidate.
    pub fn check(&mut self) -> (alive: bool)
        requires
            old(self).mask() < 512,
        ensures
            *final(self) == old(self).collapse(),
            alive <==> *final(self) != Cell::Possible(0u16),
    {
        match *self {
            Cell::Possible(m) => {
                proof { lemma_single_bit(m); }
                if m != 0 && (m & (m - 1)) == 0 {
                    *self = Cell::Fixed(m);
                    true
                } else {
                    m != 0
                }
            },
            Cell::Fixed(_) => true,
        }
    }

    /// Decides well-formedness of a single cell.
    pub fn is_wf(&self) -> (r: bool)
        ensures
            r == self.wf(),
    {
        match *self {
            Cell::Fixed(d) => {
                proof { lemma_single_bit(d); }
                d != 0 && d < 512 && (d & (d - 1)) == 0
            },
            Cell::Possible(m) => {
                proof { lemma_single_bit(m); }
                m < 512 && m != 0 && (m & (m - 1)) != 0
            },
        }
    }

    /// Returns `true` iff the cell is fixed.
    pub fn is_fixed(&self) -> (r: bool)
        ensures
            r <==> (*self is Fixed),
    {
        match self {
            Cell::Fixed(_) => true,
            Cell::Possible(_) => false,
        }
    }
}

} // verus!
