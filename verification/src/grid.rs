use vstd::prelude::*;
use crate::cell::{Cell, one_bit};

verus! {

/// A 9x9 Sudoku grid, row-major: the cell of row `r`, column `c` stands at
/// index `r * 9 + c`.
pub struct Grid {
    cells: Vec<Cell>,
}

impl View for Grid {
    type V = Seq<Cell>;

    closed spec fn view(&self) -> Seq<Cell> {
        self.cells@
    }
}

/// Every cell of a well-formed grid is itself well formed.
pub open spec fn grid_wf(s: Seq<Cell>) -> bool {
    s.len() == 81 && forall|i: int| 0 <= i < 81 ==> (#[trigger] s[i]).wf()
}

/// Index of the canonical cell shown at index `i` of the transposed grid:
/// rows and columns are swapped.
pub open spec fn tmap(i: int) -> int {
    (i % 9) * 9 + i / 9
}

/// Index of the canonical cell shown at index `i` of the block-major grid:
/// row `l` of that view is the `l`-th 3x3 box of the grid, read row by row.
pub open spec fn bmap(i: int) -> int {
    (3 * ((i / 9) / 3) + (i % 9) / 3) * 9 + 3 * ((i / 9) % 3) + (i % 9) % 3
}

/// The grid re-expressed so that its rows are the columns of `s`.
pub open spec fn transpose_spec(s: Seq<Cell>) -> Seq<Cell> {
    Seq::new(81, |i: int| s[tmap(i)])
}

/// The grid re-expressed so that its rows are the 3x3 boxes of `s`.
pub open spec fn blocks_spec(s: Seq<Cell>) -> Seq<Cell> {
    Seq::new(81, |i: int| s[bmap(i)])
}

/// Transposing is an involution: applied twice it returns the original
/// grid, for every grid.
pub proof fn lemma_transpose_involution(s: Seq<Cell>)
    requires
        s.len() == 81,
    ensures
        transpose_spec(transpose_spec(s)) == s,
{
    assert forall|i: int| 0 <= i < 81 implies transpose_spec(transpose_spec(s))[i] == s[i] by {
        assert(0 <= tmap(i) < 81);
        assert(tmap(tmap(i)) == i);
    }
    assert(transpose_spec(transpose_spec(s)) =~= s);
}

/// The block view is an involution: applied twice it returns the original
/// grid, for every grid.
pub proof fn lemma_blocks_involution(s: Seq<Cell>)
    requires
        s.len() == 81,
    ensures
        blocks_spec(blocks_spec(s)) == s,
{
    assert forall|i: int| 0 <= i < 81 implies blocks_spec(blocks_spec(s))[i] == s[i] by {
        let l = i / 9;
        let k = i % 9;
        let j = bmap(i);
        assert(j == (3 * (l / 3) + k / 3) * 9 + 3 * (l % 3) + k % 3);
        assert(0 <= j < 81);
        assert(j / 9 == 3 * (l / 3) + k / 3 && j % 9 == 3 * (l % 3) + k % 3);
        assert(bmap(j) == i);
    }
    assert(blocks_spec(blocks_spec(s)) =~= s);
}

/// The well-formed cells of a grid are not disturbed by either transform.
pub proof fn lemma_transforms_preserve_wf(s: Seq<Cell>)
    requires
        grid_wf(s),
    ensures
        grid_wf(transpose_spec(s)),
        grid_wf(blocks_spec(s)),
{
    assert forall|i: int| 0 <= i < 81 implies (#[trigger] transpose_spec(s)[i]).wf() by {
        assert(0 <= tmap(i) < 81);
    }
    assert forall|i: int| 0 <= i < 81 implies (#[trigger] blocks_spec(s)[i]).wf() by {
        assert(0 <= bmap(i) < 81);
    }
}

/// Spec value of one input character: `.` keeps all nine digits open,
/// a digit `d` fixes bit `d - 1`.
pub open spec fn cell_of_char(b: u8) -> Cell {
    if b == 46 {
        Cell::Possible(511)
    } else {
        Cell::Fixed(1u16 << ((b - 49) as u16))
    }
}

/// The characters an input line may hold: `.` or a digit `1`..=`9`.
pub open spec fn valid_char(b: u8) -> bool {
    b == 46 || (49 <= b && b <= 57)
}

/// The output character of a cell: the fixed digit, or `.` for a cell that
/// is still open.
pub open spec fn char_of_cell(c: Cell) -> u8 {
    match c {
        Cell::Possible(_) => 46,
        Cell::Fixed(d) => (
            if d == 1 { 49 } else if d == 2 { 50 } else if d == 4 { 51 }
            else if d == 8 { 52 } else if d == 16 { 53 } else if d == 32 { 54 }
            else if d == 64 { 55 } else if d == 128 { 56 } else { 57 }
        ),
    }
}

/// The output character of one cell.
fn cell_char(c: Cell) -> (r: u8)
    ensures
        r == char_of_cell(c),
{
    match c {
        Cell::Possible(_) => 46,
        Cell::Fixed(d) => {
            if d == 1 { 49 } else if d == 2 { 50 } else if d == 4 { 51 }
            else if d == 8 { 52 } else if d == 16 { 53 } else if d == 32 { 54 }
            else if d == 64 { 55 } else if d == 128 { 56 } else { 57 }
        },
    }
}

impl Grid {
    /// Well-formed grid: 81 cells, each well formed.
    pub open spec fn wf(self) -> bool {
        grid_wf(self@)
    }

    /// Wraps 81 cells as a grid; the caller has shown they are well formed.
    pub(crate) fn from_vec(cells: Vec<Cell>) -> (r: Grid)
        ensures
            r@ == cells@,
    {
        Grid { cells }
    }

    /// The cell at row `r`, column `c`.
    pub fn get(&self, r: usize, c: usize) -> (res: Cell)
        requires
            self@.len() == 81,
            r < 9,
            c < 9,
        ensures
            res == self@[r as int * 9 + c as int],
    {
        self.cells[r * 9 + c]
    }

    /// A copy of the grid's 81 cells, row-major.
    pub fn to_cells(&self) -> (r: Vec<Cell>)
        requires
            self@.len() == 81,
        ensures
            r@ == self@,
    {
        let mut out: Vec<Cell> = Vec::new();
        let mut i: usize = 0;
        while i < 81
            invariant
                self@.len() == 81,
                i <= 81,
                out@.len() == i,
                forall|j: int| 0 <= j < i ==> (#[trigger] out@[j]) == self@[j],
            decreases 81 - i,
        {
            out.push(self.cells[i]);
            i += 1;
        }
        proof { assert(out@ =~= self@); }
        out
    }

    /// Builds a grid from any 81 well-formed cells, rejecting other input.
    pub fn from_cells(cells: Vec<Cell>) -> (r: Option<Grid>)
        ensures
            r is Some <==> (cells@.len() == 81 && forall|i: int|
                0 <= i < 81 ==> (#[trigger] cells@[i]).wf()),
            r matches Some(g) ==> g@ == cells@ && g.wf(),
    {
        if cells.len() != 81 {
            return None;
        }
        let mut i: usize = 0;
        while i < 81
            invariant
                cells@.len() == 81,
                i <= 81,
                forall|j: int| 0 <= j < i ==> (#[trigger] cells@[j]).wf(),
            decreases 81 - i,
        {
            if !cells[i].is_wf() {
                return None;
            }
            i += 1;
        }
        Some(Grid { cells })
    }

    /// Reads one puzzle line: exactly 81 characters, each a digit `1`-`9`
    /// (a fixed cell) or `.` (a cell with all nine digits still open).
    /// Any other line is rejected.
    pub fn parse(line: &[u8]) -> (r: Option<Grid>)
        ensures
            r is Some <==> (line@.len() == 81 && forall|i: int|
                0 <= i < 81 ==> valid_char(#[trigger] line@[i])),
            r matches Some(g) ==> g.wf() && g@.len() == 81 && forall|i: int|
                0 <= i < 81 ==> g@[i] == cell_of_char(#[trigger] line@[i]),
    {
        if line.len() != 81 {
            return None;
        }
        let mut cells: Vec<Cell> = Vec::new();
        let mut i: usize = 0;
        while i < 81
            invariant
                line@.len() == 81,
                i <= 81,
                cells@.len() == i,
                forall|j: int| 0 <= j < i ==> valid_char(#[trigger] line@[j]),
                forall|j: int| 0 <= j < i ==> (#[trigger] cells@[j]) == cell_of_char(line@[j])
                    && cells@[j].wf(),
            decreases 81 - i,
        {
            let b = line[i];
            if b == 46 {
                cells.push(Cell::Possible(511));
                assert(!one_bit(511));
            } else if 49 <= b && b <= 57 {
                let d = (b - 49) as u16;
                let m = 1u16 << d;
                assert(one_bit(m)) by (bit_vector)
                    requires
                        d < 9,
                        m == 1u16 << d,
                ;
                cells.push(Cell::Fixed(m));
            } else {
                return None;
            }
            i += 1;
        }
        Some(Grid { cells })
    }

    /// Renders the grid as its 81 output characters, row-major: the digit
    /// of each fixed cell, `.` for a cell still open.
    pub fn digits(&self) -> (r: Vec<u8>)
        requires
            self.wf(),
        ensures
            r@.len() == 81,
            forall|i: int| 0 <= i < 81 ==> r@[i] == char_of_cell(#[trigger] self@[i]),
    {
        let mut out: Vec<u8> = Vec::new();
        let mut i: usize = 0;
        while i < 81
            invariant
                self.wf(),
                i <= 81,
                out@.len() == i,
                forall|j: int| 0 <= j < i ==> out@[j] == char_of_cell(#[trigger] self@[j]),
            decreases 81 - i,
        {
            out.push(cell_char(self.cells[i]));
            i += 1;
        }
        out
    }

    /// Renders the solved-grid output: nine lines, each with nine
    /// space-separated cell characters and a terminating newline.
    pub fn render(&self) -> (r: Vec<u8>)
        requires
            self.wf(),
        ensures
            r@.len() == 162,
            forall|rr: int, cc: int| 0 <= rr < 9 && 0 <= cc < 9 ==>
                #[trigger] r@[rr * 18 + 2 * cc] == char_of_cell(self@[rr * 9 + cc]),
            forall|rr: int, cc: int| 0 <= rr < 9 && 0 <= cc < 8 ==>
                #[trigger] r@[rr * 18 + 2 * cc + 1] == 32,
            forall|rr: int| 0 <= rr < 9 ==> #[trigger] r@[rr * 18 + 17] == 10,
    {
        let mut out: Vec<u8> = Vec::new();
        let mut rr: usize = 0;
        while rr < 9
            invariant
                self.wf(),
                rr <= 9,
                out@.len() == rr * 18,
                forall|r2: int, cc: int| 0 <= r2 < rr && 0 <= cc < 9 ==>
                    #[trigger] out@[r2 * 18 + 2 * cc] == char_of_cell(self@[r2 * 9 + cc]),
                forall|r2: int, cc: int| 0 <= r2 < rr && 0 <= cc < 8 ==>
                    #[trigger] out@[r2 * 18 + 2 * cc + 1] == 32,
                forall|r2: int| 0 <= r2 < rr ==> #[trigger] out@[r2 * 18 + 17] == 10,
            decreases 9 - rr,
        {
            let mut cc: usize = 0;
            while cc < 9
                invariant
                    self.wf(),
                    rr < 9,
                    cc <= 9,
                    out@.len() == (if cc < 9 { rr * 18 + 2 * cc } else { rr * 18 + 17 }),
                    forall|r2: int, c2: int| 0 <= r2 < rr && 0 <= c2 < 9 ==>
                        #[trigger] out@[r2 * 18 + 2 * c2] == char_of_cell(self@[r2 * 9 + c2]),
                    forall|r2: int, c2: int| 0 <= r2 < rr && 0 <= c2 < 8 ==>
                        #[trigger] out@[r2 * 18 + 2 * c2 + 1] == 32,
                    forall|r2: int| 0 <= r2 < rr ==> #[trigger] out@[r2 * 18 + 17] == 10,
                    forall|c2: int| 0 <= c2 < cc ==>
                        #[trigger] out@[rr * 18 + 2 * c2] == char_of_cell(self@[rr * 9 + c2]),
                    forall|c2: int| 0 <= c2 < cc && c2 < 8 ==>
                        #[trigger] out@[rr * 18 + 2 * c2 + 1] == 32,
                decreases 9 - cc,
            {
                out.push(cell_char(self.cells[rr * 9 + cc]));
                if cc < 8 {
                    out.push(32);
                }
                cc += 1;
            }
            out.push(10);
            rr += 1;
        }
        out
    }

    /// Structural equality of two grids, the propagation loop's fixed-point
    /// test.
    pub fn equals(&self, other: &Grid) -> (r: bool)
        ensures
            r <==> self@ == other@,
    {
        if self.cells.len() != other.cells.len() {
            assert(self@.len() != other@.len());
            return false;
        }
        let mut i: usize = 0;
        while i < self.cells.len()
            invariant
                self@.len() == other@.len(),
                i <= self@.len(),
                forall|j: int| 0 <= j < i ==> self@[j] == other@[j],
            decreases self@.len() - i,
        {
            let a = self.cells[i];
            let b = other.cells[i];
            if a != b {
                return false;
            }
            i += 1;
        }
        proof {
            assert(self@ =~= other@);
        }
        true
    }

    /// Returns a transposed grid (rows swapped with columns).
    pub fn transpose(&self) -> (r: Grid)
        requires
            self@.len() == 81,
        ensures
            r@ == transpose_spec(self@),
    {
        let mut cells: Vec<Cell> = Vec::new();
        let mut rr: usize = 0;
        while rr < 9
            invariant
                self@.len() == 81,
                rr <= 9,
                cells@.len() == rr * 9,
                forall|j: int| 0 <= j < cells@.len() ==> (#[trigger] cells@[j]) == self@[tmap(j)],
            decreases 9 - rr,
        {
            let mut cc: usize = 0;
            while cc < 9
                invariant
                    self@.len() == 81,
                    rr < 9,
                    cc <= 9,
                    cells@.len() == rr * 9 + cc,
                    forall|j: int| 0 <= j < cells@.len() ==> (#[trigger] cells@[j]) == self@[tmap(j)],
                decreases 9 - cc,
            {
                cells.push(self.cells[cc * 9 + rr]);
                assert(tmap(rr as int * 9 + cc as int) == cc as int * 9 + rr as int);
                cc += 1;
            }
            rr += 1;
        }
        let r = Grid { cells };
        proof {
            assert(r@ =~= transpose_spec(self@));
        }
        r
    }

    /// Returns a grid whose rows are the 3x3 boxes of this grid.
    pub fn blocks(&self) -> (r: Grid)
        requires
            self@.len() == 81,
        ensures
            r@ == blocks_spec(self@),
    {
        let mut cells: Vec<Cell> = Vec::new();
        let mut l: usize = 0;
        while l < 9
            invariant
                self@.len() == 81,
                l <= 9,
                cells@.len() == l * 9,
                forall|j: int| 0 <= j < cells@.len() ==> (#[trigger] cells@[j]) == self@[bmap(j)],
            decreases 9 - l,
        {
            let mut k: usize = 0;
            while k < 9
                invariant
                    self@.len() == 81,
                    l < 9,
                    k <= 9,
                    cells@.len() == l * 9 + k,
                    forall|j: int| 0 <= j < cells@.len() ==> (#[trigger] cells@[j]) == self@[bmap(j)],
                decreases 9 - k,
            {
                let src = (3 * (l / 3) + k / 3) * 9 + 3 * (l % 3) + k % 3;
                cells.push(self.cells[src]);
                assert(bmap(l as int * 9 + k as int)
                    == (3 * (l as int / 3) + k as int / 3) * 9 + 3 * (l as int % 3) + k as int % 3);
                k += 1;
            }
            l += 1;
        }
        let r = Grid { cells };
        proof {
            assert(r@ =~= blocks_spec(self@));
        }
        r
    }
}

} // verus!
