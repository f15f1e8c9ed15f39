use vstd::prelude::*;
use crate::cell::{Cell, one_bit, lemma_single_bit};
use crate::grid::{Grid, grid_wf, transpose_spec, blocks_spec, tmap, bmap,
    lemma_transforms_preserve_wf, lemma_transpose_involution, lemma_blocks_involution};
use crate::rows::{row_wf, fix_fixed, fix_excl, masks_total, prune_fixed_row,
    apply_excl, apply_excls_upto, fixed_union_upto, norm_cell, bit_of,
    lemma_total_mono, lemma_submask_trans, lemma_self_submask,
    lemma_and_mask, lemma_or_facts};
use crate::engine::{row_of, pruned_row, prune_grid_spec, cycle, propagate,
    refines, lemma_propagate_props};
use crate::complete::{solution, lemma_propagate_sound, lemma_branch_sound};

verus! {

/// Every cell of the grid is fixed.
pub open spec fn filled_spec(s: Seq<Cell>) -> bool {
    forall|i: int| 0 <= i < 81 ==> (#[trigger] s[i]) is Fixed
}

/// Some row of the grid holds the same fixed digit twice.
pub open spec fn dup_row(s: Seq<Cell>) -> bool {
    exists|r: int, i: int, j: int| 0 <= r < 9 && 0 <= i < j < 9
        && (#[trigger] s[r * 9 + i]) is Fixed && (#[trigger] s[r * 9 + j]) is Fixed
        && s[r * 9 + i].mask() == s[r * 9 + j].mask()
}

/// Some row, column, or box of the grid holds the same fixed digit twice.
pub open spec fn invalid_spec(s: Seq<Cell>) -> bool {
    dup_row(s) || dup_row(transpose_spec(s)) || dup_row(blocks_spec(s))
}

/// `i` is the first cell, in row-major order, that is still open.
pub open spec fn first_open(s: Seq<Cell>, i: int) -> bool {
    0 <= i < 81 && !((#[trigger] s[i]) is Fixed)
        && forall|j: int| 0 <= j < i ==> (#[trigger] s[j]) is Fixed
}

/// Shape of the two sibling grids produced at a branch point: the open
/// cell `i` keeps everything but its lowest candidate `b` in the first
/// grid and is fixed to `b` in the second; together the two cells carry
/// exactly the original candidates, and none twice.
pub open spec fn branching(s: Seq<Cell>, a: Seq<Cell>, c: Seq<Cell>, i: int, b: u16) -> bool {
    &&& first_open(s, i)
    &&& one_bit(b)
    &&& s[i].mask() & b == b
    &&& s[i].mask() & ((b - 1) as u16) == 0
    &&& a == s.update(i, norm_cell(s[i].mask() & !b))
    &&& c == s.update(i, Cell::Fixed(b))
    &&& a[i].mask() | c[i].mask() == s[i].mask()
    &&& a[i].mask() & c[i].mask() == 0
}

/// Two single-digit masks overlap exactly when they are the same digit;
/// a submask of a single digit that is not empty is that digit.
pub proof fn lemma_onebit_facts(a: u16, b: u16)
    by (bit_vector)
    ensures
        (one_bit(a) && one_bit(b)) ==> ((a & b != 0) <==> a == b),
        (one_bit(a) && one_bit(b) && a & !b == 0) ==> a == b,
        one_bit(a) ==> a != 0,
        0u16 & b == 0,
        (one_bit(b) && a & b != 0) ==> a & b == b,
{
}

/// A digit overlaps a union exactly when it overlaps one of its parts.
proof fn lemma_union_or(d: u16, a: u16, b: u16)
    by (bit_vector)
    ensures
        (d & (a | b) != 0) <==> (d & a != 0 || d & b != 0),
{
}

/// Splitting off the lowest candidate: facts about the two branch masks.
proof fn lemma_branch_masks(m: u16, b: u16)
    by (bit_vector)
    ensures
        (one_bit(b) && m & b == b && !one_bit(m) && m != 0 && m < 512) ==> {
            &&& m & !b != 0
            &&& (m & !b) | b == m
            &&& (m & !b) & b == 0
            &&& m & !b != m
            &&& b & !m == 0
        },
{
}

/// Clearing each low digit in turn clears every mask of low digits, and a
/// nine-digit mask with no digit set is empty.
proof fn lemma_low_clear(m: u16)
    by (bit_vector)
    ensures
        m & 0 == 0,
        (m & 1 == 0 && m & 2 == 0) ==> m & 3 == 0,
        (m & 1 == 0 && m & 2 == 0 && m & 4 == 0) ==> m & 7 == 0,
        (m & 1 == 0 && m & 2 == 0 && m & 4 == 0 && m & 8 == 0) ==> m & 15 == 0,
        (m & 1 == 0 && m & 2 == 0 && m & 4 == 0 && m & 8 == 0 && m & 16 == 0) ==> m & 31 == 0,
        (m & 1 == 0 && m & 2 == 0 && m & 4 == 0 && m & 8 == 0 && m & 16 == 0 && m & 32 == 0)
            ==> m & 63 == 0,
        (m & 1 == 0 && m & 2 == 0 && m & 4 == 0 && m & 8 == 0 && m & 16 == 0 && m & 32 == 0
            && m & 64 == 0) ==> m & 127 == 0,
        (m & 1 == 0 && m & 2 == 0 && m & 4 == 0 && m & 8 == 0 && m & 16 == 0 && m & 32 == 0
            && m & 64 == 0 && m & 128 == 0) ==> m & 255 == 0,
        (m & 1 == 0 && m & 2 == 0 && m & 4 == 0 && m & 8 == 0 && m & 16 == 0 && m & 32 == 0
            && m & 64 == 0 && m & 128 == 0 && m & 256 == 0 && m < 512) ==> m == 0,
{
}

/// A digit overlaps the union of the fixed digits of a prefix exactly
/// when some fixed cell of the prefix holds it.
pub(crate) proof fn lemma_union_member(row: Seq<Cell>, n: int, d: u16)
    requires
        row_wf(row),
        0 <= n <= 9,
        one_bit(d),
    ensures
        (fixed_union_upto(row, n) & d != 0) <==> (exists|i: int| 0 <= i < n
            && (#[trigger] row[i]) is Fixed && row[i].mask() == d),
    decreases n,
{
    assert(0u16 & d == 0) by (bit_vector);
    if n > 0 {
        lemma_union_member(row, n - 1, d);
        let u = fixed_union_upto(row, n - 1);
        match row[n - 1] {
            Cell::Fixed(x) => {
                assert(((u | x) & d != 0) <==> (u & d != 0 || x & d != 0)) by (bit_vector);
                lemma_onebit_facts(x, d);
                if (u | x) & d != 0 {
                    if u & d != 0 {
                        let i = choose|i: int| 0 <= i < n - 1 && (#[trigger] row[i]) is Fixed
                            && row[i].mask() == d;
                        assert(0 <= i < n && row[i] is Fixed && row[i].mask() == d);
                    } else {
                        assert(x == d);
                        assert(0 <= n - 1 < n && row[n - 1] is Fixed && row[n - 1].mask() == d);
                    }
                }
                if exists|i: int| 0 <= i < n && (#[trigger] row[i]) is Fixed
                    && row[i].mask() == d {
                    let i = choose|i: int| 0 <= i < n && (#[trigger] row[i]) is Fixed
                        && row[i].mask() == d;
                    if i < n - 1 {
                        assert(u & d != 0);
                    } else {
                        assert(x == d && x & d != 0);
                    }
                }
            },
            Cell::Possible(_) => {
                assert((u | 0u16) == u) by (bit_vector);
                assert forall|i: int| 0 <= i < n && (#[trigger] row[i]) is Fixed
                    && row[i].mask() == d implies i < n - 1 by {}
            },
        }
    }
}

/// Refinement is transitive.
pub proof fn lemma_refines_trans(a: Seq<Cell>, b: Seq<Cell>, c: Seq<Cell>)
    requires
        refines(a, b),
        refines(b, c),
    ensures
        refines(a, c),
{
    assert forall|i: int| 0 <= i < 81 implies (#[trigger] a[i]).mask() & !c[i].mask() == 0 by {
        lemma_submask_trans(a[i].mask(), b[i].mask(), c[i].mask());
    }
}

/// An already filled grid passes through row pruning unchanged.
proof fn lemma_prune_filled(s: Seq<Cell>)
    requires
        grid_wf(s),
        filled_spec(s),
    ensures
        prune_grid_spec(s) == Some(s),
{
    assert forall|r: int| 0 <= r < 9 implies
        (#[trigger] pruned_row(s, r)) == Some(row_of(s, r)) by {
        let row = row_of(s, r);
        assert(forall|k: int| 0 <= k < 9 ==> (#[trigger] row[k]) == s[r * 9 + k]);
        match prune_fixed_row(row) {
            None => {
                let i = choose|i: int| 0 <= i < 9 && (#[trigger] row[i]) is Possible
                    && row[i].mask() & !fixed_union_upto(row, 9) == 0;
                assert(false);
            },
            Some(r2) => {
                assert(r2 =~= row);
                assert(fix_fixed(row) == Some(row));
                lemma_excls_fixed_id(row, row, 9);
                assert(fix_excl(row) == row);
            },
        }
    }
    crate::engine::lemma_prune_rows_props(s, 9);
    match prune_grid_spec(s) {
        None => {
            assert(false);
        },
        Some(p) => {
            assert forall|i: int| 0 <= i < 81 implies p[i] == s[i] by {
                let r = i / 9;
                let k = i % 9;
                assert(0 <= r < 9 && 0 <= k < 9 && i == r * 9 + k);
                assert(p[r * 9 + k] == pruned_row(s, r)->Some_0[k]);
                assert(row_of(s, r)[k] == s[r * 9 + k]);
            }
            assert(p =~= s);
        },
    }
}

/// Exclusive-group application leaves a row of fixed cells alone.
proof fn lemma_excls_fixed_id(orig: Seq<Cell>, row: Seq<Cell>, n: int)
    requires
        row.len() == 9,
        forall|k: int| 0 <= k < 9 ==> (#[trigger] row[k]) is Fixed,
        0 <= n <= 9,
    ensures
        apply_excls_upto(orig, row, n) == row,
    decreases n,
{
    if n > 0 {
        lemma_excls_fixed_id(orig, row, n - 1);
        assert(apply_excl(row, crate::rows::excl_at(orig, n - 1)) =~= row);
    }
}

/// Full propagation returns an already filled grid unchanged.
pub proof fn lemma_propagate_filled(s: Seq<Cell>)
    requires
        grid_wf(s),
        filled_spec(s),
    ensures
        propagate(s) == Some(s),
{
    lemma_prune_filled(s);
    lemma_transforms_preserve_wf(s);
    let t = transpose_spec(s);
    assert(filled_spec(t)) by {
        assert forall|i: int| 0 <= i < 81 implies (#[trigger] t[i]) is Fixed by {
            assert(0 <= tmap(i) < 81);
        }
    }
    lemma_prune_filled(t);
    lemma_transpose_involution(s);
    let b = blocks_spec(s);
    assert(filled_spec(b)) by {
        assert forall|i: int| 0 <= i < 81 implies (#[trigger] b[i]) is Fixed by {
            assert(0 <= bmap(i) < 81);
        }
    }
    lemma_prune_filled(b);
    lemma_blocks_involution(s);
    assert(cycle(s) == Some(s));
}

impl Grid {
    /// Returns `true` iff the grid is completely filled.
    pub fn is_filled(&self) -> (r: bool)
        requires
            self@.len() == 81,
        ensures
            r == filled_spec(self@),
    {
        let mut i: usize = 0;
        while i < 81
            invariant
                self@.len() == 81,
                i <= 81,
                forall|j: int| 0 <= j < i ==> (#[trigger] self@[j]) is Fixed,
            decreases 81 - i,
        {
            if !self.get(i / 9, i % 9).is_fixed() {
                proof { assert((i / 9) * 9 + (i % 9) == i); }
                return false;
            }
            proof { assert((i / 9) * 9 + (i % 9) == i); }
            i += 1;
        }
        true
    }

    /// Returns `true` iff some row of the grid holds the same fixed digit
    /// twice.
    pub fn is_invalid_row(&self) -> (res: bool)
        requires
            self.wf(),
        ensures
            res == dup_row(self@),
    {
        let mut rr: usize = 0;
        while rr < 9
            invariant
                self.wf(),
                rr <= 9,
                forall|r2: int, i: int, j: int| 0 <= r2 < rr && 0 <= i < j < 9 ==>
                    !((#[trigger] self@[r2 * 9 + i]) is Fixed
                        && (#[trigger] self@[r2 * 9 + j]) is Fixed
                        && self@[r2 * 9 + i].mask() == self@[r2 * 9 + j].mask()),
            decreases 9 - rr,
        {
            let ghost row = row_of(self@, rr as int);
            proof {
                assert(forall|k: int| 0 <= k < 9 ==> (#[trigger] row[k]) == self@[rr as int * 9 + k]);
            }
            let mut acc: u16 = 0;
            let mut k: usize = 0;
            while k < 9
                invariant
                    self.wf(),
                    rr < 9,
                    k <= 9,
                    row == row_of(self@, rr as int),
                    row_wf(row),
                    forall|t: int| 0 <= t < 9 ==> (#[trigger] row[t]) == self@[rr as int * 9 + t],
                    acc == fixed_union_upto(row, k as int),
                    forall|i: int, j: int| 0 <= i < j < k ==>
                        !((#[trigger] row[i]) is Fixed && (#[trigger] row[j]) is Fixed
                            && row[i].mask() == row[j].mask()),
                decreases 9 - k,
            {
                match self.get(rr, k) {
                    Cell::Fixed(d) => {
                        proof { lemma_union_member(row, k as int, d); }
                        if acc & d != 0 {
                            proof {
                                let i = choose|i: int| 0 <= i < k && (#[trigger] row[i]) is Fixed
                                    && row[i].mask() == d;
                                assert(self@[rr as int * 9 + i] is Fixed);
                                assert(self@[rr as int * 9 + k] is Fixed);
                                assert(dup_row(self@));
                            }
                            return true;
                        }
                        acc = acc | d;
                    },
                    Cell::Possible(_) => {
                        proof { lemma_or_facts(acc, 0, 0); }
                    },
                }
                k += 1;
            }
            proof {
                assert forall|i: int, j: int| 0 <= i < j < 9 implies
                    !((#[trigger] self@[rr as int * 9 + i]) is Fixed
                        && (#[trigger] self@[rr as int * 9 + j]) is Fixed
                        && self@[rr as int * 9 + i].mask() == self@[rr as int * 9 + j].mask()) by {
                    assert(row[i] == self@[rr as int * 9 + i]);
                    assert(row[j] == self@[rr as int * 9 + j]);
                }
            }
            rr += 1;
        }
        proof {
            if dup_row(self@) {
                let (r2, i, j) = choose|r2: int, i: int, j: int| 0 <= r2 < 9 && 0 <= i < j < 9
                    && (#[trigger] self@[r2 * 9 + i]) is Fixed
                    && (#[trigger] self@[r2 * 9 + j]) is Fixed
                    && self@[r2 * 9 + i].mask() == self@[r2 * 9 + j].mask();
                assert(false);
            }
        }
        false
    }

    /// Returns `true` iff some row, column, or box holds the same fixed
    /// digit twice.
    pub fn is_invalid(&self) -> (res: bool)
        requires
            self.wf(),
        ensures
            res == invalid_spec(self@),
    {
        proof { lemma_transforms_preserve_wf(self@); }
        if self.is_invalid_row() {
            return true;
        }
        let t = self.transpose();
        if t.is_invalid_row() {
            return true;
        }
        let b = self.blocks();
        b.is_invalid_row()
    }

    /// Divides the search space in two: the first open cell loses its
    /// lowest candidate in the first grid and is fixed to it in the
    /// second.  The two cells split the original candidates exactly.
    pub fn next_grids(&self) -> (r: (Grid, Grid))
        requires
            self.wf(),
            !filled_spec(self@),
        ensures
            r.0.wf(),
            r.1.wf(),
            exists|i: int, b: u16| branching(self@, r.0@, r.1@, i, b),
    {
        let mut idx: usize = 0;
        let mut found = false;
        while !found
            invariant
                self.wf(),
                !filled_spec(self@),
                idx <= 81,
                forall|j: int| 0 <= j < idx ==> (#[trigger] self@[j]) is Fixed,
                found ==> (idx < 81 && !(self@[idx as int] is Fixed)),
            decreases 81 - idx, (if found { 0int } else { 1int }),
        {
            proof {
                if idx == 81 {
                    assert(filled_spec(self@));
                }
            }
            let c = self.get(idx / 9, idx % 9);
            proof { assert((idx / 9) * 9 + (idx % 9) == idx); }
            match c {
                Cell::Possible(_) => { found = true; },
                Cell::Fixed(_) => { idx += 1; },
            }
        }
        let m = match self.get(idx / 9, idx % 9) {
            Cell::Possible(m) => m,
            Cell::Fixed(d) => d,
        };
        proof { assert((idx / 9) * 9 + (idx % 9) == idx); }
        let b = lowest_bit(m);
        let m2 = m & !b;
        proof {
            lemma_branch_masks(m, b);
            lemma_single_bit(m2);
            lemma_and_mask(m, !b);
        }
        let ac = if (m2 & (m2 - 1)) == 0 {
            Cell::Fixed(m2)
        } else {
            Cell::Possible(m2)
        };
        let mut av = self.to_cells();
        av[idx] = ac;
        let mut cv = self.to_cells();
        cv[idx] = Cell::Fixed(b);
        let ga = Grid::from_vec(av);
        let gc = Grid::from_vec(cv);
        proof {
            assert(ga@ =~= self@.update(idx as int, norm_cell(m & !b)));
            assert(gc@ =~= self@.update(idx as int, Cell::Fixed(b)));
            assert(branching(self@, ga@, gc@, idx as int, b));
            assert forall|i: int| 0 <= i < 81 implies (#[trigger] ga@[i]).wf() by {}
            assert forall|i: int| 0 <= i < 81 implies (#[trigger] gc@[i]).wf() by {}
        }
        let r = (ga, gc);
        proof {
            assert(r.0@ == ga@ && r.1@ == gc@);
            assert(branching(self@, r.0@, r.1@, idx as int, b));
        }
        r
    }

    /// Returns the solved grid if one exists: a filled grid without
    /// duplicates whose fixed digits all come from the original candidates.
    /// The search never misses one -- whenever some complete valid grid
    /// extends this one, the result is `Some` -- and an already solved
    /// grid comes back unchanged.
    pub fn solve(&self) -> (res: Option<Grid>)
        requires
            self.wf(),
        ensures
            res matches Some(g) ==> g.wf() && filled_spec(g@) && !invalid_spec(g@)
                && refines(g@, self@),
            (exists|t: Seq<Cell>| solution(t, self@)) ==> res is Some,
            (filled_spec(self@) && !invalid_spec(self@)) ==> (res matches Some(g2)
                && g2@ == self@),
        decreases masks_total(self@),
    {
        proof {
            lemma_propagate_props(self@);
            if filled_spec(self@) {
                lemma_propagate_filled(self@);
            }
        }
        match self.prune_grid_all() {
            None => {
                proof {
                    if exists|t: Seq<Cell>| solution(t, self@) {
                        let t = choose|t: Seq<Cell>| solution(t, self@);
                        lemma_propagate_sound(self@, t);
                        assert(false);
                    }
                }
                None
            },
            Some(g) => {
                if g.is_invalid() {
                    proof {
                        if exists|t: Seq<Cell>| solution(t, self@) {
                            let t = choose|t: Seq<Cell>| solution(t, self@);
                            lemma_propagate_sound(self@, t);
                            assert(solution(t, g@));
                            crate::laws::lemma_duplicate_never_solved(g@, t);
                            assert(false);
                        }
                    }
                    None
                } else if g.is_filled() {
                    Some(g)
                } else {
                    let (ga, gc) = g.next_grids();
                    proof {
                        lemma_branch_totals(g@, ga@, gc@);
                        lemma_refines_trans(ga@, g@, self@);
                        lemma_refines_trans(gc@, g@, self@);
                        if exists|t: Seq<Cell>| solution(t, self@) {
                            let t = choose|t: Seq<Cell>| solution(t, self@);
                            lemma_propagate_sound(self@, t);
                            assert(solution(t, g@));
                            let (i, b) = choose|i: int, b: u16| branching(g@, ga@, gc@, i, b);
                            lemma_branch_sound(g@, ga@, gc@, t, i, b);
                            if solution(t, ga@) {
                                assert(exists|t2: Seq<Cell>| solution(t2, ga@));
                            } else {
                                assert(exists|t2: Seq<Cell>| solution(t2, gc@));
                            }
                        }
                    }
                    match ga.solve() {
                        Some(sol) => {
                            proof { lemma_refines_trans(sol@, ga@, self@); }
                            Some(sol)
                        },
                        None => {
                            match gc.solve() {
                                Some(sol) => {
                                    proof { lemma_refines_trans(sol@, gc@, self@); }
                                    Some(sol)
                                },
                                None => {
                                    proof {
                                        if exists|t: Seq<Cell>| solution(t, self@) {
                                            let t = choose|t: Seq<Cell>| solution(t, self@);
                                            lemma_propagate_sound(self@, t);
                                            let (i, b) = choose|i: int, b: u16|
                                                branching(g@, ga@, gc@, i, b);
                                            lemma_branch_sound(g@, ga@, gc@, t, i, b);
                                            if solution(t, ga@) {
                                                assert(exists|t2: Seq<Cell>| solution(t2, ga@));
                                            } else {
                                                assert(exists|t2: Seq<Cell>| solution(t2, gc@));
                                            }
                                            assert(false);
                                        }
                                    }
                                    None
                                },
                            }
                        },
                    }
                }
            },
        }
    }
}

/// Both branch grids refine their parent and carry strictly fewer
/// candidates.
proof fn lemma_branch_totals(s: Seq<Cell>, a: Seq<Cell>, c: Seq<Cell>)
    requires
        grid_wf(s),
        exists|i: int, b: u16| branching(s, a, c, i, b),
    ensures
        refines(a, s),
        refines(c, s),
        masks_total(a) < masks_total(s),
        masks_total(c) < masks_total(s),
{
    let (i, b) = choose|i: int, b: u16| branching(s, a, c, i, b);
    assert(branching(s, a, c, i, b));
    let m = s[i].mask();
    lemma_branch_masks(m, b);
    lemma_and_mask(m, !b);
    assert forall|j: int| 0 <= j < 81 implies (#[trigger] a[j]).mask() & !s[j].mask() == 0 by {
        if j == i {
            assert(a[j].mask() == m & !b);
        } else {
            lemma_self_submask(s[j].mask());
        }
    }
    assert forall|j: int| 0 <= j < 81 implies (#[trigger] c[j]).mask() & !s[j].mask() == 0 by {
        if j == i {
            assert(c[j].mask() == b);
        } else {
            lemma_self_submask(s[j].mask());
        }
    }
    assert(a[i].mask() != s[i].mask());
    assert(c[i].mask() != s[i].mask()) by {
        assert(!one_bit(m) && one_bit(b));
    }
    lemma_total_mono(a, s);
    lemma_total_mono(c, s);
}

/// The lowest candidate bit of a nonempty mask.
fn lowest_bit(m: u16) -> (b: u16)
    requires
        m != 0,
        m < 512,
    ensures
        one_bit(b),
        m & b == b,
        m & ((b - 1) as u16) == 0,
{
    let mut j: usize = 0;
    while j < 9
        invariant
            m != 0,
            m < 512,
            j <= 9,
            forall|t: int| 0 <= t < j ==> m & bit_of(t) == 0,
        decreases 9 - j,
    {
        let bj = crate::rows::bit_for(j);
        if m & bj != 0 {
            proof {
                lemma_low_clear(m);
                lemma_onebit_facts(m, bj);
                if j > 0 { assert(m & bit_of(0) == 0); }
                if j > 1 { assert(m & bit_of(1) == 0); }
                if j > 2 { assert(m & bit_of(2) == 0); }
                if j > 3 { assert(m & bit_of(3) == 0); }
                if j > 4 { assert(m & bit_of(4) == 0); }
                if j > 5 { assert(m & bit_of(5) == 0); }
                if j > 6 { assert(m & bit_of(6) == 0); }
                if j > 7 { assert(m & bit_of(7) == 0); }
            }
            return bj;
        }
        j += 1;
    }
    proof {
        lemma_low_clear(m);
        assert(m & bit_of(0) == 0);
        assert(m & bit_of(1) == 0);
        assert(m & bit_of(2) == 0);
        assert(m & bit_of(3) == 0);
        assert(m & bit_of(4) == 0);
        assert(m & bit_of(5) == 0);
        assert(m & bit_of(6) == 0);
        assert(m & bit_of(7) == 0);
        assert(m & bit_of(8) == 0);
        assert(false);
    }
    1
}

} // verus!
