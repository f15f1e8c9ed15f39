use vstd::prelude::*;
use crate::cell::{Cell, one_bit, lemma_single_bit};

verus! {

// ---------------------------------------------------------------------------
// Bit-mask facts
// ---------------------------------------------------------------------------

/// `a & b` stays below `a` and is one of `a`'s submasks.
pub proof fn lemma_and_mask(a: u16, b: u16)
    by (bit_vector)
    ensures
        (a & b) <= a,
        (a & b) & !a == 0,
{
}

/// A submask is numerically no larger, and strictly smaller when proper.
pub proof fn lemma_submask_le(a: u16, b: u16)
    by (bit_vector)
    ensures
        a & !b == 0 ==> a <= b,
        (a & !b == 0 && a != b) ==> a < b,
{
}

/// Being a submask is transitive.
pub proof fn lemma_submask_trans(a: u16, b: u16, c: u16)
    by (bit_vector)
    ensures
        (a & !b == 0 && b & !c == 0) ==> a & !c == 0,
{
}

/// Every mask is a submask of itself.
pub proof fn lemma_self_submask(a: u16)
    by (bit_vector)
    ensures
        a & !a == 0,
{
}

// ---------------------------------------------------------------------------
// Rows and the pruning measure
// ---------------------------------------------------------------------------

/// A well-formed row: nine well-formed cells.
pub open spec fn row_wf(row: Seq<Cell>) -> bool {
    row.len() == 9 && forall|i: int| 0 <= i < 9 ==> (#[trigger] row[i]).wf()
}

/// A mask holding a single candidate collapses to a fixed digit; any other
/// mask stays an open cell.
pub open spec fn norm_cell(m: u16) -> Cell {
    if one_bit(m) {
        Cell::Fixed(m)
    } else {
        Cell::Possible(m)
    }
}

/// Sum of the candidate masks of a sequence of cells.  Pruning strictly
/// lowers it, which bounds every fixed-point iteration of the solver.
pub open spec fn masks_total(s: Seq<Cell>) -> nat
    decreases s.len(),
{
    if s.len() == 0 {
        0
    } else {
        s[0].mask() as nat + masks_total(s.drop_first())
    }
}

/// Cell-wise submasks give a no-larger total, strictly smaller as soon as
/// one mask properly shrinks.
pub proof fn lemma_total_mono(a: Seq<Cell>, b: Seq<Cell>)
    requires
        a.len() == b.len(),
        forall|i: int| 0 <= i < a.len() ==> (#[trigger] a[i]).mask() & !b[i].mask() == 0,
    ensures
        masks_total(a) <= masks_total(b),
        (exists|i: int| 0 <= i < a.len() && (#[trigger] a[i]).mask() != b[i].mask())
            ==> masks_total(a) < masks_total(b),
    decreases a.len(),
{
    if a.len() == 0 {
    } else {
        lemma_submask_le(a[0].mask(), b[0].mask());
        let ar = a.drop_first();
        let br = b.drop_first();
        assert(forall|i: int| 0 <= i < ar.len() ==> (#[trigger] ar[i]).mask() & !br[i].mask() == 0)
            by {
            assert(forall|i: int| 0 <= i < ar.len() ==> ar[i] == a[i + 1] && br[i] == b[i + 1]);
        }
        lemma_total_mono(ar, br);
        if exists|i: int| 0 <= i < a.len() && (#[trigger] a[i]).mask() != b[i].mask() {
            let i = choose|i: int| 0 <= i < a.len() && (#[trigger] a[i]).mask() != b[i].mask();
            if i == 0 {
                assert(a[0].mask() < b[0].mask());
            } else {
                assert(ar[i - 1].mask() != br[i - 1].mask());
                assert(masks_total(ar) < masks_total(br));
            }
        }
    }
}

// ---------------------------------------------------------------------------
// Fixed-digit pruning
// ---------------------------------------------------------------------------

/// Union of the digits of the fixed cells among the first `n` cells.
pub open spec fn fixed_union_upto(row: Seq<Cell>, n: int) -> u16
    decreases n,
{
    if n <= 0 {
        0u16
    } else {
        fixed_union_upto(row, n - 1) | (match row[n - 1] {
            Cell::Fixed(d) => d,
            Cell::Possible(_) => 0u16,
        })
    }
}

/// Union of the digits already fixed somewhere in the row.
pub open spec fn fixed_union(row: Seq<Cell>) -> u16 {
    fixed_union_upto(row, 9)
}

/// Fixed-digit pruning of one cell: digits fixed elsewhere in the line are
/// removed from an open cell's candidates, and a lone survivor collapses.
pub open spec fn prune_fixed_cell(c: Cell, u: u16) -> Cell {
    match c {
        Cell::Fixed(d) => Cell::Fixed(d),
        Cell::Possible(m) => norm_cell(m & !u),
    }
}

/// One pass of fixed-digit pruning over a row; `None` when some open cell
/// loses its last candidate, which makes the whole grid unsolvable.
pub open spec fn prune_fixed_row(row: Seq<Cell>) -> Option<Seq<Cell>> {
    let u = fixed_union(row);
    if exists|i: int| 0 <= i < 9 && (#[trigger] row[i]) is Possible && row[i].mask() & !u == 0 {
        None
    } else {
        Some(Seq::new(9, |i: int| prune_fixed_cell(row[i], u)))
    }
}

/// A successful fixed-digit pass keeps the row well formed, only removes
/// candidates, and strictly lowers the measure whenever it changes the row.
pub proof fn lemma_prune_fixed_row_props(row: Seq<Cell>)
    requires
        row_wf(row),
    ensures
        prune_fixed_row(row) matches Some(r2) ==> {
            &&& row_wf(r2)
            &&& forall|k: int| 0 <= k < 9 ==> (#[trigger] r2[k]).mask() & !row[k].mask() == 0
            &&& forall|k: int| 0 <= k < 9 && (#[trigger] r2[k]).mask() == row[k].mask()
                ==> r2[k] == row[k]
            &&& (r2 != row ==> masks_total(r2) < masks_total(row))
        },
{
    let u = fixed_union(row);
    match prune_fixed_row(row) {
        None => {},
        Some(r2) => {
            assert forall|k: int| 0 <= k < 9 implies (#[trigger] r2[k]).wf()
                && r2[k].mask() & !row[k].mask() == 0
                && (r2[k].mask() == row[k].mask() ==> r2[k] == row[k]) by {
                match row[k] {
                    Cell::Fixed(d) => {
                        lemma_self_submask(d);
                    },
                    Cell::Possible(m) => {
                        let m2 = m & !u;
                        assert(m2 != 0);
                        lemma_and_mask(m, !u);
                        assert(m2 <= m < 512);
                        if m2 == m {
                            assert(r2[k] == Cell::Possible(m));
                        }
                    },
                }
            }
            if r2 != row {
                assert(exists|i: int| 0 <= i < 9 && (#[trigger] r2[i]) != row[i]) by {
                    if forall|i: int| 0 <= i < 9 ==> (#[trigger] r2[i]) == row[i] {
                        assert(r2 =~= row);
                    }
                }
                let i = choose|i: int| 0 <= i < 9 && (#[trigger] r2[i]) != row[i];
                assert(r2[i].mask() != row[i].mask());
                lemma_total_mono(r2, row);
            }
        },
    }
}

/// Fixed-digit pruning iterated to its fixed point.
pub open spec fn fix_fixed(row: Seq<Cell>) -> Option<Seq<Cell>>
    decreases masks_total(row),
    when row_wf(row)
    via fix_fixed_dec
{
    match prune_fixed_row(row) {
        None => None,
        Some(r2) => if r2 == row {
            Some(row)
        } else {
            fix_fixed(r2)
        },
    }
}

#[via_fn]
proof fn fix_fixed_dec(row: Seq<Cell>) {
    if row_wf(row) {
        lemma_prune_fixed_row_props(row);
    }
}

/// The fixed point of fixed-digit pruning keeps the row well formed and
/// only removes candidates.
pub proof fn lemma_fix_fixed_props(row: Seq<Cell>)
    requires
        row_wf(row),
    ensures
        fix_fixed(row) matches Some(r2) ==> {
            &&& row_wf(r2)
            &&& forall|k: int| 0 <= k < 9 ==> (#[trigger] r2[k]).mask() & !row[k].mask() == 0
            &&& forall|k: int| 0 <= k < 9 && (#[trigger] r2[k]).mask() == row[k].mask()
                ==> r2[k] == row[k]
            &&& masks_total(r2) <= masks_total(row)
            &&& prune_fixed_row(r2) == Some(r2)
        },
    decreases masks_total(row),
{
    lemma_prune_fixed_row_props(row);
    match prune_fixed_row(row) {
        None => {},
        Some(r2) => {
            if r2 == row {
            } else {
                lemma_fix_fixed_props(r2);
                match fix_fixed(r2) {
                    None => {},
                    Some(r3) => {
                        assert forall|k: int| 0 <= k < 9 implies
                            (#[trigger] r3[k]).mask() & !row[k].mask() == 0
                            && (r3[k].mask() == row[k].mask() ==> r3[k] == row[k]) by {
                            lemma_submask_trans(r3[k].mask(), r2[k].mask(), row[k].mask());
                            if r3[k].mask() == row[k].mask() {
                                lemma_submask_le(r3[k].mask(), r2[k].mask());
                                lemma_submask_le(r2[k].mask(), row[k].mask());
                                assert(r2[k].mask() == row[k].mask());
                            }
                        }
                        lemma_total_mono(r2, row);
                    },
                }
            }
        },
    }
}

// ---------------------------------------------------------------------------
// Exclusive groups
// ---------------------------------------------------------------------------

/// The `i`-th of the nine digit (or cell position) bits.
pub open spec fn bit_of(i: int) -> u16 {
    if i == 0 { 1 } else if i == 1 { 2 } else if i == 2 { 4 } else if i == 3 { 8 }
    else if i == 4 { 16 } else if i == 5 { 32 } else if i == 6 { 64 }
    else if i == 7 { 128 } else { 256 }
}

/// Number of digit bits set in a mask.
pub open spec fn popcnt9(m: u16) -> int {
    (m & 1) as int + ((m >> 1u16) & 1) + ((m >> 2u16) & 1) + ((m >> 3u16) & 1)
        + ((m >> 4u16) & 1) + ((m >> 5u16) & 1) + ((m >> 6u16) & 1)
        + ((m >> 7u16) & 1) + ((m >> 8u16) & 1)
}

/// The cell is open and still allows the digit bit `b`.
pub open spec fn has_cand(c: Cell, b: u16) -> bool {
    match c {
        Cell::Possible(m) => m & b != 0,
        Cell::Fixed(_) => false,
    }
}

/// Positions (as a 9-bit mask over the first `n` cells) whose open cells
/// still allow the digit bit `b`.
pub open spec fn dpos_upto(row: Seq<Cell>, b: u16, n: int) -> u16
    decreases n,
{
    if n <= 0 {
        0u16
    } else {
        dpos_upto(row, b, n - 1) | (if has_cand(row[n - 1], b) { bit_of(n - 1) } else { 0u16 })
    }
}

/// Positions of the row whose open cells still allow digit `j + 1`.
pub open spec fn dpos(row: Seq<Cell>, j: int) -> u16 {
    dpos_upto(row, bit_of(j), 9)
}

/// Digits (over the first `n`) whose candidate positions coincide with
/// those of digit `i + 1`.
pub open spec fn dgroup_upto(row: Seq<Cell>, i: int, n: int) -> u16
    decreases n,
{
    if n <= 0 {
        0u16
    } else {
        dgroup_upto(row, i, n - 1)
            | (if dpos(row, n - 1) == dpos(row, i) { bit_of(n - 1) } else { 0u16 })
    }
}

/// All digits whose candidate positions coincide with those of digit `i + 1`.
pub open spec fn dgroup(row: Seq<Cell>, i: int) -> u16 {
    dgroup_upto(row, i, 9)
}

/// Digit `i + 1` is the lowest digit of its group of coinciding positions.
pub open spec fn first_of_group(row: Seq<Cell>, i: int) -> bool {
    forall|k: int| 0 <= k < i ==> dpos(row, k) != dpos(row, i)
}

/// The group reported at digit slot `i`: the digits sharing exactly the
/// candidate positions of digit `i + 1`, reported once per group (at its
/// lowest digit) and only when as many digits as positions take part;
/// `0` everywhere else.
pub open spec fn excl_at(row: Seq<Cell>, i: int) -> u16 {
    if dpos(row, i) != 0 && first_of_group(row, i)
        && popcnt9(dgroup(row, i)) == popcnt9(dpos(row, i)) {
        dgroup(row, i)
    } else {
        0u16
    }
}

/// Digit `i + 1`'s group was already reported at some lower digit.
pub open spec fn consumed(row: Seq<Cell>, t: int, i: int) -> bool {
    exists|k: int| 0 <= k < i && dpos(row, k) == dpos(row, t)
}

/// The position set of digit `t + 1` as the scan sees it once the first
/// `i` digit slots were processed: zeroed when its group was reported.
pub open spec fn consumed_val(row: Seq<Cell>, t: int, i: int) -> u16 {
    if consumed(row, t, i) { 0u16 } else { dpos(row, t) }
}

/// Digits over the first `n` whose scanned position set equals the one
/// scanned for digit `i + 1`.
pub open spec fn sweep_upto(row: Seq<Cell>, i: int, n: int) -> u16
    decreases n,
{
    if n <= 0 {
        0u16
    } else {
        sweep_upto(row, i, n - 1)
            | (if consumed_val(row, n - 1, i) == consumed_val(row, i, i) {
                bit_of(n - 1)
            } else {
                0u16
            })
    }
}

/// Or-ing masks below 512 stays below 512; or-ing keeps every set bit.
pub proof fn lemma_or_facts(a: u16, b: u16, c: u16)
    by (bit_vector)
    ensures
        (a < 512 && b < 512) ==> (a | b) < 512,
        a & c != 0 ==> (a | b) & c != 0,
        (a | b) & b == b,
        a | 0u16 == a,
{
}

/// Each digit bit that is set contributes one to the bit count.
proof fn lemma_bit_terms(m: u16)
    by (bit_vector)
    ensures
        m & 1 != 0 ==> (m & 1) == 1,
        m & 2 != 0 ==> ((m >> 1u16) & 1) == 1,
        m & 4 != 0 ==> ((m >> 2u16) & 1) == 1,
        m & 8 != 0 ==> ((m >> 3u16) & 1) == 1,
        m & 16 != 0 ==> ((m >> 4u16) & 1) == 1,
        m & 32 != 0 ==> ((m >> 5u16) & 1) == 1,
        m & 64 != 0 ==> ((m >> 6u16) & 1) == 1,
        m & 128 != 0 ==> ((m >> 7u16) & 1) == 1,
        m & 256 != 0 ==> ((m >> 8u16) & 1) == 1,
{
}

/// A mask holding the digit bit `i` counts at least one digit.
pub proof fn lemma_popcnt_pos(m: u16, i: int)
    requires
        0 <= i < 9,
        m & bit_of(i) != 0,
    ensures
        popcnt9(m) >= 1,
{
    lemma_bit_terms(m);
}

/// The scanned sweep for an unconsumed, nonempty position set is exactly
/// the digit group.
proof fn lemma_sweep_eq_dgroup(row: Seq<Cell>, i: int, n: int)
    requires
        0 <= i < 9,
        !consumed(row, i, i),
        dpos(row, i) != 0,
        0 <= n <= 9,
    ensures
        sweep_upto(row, i, n) == dgroup_upto(row, i, n),
    decreases n,
{
    if n > 0 {
        lemma_sweep_eq_dgroup(row, i, n - 1);
        let t = n - 1;
        if consumed(row, t, i) {
            if dpos(row, t) == dpos(row, i) {
                let k = choose|k: int| 0 <= k < i && dpos(row, k) == dpos(row, t);
                assert(dpos(row, k) == dpos(row, i));
                assert(consumed(row, i, i));
            }
            assert(consumed_val(row, t, i) != consumed_val(row, i, i));
        }
    }
}

/// Position sets are masks of the nine cell bits.
pub(crate) proof fn lemma_dpos_bound(row: Seq<Cell>, b: u16, n: int)
    requires
        0 <= n <= 9,
    ensures
        dpos_upto(row, b, n) < 512,
    decreases n,
{
    if n > 0 {
        lemma_dpos_bound(row, b, n - 1);
        lemma_or_facts(dpos_upto(row, b, n - 1),
            if has_cand(row[n - 1], b) { bit_of(n - 1) } else { 0u16 }, 0);
    }
}

impl crate::grid::Grid {
    /// Computes the exclusive groups of one row: digits whose remaining
    /// candidate positions coincide exactly, and whose number equals the
    /// number of those positions, may occur only there, so every other
    /// candidate can be pruned from those cells.
    pub fn exclusive_possibilities(row: &Vec<Cell>) -> (r: Vec<u16>)
        requires
            row_wf(row@),
        ensures
            r@.len() == 9,
            forall|i: int| 0 <= i < 9 ==> r@[i] == excl_at(row@, i),
    {
        let mut groups: Vec<u16> = Vec::new();
        let mut j: usize = 0;
        while j < 9
            invariant
                row_wf(row@),
                j <= 9,
                groups@.len() == j,
                forall|t: int| 0 <= t < j ==> groups@[t] == dpos(row@, t),
            decreases 9 - j,
        {
            let bj = bit_for(j);
            let mut acc: u16 = 0;
            let mut i: usize = 0;
            while i < 9
                invariant
                    row_wf(row@),
                    i <= 9,
                    j < 9,
                    bj == bit_of(j as int),
                    acc == dpos_upto(row@, bj, i as int),
                decreases 9 - i,
            {
                let c = row[i];
                let mut hit = false;
                match c {
                    Cell::Possible(m) => {
                        if m & bj != 0 {
                            hit = true;
                        }
                    },
                    Cell::Fixed(_) => {},
                }
                if hit {
                    acc = acc | bit_for(i);
                } else {
                    proof { lemma_or_facts(acc, 0, 0); }
                }
                i += 1;
            }
            groups.push(acc);
            j += 1;
        }
        let mut pos: Vec<u16> = Vec::new();
        let mut i: usize = 0;
        while i < 9
            invariant
                row_wf(row@),
                i <= 9,
                pos@.len() == i,
                groups@.len() == 9,
                forall|t: int| 0 <= t < 9 ==>
                    (#[trigger] groups@[t]) == consumed_val(row@, t, i as int),
                forall|t: int| 0 <= t < i ==> (#[trigger] pos@[t]) == excl_at(row@, t),
            decreases 9 - i,
        {
            let cells = groups[i];
            let ghost gpre = groups@;
            let mut digits: u16 = 0;
            let mut jj: usize = 0;
            while jj < 9
                invariant
                    row_wf(row@),
                    jj <= 9,
                    i < 9,
                    groups@.len() == 9,
                    cells == consumed_val(row@, i as int, i as int),
                    gpre.len() == 9,
                    forall|t: int| 0 <= t < 9 ==>
                        (#[trigger] gpre[t]) == consumed_val(row@, t, i as int),
                    forall|t: int| jj <= t < 9 ==> (#[trigger] groups@[t]) == gpre[t],
                    forall|t: int| 0 <= t < jj ==> (#[trigger] groups@[t])
                        == (if gpre[t] == cells { 0u16 } else { gpre[t] }),
                    digits == sweep_upto(row@, i as int, jj as int),
                    digits < 512,
                decreases 9 - jj,
            {
                if groups[jj] == cells {
                    let b = bit_for(jj);
                    proof { lemma_or_facts(digits, b, 0); }
                    digits = digits | b;
                    groups[jj] = 0;
                } else {
                    proof { lemma_or_facts(digits, 0, 0); }
                }
                jj += 1;
            }
            let dc = popcount9(digits);
            let cc = popcount9(cells);
            proof {
                assert(digits == sweep_upto(row@, i as int, 9));
                if cells != 0 {
                    assert(!consumed(row@, i as int, i as int) && dpos(row@, i as int) != 0);
                    lemma_sweep_eq_dgroup(row@, i as int, 9);
                    assert(digits == dgroup(row@, i as int));
                    assert(first_of_group(row@, i as int) <==> !consumed(row@, i as int, i as int));
                } else {
                    assert(consumed_val(row@, i as int, i as int)
                        == consumed_val(row@, i as int, i as int));
                    assert(sweep_upto(row@, i as int, i as int + 1)
                        & bit_of(i as int) == bit_of(i as int)) by {
                        lemma_or_facts(sweep_upto(row@, i as int, i as int), bit_of(i as int), 0);
                    }
                    assert(digits & bit_of(i as int) != 0) by {
                        lemma_sweep_grows(row@, i as int, i as int + 1, 9);
                    }
                    lemma_popcnt_pos(digits, i as int);
                    assert(popcnt9(0u16) == 0) by (bit_vector);
                }
            }
            if dc == cc {
                pos.push(digits);
            } else {
                pos.push(0);
            }
            proof {
                assert forall|t: int| 0 <= t < 9 implies (#[trigger] groups@[t])
                    == consumed_val(row@, t, i as int + 1) by {
                    lemma_consumed_step(row@, t, i as int, cells, gpre[t], groups@[t]);
                }
            }
            i += 1;
        }
        pos
    }
}

/// A bit set in a shorter sweep stays set in a longer one.
proof fn lemma_sweep_grows(row: Seq<Cell>, i: int, n1: int, n2: int)
    requires
        0 <= n1 <= n2 <= 9,
        sweep_upto(row, i, n1) & bit_of(i) != 0,
    ensures
        sweep_upto(row, i, n2) & bit_of(i) != 0,
    decreases n2 - n1,
{
    if n1 < n2 {
        lemma_sweep_grows(row, i, n1, n2 - 1);
        lemma_or_facts(sweep_upto(row, i, n2 - 1),
            if consumed_val(row, n2 - 1, i) == consumed_val(row, i, i) {
                bit_of(n2 - 1)
            } else {
                0u16
            }, bit_of(i));
    }
}

/// One scan step reported the group of digit `i + 1` and zeroed exactly
/// the position sets equal to it; the scanned state steps from `i` to
/// `i + 1`.
proof fn lemma_consumed_step(row: Seq<Cell>, t: int, i: int, cells: u16, pre: u16, post: u16)
    requires
        0 <= t < 9,
        0 <= i < 9,
        cells == consumed_val(row, i, i),
        pre == consumed_val(row, t, i),
        post == (if pre == cells { 0u16 } else { pre }),
    ensures
        post == consumed_val(row, t, i + 1),
{
    if consumed(row, t, i) {
        assert(consumed(row, t, i + 1));
        if cells == 0 {
            assert(post == 0);
        }
    } else {
        if cells != 0 {
            assert(cells == dpos(row, i));
            if pre == cells {
                assert(dpos(row, t) == dpos(row, i));
                assert(consumed(row, t, i + 1));
            } else {
                assert(dpos(row, t) != dpos(row, i));
                if consumed(row, t, i + 1) {
                    let k = choose|k: int| 0 <= k < i + 1 && dpos(row, k) == dpos(row, t);
                    assert(0 <= k < i);
                    assert(consumed(row, t, i));
                }
            }
        } else {
            if consumed(row, i, i) {
                // cells == 0 because the group of digit i+1 was itself consumed
                if dpos(row, t) == dpos(row, i) {
                    let k = choose|k: int| 0 <= k < i && dpos(row, k) == dpos(row, i);
                    assert(dpos(row, k) == dpos(row, t));
                    assert(consumed(row, t, i));
                }
                if consumed(row, t, i + 1) {
                    let k = choose|k: int| 0 <= k < i + 1 && dpos(row, k) == dpos(row, t);
                    if k == i {
                        assert(consumed(row, t, i));
                    } else {
                        assert(consumed(row, t, i));
                    }
                }
                assert(post == consumed_val(row, t, i + 1));
            } else {
                // dpos(row, i) == 0 and unconsumed
                assert(dpos(row, i) == 0);
                if dpos(row, t) == 0 {
                    assert(pre == 0 || pre == dpos(row, t));
                    assert(post == 0);
                    assert(consumed(row, t, i + 1) || dpos(row, t) == 0);
                } else {
                    assert(pre == dpos(row, t));
                    assert(pre != cells);
                    if consumed(row, t, i + 1) {
                        let k = choose|k: int| 0 <= k < i + 1 && dpos(row, k) == dpos(row, t);
                        if k == i {
                            assert(dpos(row, i) == dpos(row, t));
                            assert(false);
                        }
                        assert(consumed(row, t, i));
                        assert(false);
                    }
                }
            }
        }
    }
}

// ---------------------------------------------------------------------------
// Exclusive-group pruning
// ---------------------------------------------------------------------------

/// Exclusive-group pruning of one cell: a cell that overlaps the group but
/// is not already confined to it is cut down to the group's digits.
pub open spec fn apply_excl_cell(c: Cell, e: u16) -> Cell {
    match c {
        Cell::Fixed(d) => Cell::Fixed(d),
        Cell::Possible(m) => if m & e != 0 && m & e != m {
            norm_cell(m & e)
        } else {
            Cell::Possible(m)
        },
    }
}

/// One exclusive group applied to a whole row.
pub open spec fn apply_excl(row: Seq<Cell>, e: u16) -> Seq<Cell> {
    Seq::new(9, |i: int| apply_excl_cell(row[i], e))
}

/// The first `n` group slots of `orig` applied to `row`, in slot order.
pub open spec fn apply_excls_upto(orig: Seq<Cell>, row: Seq<Cell>, n: int) -> Seq<Cell>
    decreases n,
{
    if n <= 0 {
        row
    } else {
        apply_excl(apply_excls_upto(orig, row, n - 1), excl_at(orig, n - 1))
    }
}

/// One pass of exclusive-group pruning: the groups are read off the row
/// once and then applied in digit order.  This never kills a cell.
pub open spec fn excls_pass(row: Seq<Cell>) -> Seq<Cell> {
    apply_excls_upto(row, row, 9)
}

/// One group application keeps the row well formed, only removes
/// candidates, and moves no cell without shrinking its mask.
pub proof fn lemma_apply_excl_props(row: Seq<Cell>, e: u16)
    requires
        row_wf(row),
    ensures
        row_wf(apply_excl(row, e)),
        forall|k: int| 0 <= k < 9 ==> (#[trigger] apply_excl(row, e)[k]).mask() & !row[k].mask() == 0,
        forall|k: int| 0 <= k < 9 && (#[trigger] apply_excl(row, e)[k]).mask() == row[k].mask()
            ==> apply_excl(row, e)[k] == row[k],
{
    let r2 = apply_excl(row, e);
    assert forall|k: int| 0 <= k < 9 implies (#[trigger] r2[k]).wf()
        && r2[k].mask() & !row[k].mask() == 0
        && (r2[k].mask() == row[k].mask() ==> r2[k] == row[k]) by {
        match row[k] {
            Cell::Fixed(d) => {
                lemma_self_submask(d);
            },
            Cell::Possible(m) => {
                lemma_self_submask(m);
                if m & e != 0 && m & e != m {
                    lemma_and_mask(m, e);
                }
            },
        }
    }
}

/// A partial pass keeps the row well formed, only removes candidates, and
/// moves no cell without shrinking its mask.
pub proof fn lemma_excls_upto_props(orig: Seq<Cell>, row: Seq<Cell>, n: int)
    requires
        row_wf(row),
        0 <= n <= 9,
    ensures
        row_wf(apply_excls_upto(orig, row, n)),
        forall|k: int| 0 <= k < 9 ==>
            (#[trigger] apply_excls_upto(orig, row, n)[k]).mask() & !row[k].mask() == 0,
        forall|k: int| 0 <= k < 9
            && (#[trigger] apply_excls_upto(orig, row, n)[k]).mask() == row[k].mask()
            ==> apply_excls_upto(orig, row, n)[k] == row[k],
    decreases n,
{
    if n <= 0 {
        assert forall|k: int| 0 <= k < 9 implies
            (#[trigger] apply_excls_upto(orig, row, n)[k]).mask() & !row[k].mask() == 0 by {
            lemma_self_submask(row[k].mask());
        }
    } else {
        let p = apply_excls_upto(orig, row, n - 1);
        let e = excl_at(orig, n - 1);
        let r2 = apply_excls_upto(orig, row, n);
        lemma_excls_upto_props(orig, row, n - 1);
        lemma_apply_excl_props(p, e);
        assert forall|k: int| 0 <= k < 9 implies (#[trigger] r2[k]).mask() & !row[k].mask() == 0
            && (r2[k].mask() == row[k].mask() ==> r2[k] == row[k]) by {
            lemma_submask_trans(r2[k].mask(), p[k].mask(), row[k].mask());
            if r2[k].mask() == row[k].mask() {
                lemma_submask_le(r2[k].mask(), p[k].mask());
                lemma_submask_le(p[k].mask(), row[k].mask());
                assert(p[k].mask() == row[k].mask());
            }
        }
    }
}

/// A full pass that changes the row strictly lowers the measure.
pub proof fn lemma_excls_pass_props(row: Seq<Cell>)
    requires
        row_wf(row),
    ensures
        row_wf(excls_pass(row)),
        forall|k: int| 0 <= k < 9 ==> (#[trigger] excls_pass(row)[k]).mask() & !row[k].mask() == 0,
        excls_pass(row) != row ==> masks_total(excls_pass(row)) < masks_total(row),
        masks_total(excls_pass(row)) <= masks_total(row),
{
    let r2 = excls_pass(row);
    lemma_excls_upto_props(row, row, 9);
    lemma_total_mono(r2, row);
    if r2 != row {
        assert(exists|i: int| 0 <= i < 9 && (#[trigger] r2[i]) != row[i]) by {
            if forall|i: int| 0 <= i < 9 ==> (#[trigger] r2[i]) == row[i] {
                assert(r2 =~= row);
            }
        }
        let i = choose|i: int| 0 <= i < 9 && (#[trigger] r2[i]) != row[i];
        assert(r2[i].mask() != row[i].mask());
    }
}

/// Exclusive-group pruning iterated to its fixed point.
pub open spec fn fix_excl(row: Seq<Cell>) -> Seq<Cell>
    decreases masks_total(row),
    when row_wf(row)
    via fix_excl_dec
{
    let r2 = excls_pass(row);
    if r2 == row {
        row
    } else {
        fix_excl(r2)
    }
}

#[via_fn]
proof fn fix_excl_dec(row: Seq<Cell>) {
    if row_wf(row) {
        lemma_excls_pass_props(row);
    }
}

/// The fixed point of exclusive-group pruning keeps the row well formed
/// and only removes candidates.
pub proof fn lemma_fix_excl_props(row: Seq<Cell>)
    requires
        row_wf(row),
    ensures
        row_wf(fix_excl(row)),
        forall|k: int| 0 <= k < 9 ==> (#[trigger] fix_excl(row)[k]).mask() & !row[k].mask() == 0,
        forall|k: int| 0 <= k < 9 && (#[trigger] fix_excl(row)[k]).mask() == row[k].mask()
            ==> fix_excl(row)[k] == row[k],
        masks_total(fix_excl(row)) <= masks_total(row),
        excls_pass(fix_excl(row)) == fix_excl(row),
    decreases masks_total(row),
{
    lemma_excls_pass_props(row);
    lemma_excls_upto_props(row, row, 9);
    let r2 = excls_pass(row);
    if r2 == row {
    } else {
        lemma_fix_excl_props(r2);
        let r3 = fix_excl(r2);
        assert forall|k: int| 0 <= k < 9 implies
            (#[trigger] r3[k]).mask() & !row[k].mask() == 0
            && (r3[k].mask() == row[k].mask() ==> r3[k] == row[k]) by {
            lemma_submask_trans(r3[k].mask(), r2[k].mask(), row[k].mask());
            if r3[k].mask() == row[k].mask() {
                lemma_submask_le(r3[k].mask(), r2[k].mask());
                lemma_submask_le(r2[k].mask(), row[k].mask());
                assert(r2[k].mask() == row[k].mask());
            }
        }
    }
}

/// The `i`-th digit or position bit.
pub fn bit_for(i: usize) -> (r: u16)
    requires
        i < 9,
    ensures
        r == bit_of(i as int),
{
    if i == 0 { 1 } else if i == 1 { 2 } else if i == 2 { 4 } else if i == 3 { 8 }
    else if i == 4 { 16 } else if i == 5 { 32 } else if i == 6 { 64 }
    else if i == 7 { 128 } else { 256 }
}

/// Counts the digit bits set in a mask.
fn popcount9(m: u16) -> (r: u16)
    ensures
        r as int == popcnt9(m),
{
    proof {
        assert((m & 1) <= 1 && ((m >> 1u16) & 1) <= 1 && ((m >> 2u16) & 1) <= 1
            && ((m >> 3u16) & 1) <= 1 && ((m >> 4u16) & 1) <= 1 && ((m >> 5u16) & 1) <= 1
            && ((m >> 6u16) & 1) <= 1 && ((m >> 7u16) & 1) <= 1 && ((m >> 8u16) & 1) <= 1)
            by (bit_vector);
    }
    (m & 1) + ((m >> 1u16) & 1) + ((m >> 2u16) & 1) + ((m >> 3u16) & 1) + ((m >> 4u16) & 1)
        + ((m >> 5u16) & 1) + ((m >> 6u16) & 1) + ((m >> 7u16) & 1) + ((m >> 8u16) & 1)
}

impl crate::grid::Grid {
    /// Prunes a row according to its fixed digits: a digit already fixed
    /// somewhere in the line cannot recur, so it is removed from every open
    /// cell.  Returns whether anything changed, and the pruned row, or
    /// `None` when a cell lost its last candidate.
    pub fn prune_cells_by_fixed(row: &Vec<Cell>) -> (r: (bool, Option<Vec<Cell>>))
        requires
            row_wf(row@),
        ensures
            r.1 is None <==> prune_fixed_row(row@) is None,
            r.1 matches Some(out) ==> {
                &&& Some(out@) == prune_fixed_row(row@)
                &&& row_wf(out@)
                &&& (r.0 <==> out@ != row@)
            },
    {
        let mut u: u16 = 0;
        let mut i: usize = 0;
        while i < 9
            invariant
                row_wf(row@),
                i <= 9,
                u == fixed_union_upto(row@, i as int),
            decreases 9 - i,
        {
            match row[i] {
                Cell::Fixed(d) => { u = u | d; },
                Cell::Possible(_) => {
                    assert(u | 0u16 == u) by (bit_vector);
                },
            }
            i += 1;
        }
        let ghost uu = fixed_union(row@);
        let mut out: Vec<Cell> = Vec::new();
        let mut changed = false;
        let mut j: usize = 0;
        while j < 9
            invariant
                row_wf(row@),
                j <= 9,
                u == uu,
                uu == fixed_union(row@),
                out@.len() == j,
                forall|k: int| 0 <= k < j ==> (#[trigger] out@[k]) == prune_fixed_cell(row@[k], uu),
                forall|k: int| 0 <= k < j ==>
                    !((#[trigger] row@[k]) is Possible && row@[k].mask() & !uu == 0),
                changed <==> exists|k: int| 0 <= k < j && (#[trigger] out@[k]) != row@[k],
            decreases 9 - j,
        {
            let ghost out0 = out@;
            let ghost ch0 = changed;
            match row[j] {
                Cell::Fixed(d) => {
                    out.push(Cell::Fixed(d));
                    proof {
                        assert(forall|k: int| 0 <= k < j ==> (#[trigger] out@[k]) == out0[k]);
                        assert(out@[j as int] == row@[j as int]);
                        if changed {
                            let k = choose|k: int| 0 <= k < j && (#[trigger] out0[k]) != row@[k];
                            assert(out@[k] != row@[k]);
                        }
                    }
                },
                Cell::Possible(m) => {
                    let m2 = m & !u;
                    if m2 == 0 {
                        return (changed, None);
                    }
                    if m2 != m {
                        changed = true;
                    }
                    proof {
                        lemma_single_bit(m2);
                        lemma_and_mask(m, !u);
                    }
                    if (m2 & (m2 - 1)) == 0 {
                        out.push(Cell::Fixed(m2));
                    } else {
                        out.push(Cell::Possible(m2));
                    }
                    proof {
                        assert(forall|k: int| 0 <= k < j ==> (#[trigger] out@[k]) == out0[k]);
                        assert(out@[j as int] == prune_fixed_cell(row@[j as int], uu));
                        if m2 == m {
                            assert(out@[j as int] == row@[j as int]);
                        } else {
                            assert(out@[j as int].mask() == m2 && row@[j as int].mask() == m);
                            assert(out@[j as int] != row@[j as int]);
                        }
                        if changed {
                            if ch0 {
                                let k = choose|k: int| 0 <= k < j && (#[trigger] out0[k]) != row@[k];
                                assert(out@[k] != row@[k]);
                            }
                        }
                    }
                },
            }
            j += 1;
        }
        proof {
            match prune_fixed_row(row@) {
                None => { assert(false); },
                Some(r2) => {
                    assert(out@ =~= r2);
                },
            }
            lemma_prune_fixed_row_props(row@);
            if changed {
                let k = choose|k: int| 0 <= k < 9 && (#[trigger] out@[k]) != row@[k];
                assert(out@ != row@);
            } else {
                assert(out@ =~= row@);
            }
        }
        (changed, Some(out))
    }

    /// Prunes a row according to its exclusive groups.  This operation
    /// cannot kill a cell, so it returns the pruned row and whether or not
    /// the row changed.
    pub fn prune_cells_by_exclusives(row: &Vec<Cell>) -> (r: (bool, Vec<Cell>))
        requires
            row_wf(row@),
        ensures
            r.1@ == excls_pass(row@),
            row_wf(r.1@),
            r.0 <==> r.1@ != row@,
    {
        let excl = Self::exclusive_possibilities(row);
        let mut cur: Vec<Cell> = Vec::new();
        let mut t: usize = 0;
        while t < 9
            invariant
                row_wf(row@),
                t <= 9,
                cur@.len() == t,
                forall|k: int| 0 <= k < t ==> (#[trigger] cur@[k]) == row@[k],
            decreases 9 - t,
        {
            cur.push(row[t]);
            t += 1;
        }
        proof {
            assert(cur@ =~= row@);
            assert forall|k: int| 0 <= k < 9 implies
                (#[trigger] cur@[k]).mask() & !row@[k].mask() == 0 by {
                lemma_self_submask(row@[k].mask());
            }
        }
        let mut changed = false;
        let mut gi: usize = 0;
        while gi < 9
            invariant
                row_wf(row@),
                row_wf(cur@),
                gi <= 9,
                excl@.len() == 9,
                forall|i: int| 0 <= i < 9 ==> excl@[i] == excl_at(row@, i),
                cur@ == apply_excls_upto(row@, row@, gi as int),
                forall|k: int| 0 <= k < 9 ==> (#[trigger] cur@[k]).mask() & !row@[k].mask() == 0,
                !changed ==> cur@ == row@,
                changed ==> exists|k: int| 0 <= k < 9
                    && (#[trigger] cur@[k]).mask() < row@[k].mask(),
            decreases 9 - gi,
        {
            let e = excl[gi];
            let ghost cur0 = cur@;
            let mut k: usize = 0;
            while k < 9
                invariant
                    row_wf(row@),
                    k <= 9,
                    gi < 9,
                    cur@.len() == 9,
                    cur0.len() == 9,
                    row_wf(cur0),
                    forall|t2: int| 0 <= t2 < 9 ==> (#[trigger] cur0[t2]).mask() & !row@[t2].mask() == 0,
                    forall|t2: int| k <= t2 < 9 ==> (#[trigger] cur@[t2]) == cur0[t2],
                    forall|t2: int| 0 <= t2 < k ==> (#[trigger] cur@[t2]) == apply_excl_cell(cur0[t2], e)
                        && cur@[t2].wf()
                        && cur@[t2].mask() & !row@[t2].mask() == 0,
                    !changed ==> (cur@ == cur0 && cur0 == row@),
                    changed ==> exists|t2: int| 0 <= t2 < 9
                        && (#[trigger] cur@[t2]).mask() < row@[t2].mask(),
                decreases 9 - k,
            {
                let c = cur[k];
                let ghost chpre = changed;
                let ghost curpre = cur@;
                match c {
                    Cell::Possible(m) => {
                        let me = m & e;
                        if me != 0 && me != m {
                            proof {
                                lemma_single_bit(me);
                                lemma_and_mask(m, e);
                            }
                            if (me & (me - 1)) == 0 {
                                cur[k] = Cell::Fixed(me);
                            } else {
                                cur[k] = Cell::Possible(me);
                            }
                            changed = true;
                            proof {
                                lemma_submask_trans(me, m, row@[k as int].mask());
                                lemma_submask_le(me, m);
                                lemma_submask_le(m, row@[k as int].mask());
                                assert(cur@[k as int].mask() == me < row@[k as int].mask());
                                assert(cur@[k as int] == apply_excl_cell(cur0[k as int], e));
                            }
                        } else {
                            proof {
                                assert(cur@[k as int] == apply_excl_cell(cur0[k as int], e));
                            }
                        }
                    },
                    Cell::Fixed(_) => {
                        proof {
                            assert(cur@[k as int] == apply_excl_cell(cur0[k as int], e));
                        }
                    },
                }
                proof {
                    if changed && chpre {
                        let w = choose|t2: int| 0 <= t2 < 9
                            && (#[trigger] curpre[t2]).mask() < row@[t2].mask();
                        if w == k as int {
                            if cur@[w] != curpre[w] {
                                assert(cur@[w].mask() < row@[w].mask());
                            }
                        }
                        assert(exists|t2: int| 0 <= t2 < 9
                            && (#[trigger] cur@[t2]).mask() < row@[t2].mask());
                    }
                }
                k += 1;
            }
            proof {
                assert(cur@ =~= apply_excl(cur0, e));
                assert(cur@ == apply_excls_upto(row@, row@, gi as int + 1));
                lemma_excls_upto_props(row@, row@, gi as int + 1);
            }
            gi += 1;
        }
        proof {
            if changed {
                let w = choose|k2: int| 0 <= k2 < 9
                    && (#[trigger] cur@[k2]).mask() < row@[k2].mask();
                assert(cur@[w] != row@[w]);
                assert(cur@ != row@);
            }
        }
        (changed, cur)
    }
}

} // verus!
