use vstd::prelude::*;
use crate::cell::{Cell, one_bit};
use crate::rows::{row_wf, bit_of, popcnt9, has_cand, dpos_upto, dpos, dgroup_upto, dgroup,
    excl_at, first_of_group, fixed_union, prune_fixed_row, prune_fixed_cell,
    norm_cell, apply_excl, apply_excls_upto, excls_pass, fix_fixed, fix_excl, masks_total,
    lemma_dpos_bound, lemma_or_facts, lemma_excls_upto_props, lemma_excls_pass_props,
    lemma_prune_fixed_row_props, lemma_fix_fixed_props};
use crate::solve::{lemma_onebit_facts, lemma_union_member, filled_spec, dup_row, invalid_spec};
use crate::grid::{grid_wf, transpose_spec, blocks_spec, tmap, bmap, lemma_transforms_preserve_wf,
    lemma_transpose_involution, lemma_blocks_involution};
use crate::engine::{row_of, pruned_row, prune_grid_spec, cycle, propagate, refines,
    lemma_prune_rows_props, lemma_prune_grid_props, lemma_cycle_props, lemma_propagate_props};
use crate::laws::lemma_nine_cover;

verus! {

// ---------------------------------------------------------------------------
// A solution's row, and more bit-mask facts
// ---------------------------------------------------------------------------

/// One row of a complete solution: nine fixed, well-formed, pairwise
/// distinct digits.
pub open spec fn sol_row(tr: Seq<Cell>) -> bool {
    &&& tr.len() == 9
    &&& forall|k: int| 0 <= k < 9 ==> (#[trigger] tr[k]) is Fixed && tr[k].wf()
    &&& forall|k1: int, k2: int| 0 <= k1 < k2 < 9
        ==> (#[trigger] tr[k1]).mask() != (#[trigger] tr[k2]).mask()
}

/// `tr` keeps only candidates that `row` allows, cell by cell.
pub open spec fn row_refines(tr: Seq<Cell>, row: Seq<Cell>) -> bool {
    forall|k: int| 0 <= k < 9 ==> (#[trigger] tr[k]).mask() & !row[k].mask() == 0
}

/// Combining submask facts.
proof fn lemma_sub_facts(x: u16, y: u16, z: u16)
    by (bit_vector)
    ensures
        (x & !y == 0 && x & z == 0) ==> x & !(y & !z) == 0,
        (x & !y == 0 && x & !z == 0) ==> x & !(y & z) == 0,
        (x & !y == 0 && x != 0) ==> y & x != 0,
        (x & !y == 0 && one_bit(y) && !one_bit(x)) ==> x == 0,
        (x & y == 0 && z & !y == 0) ==> x & z == 0,
        (x & !y == 0) ==> (x & z == 0 || y & z != 0),
        (x & !y == 0 && y & z == 0) ==> x & z == 0,
        (x & y != 0) ==> y & x != 0,
        (x & y == 0) ==> y & x == 0,
        x != 0 ==> x & x != 0,
        (x & !y == 0 && x != 0) ==> y != 0,
        (x & y == 0) ==> x & !y == x,
        (x & !y == x) ==> x & y == 0,
        (x & !y == 0) ==> y & x == x,
        (y & x == x) ==> x & !y == 0,
        (x & !y == 0 && x & z != 0) ==> y & z != 0,
{
}

/// Or-ing masks splits bit tests, and zero masks vanish.
proof fn lemma_orsplit(a: u16, b: u16, c: u16)
    by (bit_vector)
    ensures
        ((a | b) & c != 0) <==> (a & c != 0 || b & c != 0),
        a & 0u16 == 0,
        0u16 & a == 0,
        a | 0u16 == a,
{
}

/// Adding one fresh digit bit raises the bit count by one.
proof fn lemma_popcnt_add(x: u16, b: u16)
    by (bit_vector)
    ensures
        (x < 512 && b < 512 && one_bit(b) && x & b == 0) ==> popcnt9(x | b) == popcnt9(x) + 1,
        popcnt9(0u16) == 0,
        one_bit(x) ==> popcnt9(x) == 1,
        (x < 512 && popcnt9(x) == 1) ==> one_bit(x),
{
}

/// Splitting the lowest set bit off a nine-bit mask.
proof fn lemma_low_split(e: u16)
    by (bit_vector)
    ensures
        (e != 0 && e < 512) ==> {
            &&& one_bit(e ^ (e & ((e - 1) as u16)))
            &&& ((e & ((e - 1) as u16)) | (e ^ (e & ((e - 1) as u16)))) == e
            &&& ((e & ((e - 1) as u16)) & (e ^ (e & ((e - 1) as u16)))) == 0
            &&& (e & ((e - 1) as u16)) < e
            &&& (e & ((e - 1) as u16)) < 512
        },
{
}

/// Two nine-bit masks of equal count, one below the other, are equal.
proof fn lemma_eq_popcnt(p: u16, s: u16)
    by (bit_vector)
    ensures
        (p & !s == 0 && p < 512 && s < 512 && popcnt9(p) == popcnt9(s)) ==> p == s,
{
}

/// A mask contained in another, bit by bit, is its submask.
proof fn lemma_bits_sub(p: u16, s: u16)
    by (bit_vector)
    ensures
        (p < 512
            && (p & 1 != 0 ==> s & 1 != 0)
            && (p & 2 != 0 ==> s & 2 != 0)
            && (p & 4 != 0 ==> s & 4 != 0)
            && (p & 8 != 0 ==> s & 8 != 0)
            && (p & 16 != 0 ==> s & 16 != 0)
            && (p & 32 != 0 ==> s & 32 != 0)
            && (p & 64 != 0 ==> s & 64 != 0)
            && (p & 128 != 0 ==> s & 128 != 0)
            && (p & 256 != 0 ==> s & 256 != 0))
            ==> p & !s == 0,
{
}

/// A nine-bit mask with no digit bit set is empty.
proof fn lemma_bits_zero(p: u16)
    by (bit_vector)
    ensures
        (p < 512
            && p & 1 == 0 && p & 2 == 0 && p & 4 == 0 && p & 8 == 0 && p & 16 == 0
            && p & 32 == 0 && p & 64 == 0 && p & 128 == 0 && p & 256 == 0)
            ==> p == 0,
{
}

/// The digit index of a single-digit mask.
proof fn idx_of(d: u16) -> (j: int)
    requires
        one_bit(d),
    ensures
        0 <= j < 9,
        bit_of(j) == d,
{
    if d == 1 { 0 } else if d == 2 { 1 } else if d == 4 { 2 } else if d == 8 { 3 }
    else if d == 16 { 4 } else if d == 32 { 5 } else if d == 64 { 6 } else if d == 128 { 7 }
    else { 8 }
}

// ---------------------------------------------------------------------------
// Bit characterizations of the group machinery
// ---------------------------------------------------------------------------

/// Which cell bits a position set holds.
proof fn lemma_dpos_bit(row: Seq<Cell>, b: u16, n: int, k: int)
    requires
        0 <= k < 9,
        0 <= n <= 9,
    ensures
        (dpos_upto(row, b, n) & bit_of(k) != 0) <==> (k < n && has_cand(row[k], b)),
    decreases n,
{
    let bk = bit_of(k);
    lemma_onebit_facts(bk, bk);
    if n > 0 {
        lemma_dpos_bit(row, b, n - 1, k);
        let prev = dpos_upto(row, b, n - 1);
        let step = if has_cand(row[n - 1], b) { bit_of(n - 1) } else { 0u16 };
        lemma_orsplit(prev, step, bk);
        lemma_onebit_facts(bit_of(n - 1), bk);
    }
}

/// Which digit bits a digit group holds.
proof fn lemma_dgroup_bit(row: Seq<Cell>, i: int, n: int, j: int)
    requires
        0 <= j < 9,
        0 <= n <= 9,
    ensures
        (dgroup_upto(row, i, n) & bit_of(j) != 0) <==> (j < n && dpos(row, j) == dpos(row, i)),
    decreases n,
{
    let bj = bit_of(j);
    lemma_onebit_facts(bj, bj);
    if n > 0 {
        lemma_dgroup_bit(row, i, n - 1, j);
        let prev = dgroup_upto(row, i, n - 1);
        let step = if dpos(row, n - 1) == dpos(row, i) { bit_of(n - 1) } else { 0u16 };
        lemma_orsplit(prev, step, bj);
        lemma_onebit_facts(bit_of(n - 1), bj);
    }
}

/// Digit groups are masks of the nine digit bits.
proof fn lemma_dgroup_bound(row: Seq<Cell>, i: int, n: int)
    requires
        0 <= n <= 9,
    ensures
        dgroup_upto(row, i, n) < 512,
    decreases n,
{
    if n > 0 {
        lemma_dgroup_bound(row, i, n - 1);
        lemma_or_facts(dgroup_upto(row, i, n - 1),
            if dpos(row, n - 1) == dpos(row, i) { bit_of(n - 1) } else { 0u16 }, 0);
    }
}

// ---------------------------------------------------------------------------
// Where a solution row hosts the digits of a mask
// ---------------------------------------------------------------------------

/// Positions of the first `n` cells of a solution row whose digit belongs
/// to the mask `e`.
spec fn epos_upto(tr: Seq<Cell>, e: u16, n: int) -> u16
    decreases n,
{
    if n <= 0 {
        0u16
    } else {
        epos_upto(tr, e, n - 1) | (if tr[n - 1].mask() & e != 0 { bit_of(n - 1) } else { 0u16 })
    }
}

/// Positions of a solution row whose digit belongs to the mask `e`.
spec fn epos(tr: Seq<Cell>, e: u16) -> u16 {
    epos_upto(tr, e, 9)
}

proof fn lemma_epos_bound(tr: Seq<Cell>, e: u16, n: int)
    requires
        0 <= n <= 9,
    ensures
        epos_upto(tr, e, n) < 512,
    decreases n,
{
    if n > 0 {
        lemma_epos_bound(tr, e, n - 1);
        lemma_or_facts(epos_upto(tr, e, n - 1),
            if tr[n - 1].mask() & e != 0 { bit_of(n - 1) } else { 0u16 }, 0);
    }
}

proof fn lemma_epos_bit(tr: Seq<Cell>, e: u16, n: int, k: int)
    requires
        0 <= k < 9,
        0 <= n <= 9,
    ensures
        (epos_upto(tr, e, n) & bit_of(k) != 0) <==> (k < n && tr[k].mask() & e != 0),
    decreases n,
{
    let bk = bit_of(k);
    lemma_onebit_facts(bk, bk);
    if n > 0 {
        lemma_epos_bit(tr, e, n - 1, k);
        let prev = epos_upto(tr, e, n - 1);
        let step = if tr[n - 1].mask() & e != 0 { bit_of(n - 1) } else { 0u16 };
        lemma_orsplit(prev, step, bk);
        lemma_onebit_facts(bit_of(n - 1), bk);
    }
}

/// A solution row hosts every digit somewhere.
proof fn lemma_row_cover(tr: Seq<Cell>, d: u16)
    requires
        sol_row(tr),
        one_bit(d),
    ensures
        exists|k: int| 0 <= k < 9 && (#[trigger] tr[k]).mask() == d,
{
    lemma_nine_cover(tr[0].mask(), tr[1].mask(), tr[2].mask(), tr[3].mask(), tr[4].mask(),
        tr[5].mask(), tr[6].mask(), tr[7].mask(), tr[8].mask(), d);
    if d == tr[0].mask() { assert(tr[0].mask() == d); }
    else if d == tr[1].mask() { assert(tr[1].mask() == d); }
    else if d == tr[2].mask() { assert(tr[2].mask() == d); }
    else if d == tr[3].mask() { assert(tr[3].mask() == d); }
    else if d == tr[4].mask() { assert(tr[4].mask() == d); }
    else if d == tr[5].mask() { assert(tr[5].mask() == d); }
    else if d == tr[6].mask() { assert(tr[6].mask() == d); }
    else if d == tr[7].mask() { assert(tr[7].mask() == d); }
    else { assert(tr[8].mask() == d); }
}

/// Stepping the host positions by one digit of the mask.
proof fn lemma_epos_step(tr: Seq<Cell>, e2: u16, low: u16, kd: int, n: int)
    requires
        sol_row(tr),
        one_bit(low),
        e2 & low == 0,
        0 <= kd < 9,
        tr[kd].mask() == low,
        0 <= n <= 9,
    ensures
        epos_upto(tr, (e2 | low), n) == epos_upto(tr, e2, n)
            | (if kd < n { bit_of(kd) } else { 0u16 }),
    decreases n,
{
    let bkd = bit_of(kd);
    let e = e2 | low;
    if n > 0 {
        lemma_epos_step(tr, e2, low, kd, n - 1);
        let x = tr[n - 1].mask();
        let bn = bit_of(n - 1);
        let p2 = epos_upto(tr, e2, n - 1);
        let lhs_prev = epos_upto(tr, e, n - 1);
        let bk_prev: u16 = if kd < n - 1 { bkd } else { 0u16 };
        lemma_orsplit(e2, low, x);
        lemma_sub_facts(x, e2 | low, 0);
        assert((x & (e2 | low) != 0) <==> ((e2 | low) & x != 0));
        assert((x & e2 != 0) <==> (e2 & x != 0)) by { lemma_sub_facts(e2, x, 0); lemma_sub_facts(x, e2, 0); }
        assert((x & low != 0) <==> (low & x != 0)) by { lemma_sub_facts(low, x, 0); lemma_sub_facts(x, low, 0); }
        if n - 1 == kd {
            assert(x == low);
            lemma_onebit_facts(low, low);
            lemma_sub_facts(low, e2, 0);
            assert(x & low != 0) by { lemma_sub_facts(low, 0, 0); }
            assert(x & e2 == 0) by { lemma_sub_facts(e2, low, 0); }
            assert(epos_upto(tr, e, n) == lhs_prev | bn);
            assert(epos_upto(tr, e2, n) == p2 | 0u16);
            assert(lhs_prev == p2 | 0u16);
        } else {
            lemma_onebit_facts(x, low);
            if x & low != 0 {
                assert(x == low);
                assert(tr[kd].mask() == tr[n - 1].mask());
                if kd < n - 1 {
                    assert(tr[kd].mask() != tr[n - 1].mask());
                } else {
                    assert(tr[n - 1].mask() != tr[kd].mask());
                }
                assert(false);
            }
            let s: u16 = if x & e2 != 0 { bn } else { 0u16 };
            assert(epos_upto(tr, e, n) == lhs_prev | s);
            assert(epos_upto(tr, e2, n) == p2 | s);
            assert(((p2 | bk_prev) | s) == ((p2 | s) | bk_prev)) by (bit_vector);
        }
    } else {
        lemma_orsplit(0, 0, 0);
    }
}

/// A solution row hosts the digits of a mask at exactly as many positions
/// as the mask has digits.
proof fn lemma_epos_count(tr: Seq<Cell>, e: u16)
    requires
        sol_row(tr),
        e < 512,
    ensures
        popcnt9(epos(tr, e)) == popcnt9(e),
    decreases e,
{
    if e == 0 {
        assert forall|n: int| 0 <= n <= 9 implies epos_upto(tr, 0u16, n) == 0 by {
            lemma_epos_zero(tr, n);
        }
        lemma_popcnt_add(0, 0);
    } else {
        lemma_low_split(e);
        let e2 = e & ((e - 1) as u16);
        let low = e ^ e2;
        lemma_epos_count(tr, e2);
        lemma_row_cover(tr, low);
        let kd = choose|k: int| 0 <= k < 9 && (#[trigger] tr[k]).mask() == low;
        assert(e2 & low == 0);
        lemma_epos_step(tr, e2, low, kd, 9);
        assert(e2 | low == e);
        let p2 = epos(tr, e2);
        lemma_epos_bit(tr, e2, 9, kd);
        let x = tr[kd].mask();
        assert(x & e2 == 0) by { lemma_sub_facts(e2, low, 0); }
        assert(p2 & bit_of(kd) == 0);
        lemma_epos_bound(tr, e2, 9);
        lemma_popcnt_add(p2, bit_of(kd));
        lemma_popcnt_add(e2, low);
        assert(one_bit(bit_of(kd)));
    }
}

proof fn lemma_epos_zero(tr: Seq<Cell>, n: int)
    requires
        0 <= n <= 9,
    ensures
        epos_upto(tr, 0u16, n) == 0,
    decreases n,
{
    if n > 0 {
        lemma_epos_zero(tr, n - 1);
        let x = tr[n - 1].mask();
        lemma_orsplit(x, 0, 0);
        lemma_orsplit(0, 0, 0);
    }
}


// ---------------------------------------------------------------------------
// Cleanliness: no fixed digit stays a candidate
// ---------------------------------------------------------------------------

/// No digit fixed somewhere in the row is still a candidate anywhere.
spec fn row_clean(row: Seq<Cell>) -> bool {
    forall|k: int, j: int| 0 <= k < 9 && 0 <= j < 9
        && (#[trigger] row[k]) == Cell::Fixed(#[trigger] bit_of(j))
        ==> dpos(row, j) == 0
}

/// Assembling a submask relation from the nine digit bits.
proof fn lemma_bits_sub_via(p: u16, s: u16)
    requires
        p < 512,
        forall|j: int| 0 <= j < 9 && p & #[trigger] bit_of(j) != 0 ==> s & bit_of(j) != 0,
    ensures
        p & !s == 0,
{
    assert(bit_of(0) == 1 && bit_of(1) == 2 && bit_of(2) == 4 && bit_of(3) == 8
        && bit_of(4) == 16 && bit_of(5) == 32 && bit_of(6) == 64 && bit_of(7) == 128
        && bit_of(8) == 256);
    lemma_bits_sub(p, s);
}

/// A nine-bit mask without any digit bit is empty.
proof fn lemma_bits_zero_via(p: u16)
    requires
        p < 512,
        forall|j: int| 0 <= j < 9 ==> p & #[trigger] bit_of(j) == 0,
    ensures
        p == 0,
{
    assert(bit_of(0) == 1 && bit_of(1) == 2 && bit_of(2) == 4 && bit_of(3) == 8
        && bit_of(4) == 16 && bit_of(5) == 32 && bit_of(6) == 64 && bit_of(7) == 128
        && bit_of(8) == 256);
    lemma_bits_zero(p);
}

/// No cell of the row still allows the digit bit `b`: its position set is
/// empty.
proof fn lemma_dpos_empty(row: Seq<Cell>, b: u16)
    requires
        forall|k: int| 0 <= k < 9 ==> !has_cand(#[trigger] row[k], b),
    ensures
        dpos_upto(row, b, 9) == 0,
{
    lemma_dpos_bound(row, b, 9);
    assert forall|j: int| 0 <= j < 9 implies dpos_upto(row, b, 9) & #[trigger] bit_of(j) == 0 by {
        lemma_dpos_bit(row, b, 9, j);
    }
    lemma_bits_zero_via(dpos_upto(row, b, 9));
}

/// A row at the fixed-digit fixed point is clean.
proof fn lemma_fixpoint_clean(row: Seq<Cell>)
    requires
        row_wf(row),
        prune_fixed_row(row) == Some(row),
    ensures
        row_clean(row),
{
    let u = fixed_union(row);
    assert forall|k: int, j: int| 0 <= k < 9 && 0 <= j < 9
        && (#[trigger] row[k]) == Cell::Fixed(#[trigger] bit_of(j))
        implies dpos(row, j) == 0 by {
        let b = bit_of(j);
        lemma_onebit_facts(b, b);
        lemma_union_member(row, 9, b);
        assert(u & b != 0);
        lemma_onebit_facts(u, b);
        assert(u & b == b);
        assert forall|k2: int| 0 <= k2 < 9 implies !has_cand(#[trigger] row[k2], b) by {
            match row[k2] {
                Cell::Fixed(_) => {},
                Cell::Possible(m) => {
                    assert(row[k2] == prune_fixed_cell(row[k2], u));
                    assert(norm_cell(m & !u).mask() == m & !u);
                    assert(m & !u == m);
                    assert(m & u == 0) by { lemma_sub_facts(m, u, 0); }
                    assert(b & !u == 0) by { lemma_sub_facts(b, u, 0); }
                    assert(m & b == 0) by { lemma_sub_facts(m, u, b); }
                },
            }
        }
        lemma_dpos_empty(row, b);
    }
}

/// A clean well-formed row is already at the fixed-digit fixed point.
proof fn lemma_clean_fixpoint(row: Seq<Cell>)
    requires
        row_wf(row),
        row_clean(row),
    ensures
        prune_fixed_row(row) == Some(row),
{
    let u = fixed_union(row);
    assert forall|k: int| 0 <= k < 9 && (#[trigger] row[k]) is Possible implies
        row[k].mask() & u == 0 by {
        let m = row[k].mask();
        if m & u != 0 {
            let low = (m & u) ^ ((m & u) & (((m & u) - 1) as u16));
            assert(one_bit(low) && low & !u == 0 && m & low != 0 && u & low != 0)
                by (bit_vector)
                requires
                    low == ((m & u) ^ ((m & u) & (((m & u) - 1) as u16))),
                    m & u != 0,
                    m < 512,
            ;
            let j2 = idx_of(low);
            lemma_union_member(row, 9, low);
            let k1 = choose|k1: int| 0 <= k1 < 9 && (#[trigger] row[k1]) is Fixed
                && row[k1].mask() == low;
            assert(row[k1] == Cell::Fixed(bit_of(j2)));
            assert(dpos(row, j2) == 0);
            lemma_dpos_bit(row, bit_of(j2), 9, k);
            assert(has_cand(row[k], bit_of(j2)));
            let bk = bit_of(k);
            lemma_orsplit(bk, 0, 0);
            assert(false);
        }
    }
    assert forall|k: int| 0 <= k < 9 && (#[trigger] row[k]) is Possible implies
        row[k].mask() & !u != 0 by {
        let m = row[k].mask();
        assert(m & !u == m) by { lemma_sub_facts(m, u, 0); }
    }
    assert(prune_fixed_row(row) is Some);
    match prune_fixed_row(row) {
        None => {},
        Some(r2) => {
            assert forall|k: int| 0 <= k < 9 implies r2[k] == row[k] by {
                match row[k] {
                    Cell::Fixed(_) => {},
                    Cell::Possible(m) => {
                        assert(m & !u == m) by { lemma_sub_facts(m, u, 0); }
                    },
                }
            }
            assert(r2 =~= row);
        },
    }
}


// ---------------------------------------------------------------------------
// Exclusive groups never exclude a solution
// ---------------------------------------------------------------------------


/// In a clean row refined by a solution, the cells of an exclusive group's
/// position set host exactly the group's digits.
proof fn lemma_group_hosts(orig: Seq<Cell>, tr: Seq<Cell>, i: int)
    requires
        row_wf(orig),
        sol_row(tr),
        row_refines(tr, orig),
        row_clean(orig),
        0 <= i < 9,
        excl_at(orig, i) != 0,
    ensures
        forall|k: int| 0 <= k < 9 ==>
            ((#[trigger] tr[k]).mask() & excl_at(orig, i) != 0
                <==> dpos(orig, i) & bit_of(k) != 0),
{
    let e = excl_at(orig, i);
    let s = dpos(orig, i);
    assert(e == dgroup(orig, i) && s != 0 && popcnt9(dgroup(orig, i)) == popcnt9(s));
    lemma_dgroup_bound(orig, i, 9);
    lemma_dpos_bound(orig, bit_of(i), 9);
    // every host of a group digit stands in the position set
    assert forall|k: int| 0 <= k < 9 && (#[trigger] tr[k]).mask() & e != 0 implies
        s & bit_of(k) != 0 by {
        let d = tr[k].mask();
        lemma_onebit_facts(d, d);
        lemma_onebit_facts(d, e);
        assert(e & d != 0) by { lemma_sub_facts(d, e, 0); }
        lemma_onebit_facts(e, d);
        assert(e & d == d);
        let j = idx_of(d);
        let bj = bit_of(j);
        lemma_dgroup_bit(orig, i, 9, j);
        assert(e & bj != 0);
        assert(dpos(orig, j) == s);
        match orig[k] {
            Cell::Fixed(x) => {
                assert(d & !x == 0);
                lemma_onebit_facts(d, x);
                assert(orig[k] == Cell::Fixed(bit_of(j)));
                assert(dpos(orig, j) == 0);
                assert(false);
            },
            Cell::Possible(x) => {
                assert(d & !x == 0);
                assert(x & d != 0) by { lemma_sub_facts(d, x, 0); }
                assert(x & bj != 0);
                lemma_dpos_bit(orig, bit_of(j), 9, k);
            },
        }
    }
    // as many hosts as digits, so the position set holds nothing else
    let p = epos(tr, e);
    lemma_epos_bound(tr, e, 9);
    assert forall|j: int| 0 <= j < 9 && p & #[trigger] bit_of(j) != 0 implies
        s & bit_of(j) != 0 by {
        lemma_epos_bit(tr, e, 9, j);
    }
    lemma_bits_sub_via(p, s);
    lemma_epos_count(tr, e);
    lemma_eq_popcnt(p, s);
    assert(p == s);
    assert forall|k: int| 0 <= k < 9 && dpos(orig, i) & bit_of(k) != 0 implies
        (#[trigger] tr[k]).mask() & e != 0 by {
        lemma_epos_bit(tr, e, 9, k);
    }
}


/// Two distinct exclusive groups of one clean row, with a solution, never
/// share a cell.
proof fn lemma_groups_disjoint(orig: Seq<Cell>, tr: Seq<Cell>, i0: int, i1: int, k: int)
    requires
        row_wf(orig),
        sol_row(tr),
        row_refines(tr, orig),
        row_clean(orig),
        0 <= i0 < 9,
        0 <= i1 < 9,
        i0 != i1,
        excl_at(orig, i0) != 0,
        excl_at(orig, i1) != 0,
        0 <= k < 9,
    ensures
        !(dpos(orig, i0) & bit_of(k) != 0 && dpos(orig, i1) & bit_of(k) != 0),
{
    if dpos(orig, i0) & bit_of(k) != 0 && dpos(orig, i1) & bit_of(k) != 0 {
        lemma_group_hosts(orig, tr, i0);
        lemma_group_hosts(orig, tr, i1);
        let d = tr[k].mask();
        lemma_onebit_facts(d, d);
        let j = idx_of(d);
        let bj = bit_of(j);
        let e0 = excl_at(orig, i0);
        let e1 = excl_at(orig, i1);
        assert(d & e0 != 0 && d & e1 != 0);
        assert(e0 & bj != 0) by { lemma_sub_facts(d, e0, 0); }
        assert(e1 & bj != 0) by { lemma_sub_facts(d, e1, 0); }
        lemma_dgroup_bit(orig, i0, 9, j);
        lemma_dgroup_bit(orig, i1, 9, j);
        assert(dpos(orig, i0) == dpos(orig, i1));
        assert(first_of_group(orig, i0) && first_of_group(orig, i1));
        if i0 < i1 {
            assert(dpos(orig, i0) != dpos(orig, i1));
        } else {
            assert(dpos(orig, i1) != dpos(orig, i0));
        }
        assert(false);
    }
}

/// A partial exclusive pass keeps the solution, leaves the cells of the
/// groups still to come untouched, and fixes a digit only where that digit
/// had a single possible cell.
proof fn lemma_excls_upto_sound(orig: Seq<Cell>, tr: Seq<Cell>, n: int)
    requires
        row_wf(orig),
        sol_row(tr),
        row_refines(tr, orig),
        row_clean(orig),
        0 <= n <= 9,
    ensures
        row_refines(tr, apply_excls_upto(orig, orig, n)),
        forall|i2: int, k: int| n <= i2 < 9 && 0 <= k < 9 && excl_at(orig, i2) != 0
            && (#[trigger] dpos(orig, i2)) & bit_of(k) != 0
            ==> #[trigger] apply_excls_upto(orig, orig, n)[k] == orig[k],
        forall|k: int, j: int| 0 <= k < 9 && 0 <= j < 9
            && #[trigger] apply_excls_upto(orig, orig, n)[k] == Cell::Fixed(#[trigger] bit_of(j))
            && orig[k] is Possible ==> dpos(orig, j) == bit_of(k),
    decreases n,
{
    lemma_excls_upto_props(orig, orig, n);
    if n == 0 {
    } else {
        lemma_excls_upto_sound(orig, tr, n - 1);
        lemma_excls_upto_props(orig, orig, n - 1);
        let cur0 = apply_excls_upto(orig, orig, n - 1);
        let cur = apply_excls_upto(orig, orig, n);
        let e = excl_at(orig, n - 1);
        assert(cur == apply_excl(cur0, e));
        if e == 0 {
            assert forall|k: int| 0 <= k < 9 implies cur[k] == cur0[k] by {
                match cur0[k] {
                    Cell::Fixed(_) => {},
                    Cell::Possible(m) => {
                        lemma_orsplit(m, 0, 0);
                    },
                }
            }
        } else {
            let s = dpos(orig, n - 1);
            lemma_group_hosts(orig, tr, n - 1);
            lemma_dgroup_bound(orig, n - 1, 9);
            lemma_dpos_bound(orig, bit_of(n - 1), 9);
            assert forall|k: int| 0 <= k < 9 && s & bit_of(k) == 0 implies
                cur[k] == cur0[k] by {
                match cur0[k] {
                    Cell::Fixed(_) => {},
                    Cell::Possible(m) => {
                        if m & e != 0 {
                            let low = (m & e) ^ ((m & e) & (((m & e) - 1) as u16));
                            assert(one_bit(low) && m & low != 0 && low & e != 0
                                && low & !m == 0) by (bit_vector)
                                requires
                                    low == ((m & e) ^ ((m & e) & (((m & e) - 1) as u16))),
                                    m & e != 0,
                                    m < 512,
                            ;
                            let j2 = idx_of(low);
                            let bj2 = bit_of(j2);
                            assert(e & bj2 != 0) by { lemma_sub_facts(low, e, 0); }
                            lemma_dgroup_bit(orig, n - 1, 9, j2);
                            assert(dpos(orig, j2) == s);
                            match orig[k] {
                                Cell::Fixed(x) => {
                                    assert(m & !x == 0);
                                    assert(m == 0) by { lemma_sub_facts(m, x, 0); }
                                    assert(false);
                                },
                                Cell::Possible(x) => {
                                    assert(m & !x == 0);
                                    assert(x & bj2 != 0) by { lemma_sub_facts(m, x, low); }
                                    lemma_dpos_bit(orig, bit_of(j2), 9, k);
                                    assert(s & bit_of(k) != 0);
                                    assert(false);
                                },
                            }
                        }
                    },
                }
            }
            assert forall|k: int| 0 <= k < 9 && s & bit_of(k) != 0 implies
                (#[trigger] tr[k]).mask() & !cur[k].mask() == 0
                && cur[k].mask() == e
                && (cur[k] is Fixed ==> one_bit(s) && s == bit_of(k)) by {
                assert(cur0[k] == orig[k]);
                lemma_dpos_bit(orig, bit_of(n - 1), 9, k);
                let mm = orig[k].mask();
                assert(orig[k] is Possible);
                assert forall|j3: int| 0 <= j3 < 9 && e & #[trigger] bit_of(j3) != 0 implies
                    mm & bit_of(j3) != 0 by {
                    lemma_dgroup_bit(orig, n - 1, 9, j3);
                    assert(dpos(orig, j3) == s);
                    lemma_dpos_bit(orig, bit_of(j3), 9, k);
                }
                lemma_bits_sub_via(e, mm);
                assert(mm & e == e) by { lemma_sub_facts(e, mm, 0); }
                lemma_popcnt_add(e, s);
                lemma_popcnt_add(s, e);
                let d = tr[k].mask();
                assert(d & e != 0);
                lemma_onebit_facts(d, d);
                assert(e & d != 0) by { lemma_sub_facts(d, e, 0); }
                lemma_onebit_facts(e, d);
                assert(e & d == d);
                assert(d & !e == 0) by { lemma_sub_facts(d, e, 0); }
                if mm & e != mm {
                    assert(cur[k] == norm_cell(e));
                    if one_bit(e) {
                        assert(popcnt9(e) == 1);
                        assert(one_bit(s));
                        lemma_onebit_facts(s, bit_of(k));
                        lemma_onebit_facts(bit_of(k), bit_of(k));
                    }
                } else {
                    assert(cur[k] == Cell::Possible(mm) && mm == e);
                    assert(!one_bit(mm));
                }
            }
            // the groups still to come keep their cells
            assert forall|i2: int, k: int| n <= i2 < 9 && 0 <= k < 9
                && excl_at(orig, i2) != 0 && (#[trigger] dpos(orig, i2)) & bit_of(k) != 0 implies
                #[trigger] apply_excls_upto(orig, orig, n)[k] == orig[k] by {
                lemma_groups_disjoint(orig, tr, n - 1, i2, k);
                assert(s & bit_of(k) == 0);
                assert(cur0[k] == orig[k]);
            }
            // a new fixed digit had a single possible cell
            assert forall|k: int, j: int| 0 <= k < 9 && 0 <= j < 9
                && #[trigger] apply_excls_upto(orig, orig, n)[k] == Cell::Fixed(#[trigger] bit_of(j))
                && orig[k] is Possible implies dpos(orig, j) == bit_of(k) by {
                if s & bit_of(k) == 0 {
                    assert(cur[k] == cur0[k]);
                } else {
                    if cur0[k] == orig[k] && orig[k] is Possible && cur[k] is Fixed {
                        let trk = tr[k];
                        assert(trk.mask() & !cur[k].mask() == 0);
                        assert(cur[k].mask() == e);
                        assert(one_bit(s) && s == bit_of(k));
                        let bjx = bit_of(j);
                        assert(e & bjx != 0) by { lemma_sub_facts(e, 0, 0); }
                        lemma_dgroup_bit(orig, n - 1, 9, j);
                        assert(dpos(orig, j) == s);
                    }
                }
            }
        }
    }
}


/// One full exclusive pass keeps the solution and lands on a clean row.
proof fn lemma_excls_pass_sound(orig: Seq<Cell>, tr: Seq<Cell>)
    requires
        row_wf(orig),
        sol_row(tr),
        row_refines(tr, orig),
        prune_fixed_row(orig) == Some(orig),
    ensures
        row_refines(tr, excls_pass(orig)),
        prune_fixed_row(excls_pass(orig)) == Some(excls_pass(orig)),
{
    lemma_fixpoint_clean(orig);
    lemma_excls_upto_sound(orig, tr, 9);
    lemma_excls_upto_props(orig, orig, 9);
    let res = excls_pass(orig);
    assert forall|k: int, j: int| 0 <= k < 9 && 0 <= j < 9
        && (#[trigger] res[k]) == Cell::Fixed(#[trigger] bit_of(j))
        implies dpos(res, j) == 0 by {
        let b = bit_of(j);
        lemma_onebit_facts(b, b);
        if orig[k] is Fixed {
            lemma_onebit_facts(res[k].mask(), orig[k].mask());
            assert(orig[k] == Cell::Fixed(b));
            assert(dpos(orig, j) == 0);
            assert forall|k2: int| 0 <= k2 < 9 implies !has_cand(#[trigger] res[k2], b) by {
                lemma_dpos_bit(orig, b, 9, k2);
                let bk2 = bit_of(k2);
                assert(0u16 & bk2 == 0) by (bit_vector);
                match res[k2] {
                    Cell::Fixed(_) => {},
                    Cell::Possible(m) => {
                        match orig[k2] {
                            Cell::Fixed(x) => {
                                assert(m & !x == 0);
                                assert(m == 0) by (bit_vector)
                                    requires m & !x == 0 && one_bit(x) && !one_bit(m),
                                ;
                                assert(false);
                            },
                            Cell::Possible(x) => {
                                assert(x & b == 0);
                                assert(m & !x == 0);
                                assert(m & b == 0) by (bit_vector)
                                    requires m & !x == 0 && x & b == 0,
                                ;
                            },
                        }
                    },
                }
            }
            lemma_dpos_empty(res, b);
        } else {
            assert(dpos(orig, j) == bit_of(k));
            assert forall|k2: int| 0 <= k2 < 9 implies !has_cand(#[trigger] res[k2], b) by {
                if k2 == k {
                } else {
                    lemma_dpos_bit(orig, b, 9, k2);
                    let bk2 = bit_of(k2);
                    lemma_onebit_facts(bit_of(k), bk2);
                    assert(bit_of(k) & bk2 == 0 || bit_of(k) == bk2);
                    match res[k2] {
                        Cell::Fixed(_) => {},
                        Cell::Possible(m) => {
                            match orig[k2] {
                                Cell::Fixed(x) => {
                                    assert(m & !x == 0);
                                    assert(m == 0) by (bit_vector)
                                        requires m & !x == 0 && one_bit(x) && !one_bit(m),
                                    ;
                                    assert(false);
                                },
                                Cell::Possible(x) => {
                                    assert(x & b == 0);
                                    assert(m & !x == 0);
                                    assert(m & b == 0) by (bit_vector)
                                        requires m & !x == 0 && x & b == 0,
                                    ;
                                },
                            }
                        },
                    }
                }
            }
            lemma_dpos_empty(res, b);
        }
    }
    lemma_clean_fixpoint(res);
}

/// Iterated exclusive pruning keeps the solution.
proof fn lemma_fix_excl_sound(row: Seq<Cell>, tr: Seq<Cell>)
    requires
        row_wf(row),
        sol_row(tr),
        row_refines(tr, row),
        prune_fixed_row(row) == Some(row),
    ensures
        row_refines(tr, fix_excl(row)),
    decreases masks_total(row),
{
    lemma_excls_pass_props(row);
    lemma_excls_pass_sound(row, tr);
    let r2 = excls_pass(row);
    if r2 == row {
    } else {
        lemma_fix_excl_sound(r2, tr);
    }
}

/// One fixed-digit pass never loses the solution's digits.
proof fn lemma_prune_fixed_sound(row: Seq<Cell>, tr: Seq<Cell>)
    requires
        row_wf(row),
        sol_row(tr),
        row_refines(tr, row),
    ensures
        prune_fixed_row(row) is Some,
        row_refines(tr, prune_fixed_row(row)->Some_0),
{
    let u = fixed_union(row);
    assert forall|k: int| 0 <= k < 9 && (#[trigger] row[k]) is Possible implies
        tr[k].mask() & u == 0 by {
        let d = tr[k].mask();
        lemma_onebit_facts(d, d);
        if d & u != 0 {
            assert(u & d != 0) by (bit_vector)
                requires d & u != 0,
            ;
            lemma_union_member(row, 9, d);
            let k1 = choose|k1: int| 0 <= k1 < 9 && (#[trigger] row[k1]) is Fixed
                && row[k1].mask() == d;
            lemma_onebit_facts(tr[k1].mask(), d);
            assert(tr[k1].mask() == d);
            assert(k1 != k);
            if k1 < k {
                assert(tr[k1].mask() != tr[k].mask());
            } else {
                assert(tr[k].mask() != tr[k1].mask());
            }
            assert(false);
        }
    }
    assert forall|k: int| 0 <= k < 9 && (#[trigger] row[k]) is Possible implies
        row[k].mask() & !u != 0 && tr[k].mask() & !(row[k].mask() & !u) == 0 by {
        let d = tr[k].mask();
        let m = row[k].mask();
        lemma_onebit_facts(d, d);
        assert(d & !(m & !u) == 0 && m & !u != 0) by (bit_vector)
            requires
                d & !m == 0,
                d & u == 0,
                d != 0,
        ;
    }
    assert(prune_fixed_row(row) is Some);
    match prune_fixed_row(row) {
        None => {},
        Some(r2) => {
            assert forall|k: int| 0 <= k < 9 implies
                (#[trigger] tr[k]).mask() & !r2[k].mask() == 0 by {
                match row[k] {
                    Cell::Fixed(_) => {},
                    Cell::Possible(m) => {
                        assert(r2[k].mask() == m & !u);
                    },
                }
            }
        },
    }
}

/// Iterated fixed-digit pruning keeps the solution.
proof fn lemma_fix_fixed_sound(row: Seq<Cell>, tr: Seq<Cell>)
    requires
        row_wf(row),
        sol_row(tr),
        row_refines(tr, row),
    ensures
        fix_fixed(row) is Some,
        row_refines(tr, fix_fixed(row)->Some_0),
    decreases masks_total(row),
{
    lemma_prune_fixed_row_props(row);
    lemma_prune_fixed_sound(row, tr);
    match prune_fixed_row(row) {
        None => {},
        Some(r2) => {
            if r2 == row {
            } else {
                lemma_fix_fixed_sound(r2, tr);
            }
        },
    }
}

/// Both pruning passes of one row keep the solution.
pub proof fn lemma_row_prune_sound(row: Seq<Cell>, tr: Seq<Cell>)
    requires
        row_wf(row),
        sol_row(tr),
        row_refines(tr, row),
    ensures
        fix_fixed(row) matches Some(rf) && row_refines(tr, fix_excl(rf)),
{
    lemma_fix_fixed_sound(row, tr);
    lemma_fix_fixed_props(row);
    match fix_fixed(row) {
        None => {},
        Some(rf) => {
            lemma_fix_excl_sound(rf, tr);
        },
    }
}


// ---------------------------------------------------------------------------
// Propagation and branching never lose a solution
// ---------------------------------------------------------------------------

/// `t` is a complete valid grid that the partial grid `s` still allows.
pub open spec fn solution(t: Seq<Cell>, s: Seq<Cell>) -> bool {
    &&& grid_wf(t)
    &&& filled_spec(t)
    &&& !invalid_spec(t)
    &&& refines(t, s)
}

/// Row pruning of the whole grid keeps every solution whose rows have no
/// duplicates.
proof fn lemma_grid_rows_sound(s: Seq<Cell>, t: Seq<Cell>)
    requires
        grid_wf(s),
        grid_wf(t),
        filled_spec(t),
        !dup_row(t),
        refines(t, s),
    ensures
        prune_grid_spec(s) matches Some(p) && refines(t, p),
{
    lemma_prune_rows_props(s, 9);
    assert forall|r: int| 0 <= r < 9 implies (#[trigger] pruned_row(s, r)) is Some
        && row_refines(row_of(t, r), pruned_row(s, r)->Some_0) by {
        let row = row_of(s, r);
        let tr = row_of(t, r);
        assert(forall|k: int| 0 <= k < 9 ==> (#[trigger] row[k]) == s[r * 9 + k]);
        assert(forall|k: int| 0 <= k < 9 ==> (#[trigger] tr[k]) == t[r * 9 + k]);
        assert(row_wf(row));
        assert(sol_row(tr)) by {
            assert forall|k1: int, k2: int| 0 <= k1 < k2 < 9 implies
                (#[trigger] tr[k1]).mask() != (#[trigger] tr[k2]).mask() by {
                if tr[k1].mask() == tr[k2].mask() {
                    assert(t[r * 9 + k1] is Fixed && t[r * 9 + k2] is Fixed
                        && t[r * 9 + k1].mask() == t[r * 9 + k2].mask());
                    assert(dup_row(t));
                }
            }
        }
        assert(row_refines(tr, row));
        lemma_row_prune_sound(row, tr);
    }
    match prune_grid_spec(s) {
        None => {
            assert(false);
        },
        Some(p) => {
            assert forall|i: int| 0 <= i < 81 implies
                (#[trigger] t[i]).mask() & !p[i].mask() == 0 by {
                let r = i / 9;
                let k = i % 9;
                assert(0 <= r < 9 && 0 <= k < 9 && i == r * 9 + k);
                assert(p[r * 9 + k] == pruned_row(s, r)->Some_0[k]);
                assert(row_of(t, r)[k] == t[r * 9 + k]);
            }
        },
    }
}


/// Pointwise refinement carries over both axis views.
proof fn lemma_refines_transform(a: Seq<Cell>, b: Seq<Cell>)
    requires
        a.len() == 81,
        b.len() == 81,
        forall|i: int| 0 <= i < 81 ==> (#[trigger] a[i]).mask() & !b[i].mask() == 0,
    ensures
        forall|i: int| 0 <= i < 81 ==>
            (#[trigger] transpose_spec(a)[i]).mask() & !transpose_spec(b)[i].mask() == 0,
        forall|i: int| 0 <= i < 81 ==>
            (#[trigger] blocks_spec(a)[i]).mask() & !blocks_spec(b)[i].mask() == 0,
{
    assert forall|i: int| 0 <= i < 81 implies
        (#[trigger] transpose_spec(a)[i]).mask() & !transpose_spec(b)[i].mask() == 0 by {
        assert(0 <= tmap(i) < 81);
    }
    assert forall|i: int| 0 <= i < 81 implies
        (#[trigger] blocks_spec(a)[i]).mask() & !blocks_spec(b)[i].mask() == 0 by {
        assert(0 <= bmap(i) < 81);
    }
}

/// A filled grid stays filled under both axis views.
proof fn lemma_filled_transform(t: Seq<Cell>)
    requires
        t.len() == 81,
        filled_spec(t),
    ensures
        filled_spec(transpose_spec(t)),
        filled_spec(blocks_spec(t)),
{
    assert forall|i: int| 0 <= i < 81 implies (#[trigger] transpose_spec(t)[i]) is Fixed by {
        assert(0 <= tmap(i) < 81);
    }
    assert forall|i: int| 0 <= i < 81 implies (#[trigger] blocks_spec(t)[i]) is Fixed by {
        assert(0 <= bmap(i) < 81);
    }
}

/// One full three-axis cycle keeps every solution.
#[verifier::rlimit(100)]
proof fn lemma_cycle_sound(s: Seq<Cell>, t: Seq<Cell>)
    requires
        grid_wf(s),
        solution(t, s),
    ensures
        cycle(s) matches Some(p) && solution(t, p),
{
    lemma_transforms_preserve_wf(t);
    lemma_transpose_involution(t);
    lemma_blocks_involution(t);
    lemma_grid_rows_sound(s, t);
    match prune_grid_spec(s) {
        None => {},
        Some(g1) => {
            lemma_prune_grid_props(s);
            lemma_transforms_preserve_wf(g1);
            let ts = transpose_spec(g1);
            let tt = transpose_spec(t);
            lemma_filled_transform(t);
            lemma_refines_transform(t, g1);
            lemma_grid_rows_sound(ts, tt);
            match prune_grid_spec(ts) {
                None => {},
                Some(q) => {
                    lemma_prune_grid_props(ts);
                    lemma_transforms_preserve_wf(q);
                    let g2 = transpose_spec(q);
                    lemma_refines_transform(tt, q);
                    assert(transpose_spec(tt) == t);
                    assert(refines(t, g2));
                    lemma_transforms_preserve_wf(g2);
                    let bs = blocks_spec(g2);
                    let bt = blocks_spec(t);
                    lemma_refines_transform(t, g2);
                    lemma_grid_rows_sound(bs, bt);
                    lemma_prune_grid_props(bs);
                    match prune_grid_spec(bs) {
                        None => {},
                        Some(w) => {
                            lemma_transforms_preserve_wf(w);
                            let p = blocks_spec(w);
                            lemma_refines_transform(bt, w);
                            assert(blocks_spec(bt) == t);
                            assert(refines(t, p));
                        },
                    }
                },
            }
        },
    }
}

/// Full propagation keeps every solution, so it cannot fail while one
/// exists.
pub proof fn lemma_propagate_sound(s: Seq<Cell>, t: Seq<Cell>)
    requires
        grid_wf(s),
        solution(t, s),
    ensures
        propagate(s) matches Some(p) && solution(t, p),
    decreases masks_total(s),
{
    lemma_cycle_props(s);
    lemma_cycle_sound(s, t);
    match cycle(s) {
        None => {},
        Some(s2) => {
            if s2 == s {
            } else {
                lemma_propagate_sound(s2, t);
            }
        },
    }
}

/// Full propagation preserves the set of solutions exactly: a complete
/// valid grid extends the input if and only if it extends the propagated
/// grid.
pub proof fn lemma_propagation_preserves_solutions(s: Seq<Cell>, p: Seq<Cell>, t: Seq<Cell>)
    requires
        grid_wf(s),
        propagate(s) == Some(p),
    ensures
        solution(t, s) <==> solution(t, p),
{
    if solution(t, s) {
        lemma_propagate_sound(s, t);
    }
    if solution(t, p) {
        lemma_propagate_props(s);
        crate::solve::lemma_refines_trans(t, p, s);
    }
}

/// The two branch grids keep every solution between them.
pub proof fn lemma_branch_sound(
    s: Seq<Cell>, a: Seq<Cell>, c: Seq<Cell>, t: Seq<Cell>, i: int, b: u16,
)
    requires
        grid_wf(s),
        crate::solve::branching(s, a, c, i, b),
        solution(t, s),
    ensures
        solution(t, a) || solution(t, c),
{
    let d = t[i].mask();
    let m = s[i].mask();
    lemma_onebit_facts(d, b);
    if d & b != 0 {
        assert(d == b);
        assert forall|j: int| 0 <= j < 81 implies
            (#[trigger] t[j]).mask() & !c[j].mask() == 0 by {
            if j == i {
                crate::rows::lemma_self_submask(d);
            }
        }
    } else {
        assert forall|j: int| 0 <= j < 81 implies
            (#[trigger] t[j]).mask() & !a[j].mask() == 0 by {
            if j == i {
                assert(a[i].mask() == m & !b);
                assert(d & !(m & !b) == 0) by (bit_vector)
                    requires
                        d & !m == 0,
                        d & b == 0,
                ;
            }
        }
    }
}

} // verus!
