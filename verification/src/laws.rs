use vstd::prelude::*;
use crate::cell::{Cell, one_bit};
use crate::grid::{grid_wf, transpose_spec, blocks_spec, tmap, bmap,
    lemma_transforms_preserve_wf};
use crate::solve::{filled_spec, dup_row, invalid_spec, lemma_onebit_facts};
use crate::engine::refines;

verus! {

/// Nine pairwise distinct single-digit masks use up all nine digits, so
/// any further single digit equals one of them.
#[verifier::rlimit(100)]
pub(crate) proof fn lemma_nine_cover(
    m0: u16, m1: u16, m2: u16, m3: u16, m4: u16, m5: u16, m6: u16, m7: u16, m8: u16, b: u16,
)
    by (bit_vector)
    ensures
        (one_bit(m0) && one_bit(m1) && one_bit(m2) && one_bit(m3) && one_bit(m4)
            && one_bit(m5) && one_bit(m6) && one_bit(m7) && one_bit(m8) && one_bit(b)
            && m0 != m1 && m0 != m2 && m0 != m3 && m0 != m4 && m0 != m5 && m0 != m6
            && m0 != m7 && m0 != m8
            && m1 != m2 && m1 != m3 && m1 != m4 && m1 != m5 && m1 != m6 && m1 != m7
            && m1 != m8
            && m2 != m3 && m2 != m4 && m2 != m5 && m2 != m6 && m2 != m7 && m2 != m8
            && m3 != m4 && m3 != m5 && m3 != m6 && m3 != m7 && m3 != m8
            && m4 != m5 && m4 != m6 && m4 != m7 && m4 != m8
            && m5 != m6 && m5 != m7 && m5 != m8
            && m6 != m7 && m6 != m8
            && m7 != m8)
            ==> (b == m0 || b == m1 || b == m2 || b == m3 || b == m4 || b == m5
                || b == m6 || b == m7 || b == m8),
{
}

/// Row `l` of the view `v` holds the digit bit `b` in some cell.
pub open spec fn line_has_digit(v: Seq<Cell>, l: int, b: u16) -> bool {
    exists|k: int| 0 <= k < 9 && (#[trigger] v[l * 9 + k]).mask() == b
}

/// In a filled, duplicate-free view, every row holds every digit.
#[verifier::rlimit(100)]
proof fn lemma_line_cover(v: Seq<Cell>, l: int, b: u16)
    requires
        v.len() == 81,
        forall|i: int| 0 <= i < 81 ==> (#[trigger] v[i]).wf(),
        forall|i: int| 0 <= i < 81 ==> (#[trigger] v[i]) is Fixed,
        !dup_row(v),
        0 <= l < 9,
        one_bit(b),
    ensures
        line_has_digit(v, l, b),
{
    let c0 = v[l * 9 + 0].mask();
    let c1 = v[l * 9 + 1].mask();
    let c2 = v[l * 9 + 2].mask();
    let c3 = v[l * 9 + 3].mask();
    let c4 = v[l * 9 + 4].mask();
    let c5 = v[l * 9 + 5].mask();
    let c6 = v[l * 9 + 6].mask();
    let c7 = v[l * 9 + 7].mask();
    let c8 = v[l * 9 + 8].mask();
    assert forall|i: int, j: int| 0 <= i < j < 9 implies
        (#[trigger] v[l * 9 + i]).mask() != (#[trigger] v[l * 9 + j]).mask() by {
        if v[l * 9 + i].mask() == v[l * 9 + j].mask() {
            assert(dup_row(v));
        }
    }
    lemma_nine_cover(c0, c1, c2, c3, c4, c5, c6, c7, c8, b);
    if b == c0 {
        assert(v[l * 9 + 0].mask() == b);
    } else if b == c1 {
        assert(v[l * 9 + 1].mask() == b);
    } else if b == c2 {
        assert(v[l * 9 + 2].mask() == b);
    } else if b == c3 {
        assert(v[l * 9 + 3].mask() == b);
    } else if b == c4 {
        assert(v[l * 9 + 4].mask() == b);
    } else if b == c5 {
        assert(v[l * 9 + 5].mask() == b);
    } else if b == c6 {
        assert(v[l * 9 + 6].mask() == b);
    } else if b == c7 {
        assert(v[l * 9 + 7].mask() == b);
    } else {
        assert(v[l * 9 + 8].mask() == b);
    }
}

/// A filled grid that passes the validity check is a complete solution:
/// every row, every column (a row of the transposed view), and every 3x3
/// box (a row of the block view) holds each digit exactly once -- at
/// least once by the cover below, at most once by the distinctness below.
pub proof fn lemma_solved_grid_complete(s: Seq<Cell>)
    requires
        grid_wf(s),
        filled_spec(s),
        !invalid_spec(s),
    ensures
        forall|l: int, b: u16| 0 <= l < 9 && one_bit(b)
            ==> #[trigger] line_has_digit(s, l, b),
        forall|l: int, b: u16| 0 <= l < 9 && one_bit(b)
            ==> #[trigger] line_has_digit(transpose_spec(s), l, b),
        forall|l: int, b: u16| 0 <= l < 9 && one_bit(b)
            ==> #[trigger] line_has_digit(blocks_spec(s), l, b),
        forall|l: int, k1: int, k2: int| 0 <= l < 9 && 0 <= k1 < k2 < 9
            ==> (#[trigger] s[l * 9 + k1]).mask() != (#[trigger] s[l * 9 + k2]).mask(),
        forall|l: int, k1: int, k2: int| 0 <= l < 9 && 0 <= k1 < k2 < 9
            ==> (#[trigger] transpose_spec(s)[l * 9 + k1]).mask()
                != (#[trigger] transpose_spec(s)[l * 9 + k2]).mask(),
        forall|l: int, k1: int, k2: int| 0 <= l < 9 && 0 <= k1 < k2 < 9
            ==> (#[trigger] blocks_spec(s)[l * 9 + k1]).mask()
                != (#[trigger] blocks_spec(s)[l * 9 + k2]).mask(),
{
    lemma_transforms_preserve_wf(s);
    let t = transpose_spec(s);
    let w = blocks_spec(s);
    assert forall|i: int| 0 <= i < 81 implies (#[trigger] t[i]) is Fixed by {
        assert(0 <= tmap(i) < 81);
    }
    assert forall|i: int| 0 <= i < 81 implies (#[trigger] w[i]) is Fixed by {
        assert(0 <= bmap(i) < 81);
    }
    assert forall|l: int, b: u16| 0 <= l < 9 && one_bit(b) implies
        #[trigger] line_has_digit(s, l, b) by {
        lemma_line_cover(s, l, b);
    }
    assert forall|l: int, b: u16| 0 <= l < 9 && one_bit(b) implies
        #[trigger] line_has_digit(transpose_spec(s), l, b) by {
        lemma_line_cover(t, l, b);
    }
    assert forall|l: int, b: u16| 0 <= l < 9 && one_bit(b) implies
        #[trigger] line_has_digit(blocks_spec(s), l, b) by {
        lemma_line_cover(w, l, b);
    }
    assert forall|l: int, k1: int, k2: int| 0 <= l < 9 && 0 <= k1 < k2 < 9 implies
        (#[trigger] t[l * 9 + k1]).mask() != (#[trigger] t[l * 9 + k2]).mask() by {
        if t[l * 9 + k1].mask() == t[l * 9 + k2].mask() {
            assert(dup_row(t));
        }
    }
    assert forall|l: int, k1: int, k2: int| 0 <= l < 9 && 0 <= k1 < k2 < 9 implies
        (#[trigger] w[l * 9 + k1]).mask() != (#[trigger] w[l * 9 + k2]).mask() by {
        if w[l * 9 + k1].mask() == w[l * 9 + k2].mask() {
            assert(dup_row(w));
        }
    }
    assert forall|l: int, k1: int, k2: int| 0 <= l < 9 && 0 <= k1 < k2 < 9 implies
        (#[trigger] s[l * 9 + k1]).mask() != (#[trigger] s[l * 9 + k2]).mask()
        && t[l * 9 + k1].mask() != t[l * 9 + k2].mask()
        && w[l * 9 + k1].mask() != w[l * 9 + k2].mask() by {
        assert(0 <= tmap(l * 9 + k1) < 81 && 0 <= tmap(l * 9 + k2) < 81);
        assert(0 <= bmap(l * 9 + k1) < 81 && 0 <= bmap(l * 9 + k2) < 81);
        if s[l * 9 + k1].mask() == s[l * 9 + k2].mask() {
            assert(dup_row(s));
        }
        if t[l * 9 + k1].mask() == t[l * 9 + k2].mask() {
            assert(dup_row(t));
        }
        if w[l * 9 + k1].mask() == w[l * 9 + k2].mask() {
            assert(dup_row(w));
        }
    }
}

/// A duplicate among fixed digits survives refinement by a filled grid:
/// the refining grid holds the same fixed digits where the coarser one
/// already had them.
proof fn lemma_dup_transfer(a: Seq<Cell>, g: Seq<Cell>)
    requires
        a.len() == 81,
        g.len() == 81,
        forall|i: int| 0 <= i < 81 ==> (#[trigger] a[i]).wf(),
        forall|i: int| 0 <= i < 81 ==> (#[trigger] g[i]).wf(),
        forall|i: int| 0 <= i < 81 ==> (#[trigger] g[i]).mask() & !a[i].mask() == 0,
        forall|i: int| 0 <= i < 81 ==> (#[trigger] g[i]) is Fixed,
        dup_row(a),
    ensures
        dup_row(g),
{
    let (r, i, j) = choose|r: int, i: int, j: int| 0 <= r < 9 && 0 <= i < j < 9
        && (#[trigger] a[r * 9 + i]) is Fixed && (#[trigger] a[r * 9 + j]) is Fixed
        && a[r * 9 + i].mask() == a[r * 9 + j].mask();
    let p1 = r * 9 + i;
    let p2 = r * 9 + j;
    lemma_onebit_facts(g[p1].mask(), a[p1].mask());
    lemma_onebit_facts(g[p2].mask(), a[p2].mask());
    assert(g[p1].mask() == a[p1].mask());
    assert(g[p2].mask() == a[p2].mask());
    assert(g[p1] is Fixed && g[p2] is Fixed && g[p1].mask() == g[p2].mask());
}

/// A grid with a duplicated fixed digit in any row, column, or box is
/// detected as invalid, and every filled grid refining it is invalid too:
/// such a grid is never reported as a solution.
pub proof fn lemma_duplicate_never_solved(s: Seq<Cell>, g: Seq<Cell>)
    requires
        grid_wf(s),
        grid_wf(g),
        invalid_spec(s),
        filled_spec(g),
        refines(g, s),
    ensures
        invalid_spec(g),
{
    lemma_transforms_preserve_wf(s);
    lemma_transforms_preserve_wf(g);
    let ts = transpose_spec(s);
    let tg = transpose_spec(g);
    let ws = blocks_spec(s);
    let wg = blocks_spec(g);
    assert forall|i: int| 0 <= i < 81 implies (#[trigger] tg[i]).mask() & !ts[i].mask() == 0
        && tg[i] is Fixed by {
        assert(0 <= tmap(i) < 81);
    }
    assert forall|i: int| 0 <= i < 81 implies (#[trigger] wg[i]).mask() & !ws[i].mask() == 0
        && wg[i] is Fixed by {
        assert(0 <= bmap(i) < 81);
    }
    if dup_row(s) {
        lemma_dup_transfer(s, g);
    } else if dup_row(ts) {
        lemma_dup_transfer(ts, tg);
    } else {
        lemma_dup_transfer(ws, wg);
    }
}

} // verus!
