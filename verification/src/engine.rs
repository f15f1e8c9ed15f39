use vstd::prelude::*;
use crate::cell::Cell;
use crate::grid::{Grid, grid_wf, transpose_spec, blocks_spec, tmap, bmap,
    lemma_transforms_preserve_wf};
use crate::rows::{row_wf, fix_fixed, fix_excl, masks_total, prune_fixed_row, excls_pass,
    lemma_prune_fixed_row_props, lemma_fix_fixed_props, lemma_fix_excl_props,
    lemma_excls_pass_props, lemma_total_mono, lemma_submask_trans, lemma_submask_le};

verus! {

/// The `r`-th row of a grid.
pub open spec fn row_of(s: Seq<Cell>, r: int) -> Seq<Cell> {
    s.subrange(r * 9, r * 9 + 9)
}

/// Both pruning passes of one row, each iterated to its fixed point: the
/// fixed digits first, the exclusive groups after them.
pub open spec fn pruned_row(s: Seq<Cell>, r: int) -> Option<Seq<Cell>> {
    match fix_fixed(row_of(s, r)) {
        None => None,
        Some(rf) => Some(fix_excl(rf)),
    }
}

/// The first `n` rows pruned and concatenated; `None` as soon as one row
/// loses a cell.
pub open spec fn prune_rows_upto(s: Seq<Cell>, n: int) -> Option<Seq<Cell>>
    decreases n,
{
    if n <= 0 {
        Some(Seq::empty())
    } else {
        match (prune_rows_upto(s, n - 1), pruned_row(s, n - 1)) {
            (Some(acc), Some(pr)) => Some(acc + pr),
            _ => None,
        }
    }
}

/// Row pruning of the whole grid, row by row.
pub open spec fn prune_grid_spec(s: Seq<Cell>) -> Option<Seq<Cell>> {
    prune_rows_upto(s, 9)
}

/// Row pruning applied along all three axes once: canonical rows, then
/// columns, then boxes, each mapped back to canonical orientation.
pub open spec fn cycle(s: Seq<Cell>) -> Option<Seq<Cell>> {
    match prune_grid_spec(s) {
        None => None,
        Some(g1) => match prune_grid_spec(transpose_spec(g1)) {
            None => None,
            Some(q) => match prune_grid_spec(blocks_spec(transpose_spec(q))) {
                None => None,
                Some(w) => Some(blocks_spec(w)),
            },
        },
    }
}

/// `a` keeps only candidates that `b` allows, cell by cell.
pub open spec fn refines(a: Seq<Cell>, b: Seq<Cell>) -> bool {
    a.len() == 81 && b.len() == 81
        && forall|i: int| 0 <= i < 81 ==> (#[trigger] a[i]).mask() & !b[i].mask() == 0
}

/// Full constraint propagation: the three-axis cycle repeated until the
/// grid stops changing, or `None` when some branch of it proves the grid
/// unsolvable.
pub open spec fn propagate(s: Seq<Cell>) -> Option<Seq<Cell>>
    decreases masks_total(s),
    when grid_wf(s)
    via propagate_dec
{
    match cycle(s) {
        None => None,
        Some(s2) => if s2 == s {
            Some(s)
        } else {
            propagate(s2)
        },
    }
}

#[via_fn]
proof fn propagate_dec(s: Seq<Cell>) {
    if grid_wf(s) {
        lemma_cycle_props(s);
    }
}

/// One pruned row keeps its cells well formed and only loses candidates.
proof fn lemma_pruned_row_props(s: Seq<Cell>, r: int)
    requires
        grid_wf(s),
        0 <= r < 9,
    ensures
        row_wf(row_of(s, r)),
        pruned_row(s, r) matches Some(pr) ==> {
            &&& row_wf(pr)
            &&& forall|k: int| 0 <= k < 9 ==> (#[trigger] pr[k]).mask() & !s[r * 9 + k].mask() == 0
            &&& forall|k: int| 0 <= k < 9 && (#[trigger] pr[k]).mask() == s[r * 9 + k].mask()
                ==> pr[k] == s[r * 9 + k]
        },
{
    let row = row_of(s, r);
    assert(forall|k: int| 0 <= k < 9 ==> (#[trigger] row[k]) == s[r * 9 + k]);
    lemma_fix_fixed_props(row);
    match fix_fixed(row) {
        None => {},
        Some(rf) => {
            lemma_fix_excl_props(rf);
            let pr = fix_excl(rf);
            assert forall|k: int| 0 <= k < 9 implies (#[trigger] pr[k]).mask() & !row[k].mask() == 0
                && (pr[k].mask() == row[k].mask() ==> pr[k] == row[k]) by {
                lemma_submask_trans(pr[k].mask(), rf[k].mask(), row[k].mask());
                if pr[k].mask() == row[k].mask() {
                    lemma_submask_le(pr[k].mask(), rf[k].mask());
                    lemma_submask_le(rf[k].mask(), row[k].mask());
                    assert(rf[k].mask() == row[k].mask());
                }
            }
        },
    }
}

/// Shape of the row-wise pruning of a prefix of the grid.
pub proof fn lemma_prune_rows_props(s: Seq<Cell>, n: int)
    requires
        grid_wf(s),
        0 <= n <= 9,
    ensures
        prune_rows_upto(s, n) is Some <==> (forall|r: int| 0 <= r < n
            ==> (#[trigger] pruned_row(s, r)) is Some),
        prune_rows_upto(s, n) matches Some(p) ==> {
            &&& p.len() == n * 9
            &&& forall|r: int, k: int| 0 <= r < n && 0 <= k < 9 ==>
                #[trigger] p[r * 9 + k] == pruned_row(s, r)->Some_0[k]
        },
    decreases n,
{
    if n > 0 {
        lemma_prune_rows_props(s, n - 1);
        lemma_pruned_row_props(s, n - 1);
        match (prune_rows_upto(s, n - 1), pruned_row(s, n - 1)) {
            (Some(acc), Some(pr)) => {
                assert(row_wf(pr));
                assert forall|r: int, k: int| 0 <= r < n && 0 <= k < 9 implies
                    #[trigger] (acc + pr)[r * 9 + k] == pruned_row(s, r)->Some_0[k] by {
                    if r < n - 1 {
                        assert((acc + pr)[r * 9 + k] == acc[r * 9 + k]);
                    } else {
                        assert((acc + pr)[r * 9 + k] == pr[k]);
                    }
                }
            },
            _ => {},
        }
    }
}

/// Row pruning of the grid keeps it well formed, only removes candidates,
/// moves no cell without shrinking its mask, and strictly lowers the
/// measure whenever it changes the grid.
pub(crate) proof fn lemma_prune_grid_props(s: Seq<Cell>)
    requires
        grid_wf(s),
    ensures
        prune_grid_spec(s) matches Some(p) ==> {
            &&& grid_wf(p)
            &&& forall|i: int| 0 <= i < 81 ==> (#[trigger] p[i]).mask() & !s[i].mask() == 0
            &&& forall|i: int| 0 <= i < 81 && (#[trigger] p[i]).mask() == s[i].mask()
                ==> p[i] == s[i]
            &&& masks_total(p) <= masks_total(s)
            &&& (p != s ==> masks_total(p) < masks_total(s))
        },
{
    lemma_prune_rows_props(s, 9);
    match prune_grid_spec(s) {
        None => {},
        Some(p) => {
            assert forall|i: int| 0 <= i < 81 implies (#[trigger] p[i]).wf()
                && p[i].mask() & !s[i].mask() == 0
                && (p[i].mask() == s[i].mask() ==> p[i] == s[i]) by {
                let r = i / 9;
                let k = i % 9;
                assert(0 <= r < 9 && 0 <= k < 9 && i == r * 9 + k);
                lemma_pruned_row_props(s, r);
                assert(p[r * 9 + k] == pruned_row(s, r)->Some_0[k]);
            }
            lemma_total_mono(p, s);
            if p != s {
                assert(exists|i: int| 0 <= i < 81 && (#[trigger] p[i]) != s[i]) by {
                    if forall|i: int| 0 <= i < 81 ==> (#[trigger] p[i]) == s[i] {
                        assert(p =~= s);
                    }
                }
                let i = choose|i: int| 0 <= i < 81 && (#[trigger] p[i]) != s[i];
                assert(p[i].mask() != s[i].mask());
            }
        },
    }
}

/// One full three-axis cycle keeps the grid well formed, only removes
/// candidates, and strictly lowers the measure whenever it changes the
/// grid.
pub(crate) proof fn lemma_cycle_props(s: Seq<Cell>)
    requires
        grid_wf(s),
    ensures
        cycle(s) matches Some(p) ==> {
            &&& grid_wf(p)
            &&& forall|i: int| 0 <= i < 81 ==> (#[trigger] p[i]).mask() & !s[i].mask() == 0
            &&& forall|i: int| 0 <= i < 81 && (#[trigger] p[i]).mask() == s[i].mask()
                ==> p[i] == s[i]
            &&& masks_total(p) <= masks_total(s)
            &&& (p != s ==> masks_total(p) < masks_total(s))
        },
{
    lemma_prune_grid_props(s);
    match prune_grid_spec(s) {
        None => {},
        Some(g1) => {
            lemma_transforms_preserve_wf(g1);
            let t = transpose_spec(g1);
            lemma_prune_grid_props(t);
            match prune_grid_spec(t) {
                None => {},
                Some(q) => {
                    lemma_transforms_preserve_wf(q);
                    let g2 = transpose_spec(q);
                    assert forall|i: int| 0 <= i < 81 implies
                        (#[trigger] g2[i]).mask() & !g1[i].mask() == 0
                        && (g2[i].mask() == g1[i].mask() ==> g2[i] == g1[i]) by {
                        let j = tmap(i);
                        assert(0 <= j < 81 && tmap(j) == i);
                        assert(g2[i] == q[j] && t[j] == g1[i]);
                    }
                    lemma_transforms_preserve_wf(g2);
                    let bv = blocks_spec(g2);
                    lemma_prune_grid_props(bv);
                    match prune_grid_spec(bv) {
                        None => {},
                        Some(w) => {
                            lemma_transforms_preserve_wf(w);
                            let p = blocks_spec(w);
                            assert forall|i: int| 0 <= i < 81 implies
                                (#[trigger] p[i]).mask() & !g2[i].mask() == 0
                                && (p[i].mask() == g2[i].mask() ==> p[i] == g2[i]) by {
                                let j = bmap(i);
                                assert(0 <= j < 81 && bmap(j) == i);
                                assert(p[i] == w[j] && bv[j] == g2[i]);
                            }
                            assert forall|i: int| 0 <= i < 81 implies
                                (#[trigger] p[i]).mask() & !s[i].mask() == 0
                                && (p[i].mask() == s[i].mask() ==> p[i] == s[i]) by {
                                lemma_submask_trans(p[i].mask(), g2[i].mask(), g1[i].mask());
                                lemma_submask_trans(p[i].mask(), g1[i].mask(), s[i].mask());
                                if p[i].mask() == s[i].mask() {
                                    lemma_submask_le(p[i].mask(), g2[i].mask());
                                    lemma_submask_le(g2[i].mask(), g1[i].mask());
                                    lemma_submask_le(g1[i].mask(), s[i].mask());
                                }
                            }
                            lemma_total_mono(p, s);
                            if p != s {
                                assert(exists|i: int| 0 <= i < 81 && (#[trigger] p[i]) != s[i])
                                    by {
                                    if forall|i: int| 0 <= i < 81 ==> (#[trigger] p[i]) == s[i] {
                                        assert(p =~= s);
                                    }
                                }
                                let i = choose|i: int| 0 <= i < 81 && (#[trigger] p[i]) != s[i];
                                assert(p[i].mask() != s[i].mask());
                            }
                        },
                    }
                },
            }
        },
    }
}

/// Full propagation keeps the grid well formed, only removes candidates,
/// and lands on a fixed point of the cycle.
pub proof fn lemma_propagate_props(s: Seq<Cell>)
    requires
        grid_wf(s),
    ensures
        propagate(s) matches Some(p) ==> {
            &&& grid_wf(p)
            &&& refines(p, s)
            &&& masks_total(p) <= masks_total(s)
            &&& cycle(p) == Some(p)
        },
    decreases masks_total(s),
{
    lemma_cycle_props(s);
    match cycle(s) {
        None => {},
        Some(s2) => {
            if s2 == s {
            } else {
                lemma_propagate_props(s2);
                match propagate(s2) {
                    None => {},
                    Some(p) => {
                        assert forall|i: int| 0 <= i < 81 implies
                            (#[trigger] p[i]).mask() & !s[i].mask() == 0 by {
                            lemma_submask_trans(p[i].mask(), s2[i].mask(), s[i].mask());
                        }
                    },
                }
            }
        },
    }
}

/// Propagation is idempotent at its fixed point: running full propagation
/// on a grid that full propagation already stabilized returns that grid
/// unchanged.
pub proof fn lemma_propagation_idempotent(s: Seq<Cell>, p: Seq<Cell>)
    requires
        grid_wf(s),
        propagate(s) == Some(p),
    ensures
        propagate(p) == Some(p),
{
    lemma_propagate_props(s);
    assert(cycle(p) == Some(p));
}

impl Grid {
    /// Applies the two pruning operations to every row of the grid: first
    /// fixed-digit pruning until its fixed point, then exclusive-group
    /// pruning until its fixed point.  `None` when a row dies.
    pub fn prune_grid(&self) -> (res: Option<Grid>)
        requires
            self.wf(),
        ensures
            res is None <==> prune_grid_spec(self@) is None,
            res matches Some(g) ==> Some(g@) == prune_grid_spec(self@) && g.wf()
                && forall|i: int| 0 <= i < 81 ==> (#[trigger] g@[i]).mask() & !self@[i].mask() == 0,
    {
        proof {
            lemma_prune_rows_props(self@, 9);
            lemma_prune_grid_props(self@);
        }
        let mut out: Vec<Cell> = Vec::new();
        let mut r: usize = 0;
        while r < 9
            invariant
                self.wf(),
                r <= 9,
                out@.len() == r * 9,
                forall|rr: int| 0 <= rr < r ==> (#[trigger] pruned_row(self@, rr)) is Some,
                forall|rr: int, k: int| 0 <= rr < r && 0 <= k < 9 ==>
                    #[trigger] out@[rr * 9 + k] == pruned_row(self@, rr)->Some_0[k],
            decreases 9 - r,
        {
            let mut cur: Vec<Cell> = Vec::new();
            let mut k: usize = 0;
            while k < 9
                invariant
                    self.wf(),
                    r < 9,
                    k <= 9,
                    cur@.len() == k,
                    forall|t: int| 0 <= t < k ==> (#[trigger] cur@[t]) == self@[r * 9 + t],
                decreases 9 - k,
            {
                cur.push(self.get(r, k));
                k += 1;
            }
            proof {
                assert(cur@ =~= row_of(self@, r as int));
                lemma_pruned_row_props(self@, r as int);
            }
            let ghost row0 = cur@;
            let mut fp = false;
            while !fp
                invariant
                    self.wf(),
                    r < 9,
                    row0 == row_of(self@, r as int),
                    row_wf(row0),
                    row_wf(cur@),
                    fix_fixed(row0) == fix_fixed(cur@),
                    fp ==> prune_fixed_row(cur@) == Some(cur@),
                decreases masks_total(cur@), (if fp { 0int } else { 1int }),
            {
                let (ch, res2) = Grid::prune_cells_by_fixed(&cur);
                match res2 {
                    None => {
                        proof {
                            assert(fix_fixed(cur@) is None);
                            assert(pruned_row(self@, r as int) is None);
                            lemma_prune_rows_props(self@, 9);
                        }
                        return None;
                    },
                    Some(nx) => {
                        if ch {
                            proof {
                                lemma_prune_fixed_row_props(cur@);
                                assert(fix_fixed(cur@) == fix_fixed(nx@));
                            }
                            cur = nx;
                        } else {
                            proof {
                                assert(nx@ == cur@);
                            }
                            fp = true;
                        }
                    },
                }
            }
            proof {
                assert(fix_fixed(cur@) == Some(cur@));
                lemma_fix_fixed_props(row0);
            }
            let ghost rowf = cur@;
            let mut fp2 = false;
            while !fp2
                invariant
                    row_wf(rowf),
                    row_wf(cur@),
                    fix_excl(rowf) == fix_excl(cur@),
                    fp2 ==> excls_pass(cur@) == cur@,
                decreases masks_total(cur@), (if fp2 { 0int } else { 1int }),
            {
                let (ch, nx) = Grid::prune_cells_by_exclusives(&cur);
                if ch {
                    proof {
                        lemma_excls_pass_props(cur@);
                        assert(fix_excl(cur@) == fix_excl(nx@));
                    }
                    cur = nx;
                } else {
                    proof {
                        assert(nx@ == cur@);
                    }
                    fp2 = true;
                }
            }
            proof {
                assert(fix_excl(cur@) == cur@);
                assert(pruned_row(self@, r as int) == Some(cur@));
            }
            let mut k2: usize = 0;
            while k2 < 9
                invariant
                    k2 <= 9,
                    r < 9,
                    cur@.len() == 9,
                    out@.len() == r * 9 + k2,
                    pruned_row(self@, r as int) == Some(cur@),
                    forall|rr: int| 0 <= rr < r ==> (#[trigger] pruned_row(self@, rr)) is Some,
                    forall|rr: int, k3: int| 0 <= rr < r && 0 <= k3 < 9 ==>
                        #[trigger] out@[rr * 9 + k3] == pruned_row(self@, rr)->Some_0[k3],
                    forall|t: int| 0 <= t < k2 ==> (#[trigger] out@[r * 9 + t]) == cur@[t],
                decreases 9 - k2,
            {
                out.push(cur[k2]);
                k2 += 1;
            }
            r += 1;
        }
        proof {
            match prune_grid_spec(self@) {
                None => {
                    assert(exists|rr: int| 0 <= rr < 9
                        && !((#[trigger] pruned_row(self@, rr)) is Some));
                    assert(false);
                },
                Some(p) => {
                    assert forall|i: int| 0 <= i < 81 implies out@[i] == p[i] by {
                        let rr = i / 9;
                        let kk = i % 9;
                        assert(0 <= rr < 9 && 0 <= kk < 9 && i == rr * 9 + kk);
                        assert(out@[rr * 9 + kk] == pruned_row(self@, rr)->Some_0[kk]);
                        assert(p[rr * 9 + kk] == pruned_row(self@, rr)->Some_0[kk]);
                    }
                    assert(out@ =~= p);
                },
            }
        }
        Some(Grid::from_vec(out))
    }

    /// Prunes the grid along rows, columns, and boxes, repeating the full
    /// three-axis cycle until the grid value stops changing, or `None`
    /// when any step reports the grid unsolvable.
    pub fn prune_grid_all(&self) -> (res: Option<Grid>)
        requires
            self.wf(),
        ensures
            res is None <==> propagate(self@) is None,
            res matches Some(g) ==> Some(g@) == propagate(self@) && g.wf() && refines(g@, self@),
        decreases masks_total(self@),
    {
        proof {
            lemma_cycle_props(self@);
            lemma_propagate_props(self@);
        }
        match self.prune_grid() {
            None => None,
            Some(g1) => {
                proof { lemma_transforms_preserve_wf(g1@); }
                let t = g1.transpose();
                match t.prune_grid() {
                    None => None,
                    Some(q) => {
                        proof { lemma_transforms_preserve_wf(q@); }
                        let g2 = q.transpose();
                        proof { lemma_transforms_preserve_wf(g2@); }
                        let bv = g2.blocks();
                        match bv.prune_grid() {
                            None => None,
                            Some(w) => {
                                proof { lemma_transforms_preserve_wf(w@); }
                                let g3 = w.blocks();
                                proof {
                                    assert(cycle(self@) == Some(g3@));
                                    lemma_transforms_preserve_wf(g3@);
                                }
                                if g3.equals(self) {
                                    Some(g3)
                                } else {
                                    g3.prune_grid_all()
                                }
                            },
                        }
                    },
                }
            },
        }
    }
}

} // verus!
