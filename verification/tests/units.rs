use sudoku::cell::Cell;
use sudoku::grid::Grid;

fn mask(c: Cell) -> u16 {
    match c {
        Cell::Fixed(d) => d,
        Cell::Possible(m) => m,
    }
}

#[test]
fn check_collapses_single_candidate() {
    let mut c = Cell::Possible(4);
    assert!(c.check());
    assert_eq!(c, Cell::Fixed(4));
}

#[test]
fn check_keeps_wide_cell() {
    let mut c = Cell::Possible(6);
    assert!(c.check());
    assert_eq!(c, Cell::Possible(6));
}

#[test]
fn check_reports_dead_cell() {
    let mut c = Cell::Possible(0);
    assert!(!c.check());
    assert_eq!(c, Cell::Possible(0));
}

#[test]
fn check_keeps_fixed_cell() {
    let mut c = Cell::Fixed(256);
    assert!(c.check());
    assert_eq!(c, Cell::Fixed(256));
}

#[test]
fn is_fixed_distinguishes() {
    assert!(Cell::Fixed(1).is_fixed());
    assert!(!Cell::Possible(511).is_fixed());
}

#[test]
fn prune_by_fixed_removes_known_digits() {
    let mut row = vec![Cell::Fixed(1)];
    for _ in 0..8 {
        row.push(Cell::Possible(511));
    }
    let (changed, out) = Grid::prune_cells_by_fixed(&row);
    assert!(changed);
    let out = out.expect("row stays alive");
    assert_eq!(out[0], Cell::Fixed(1));
    for k in 1..9 {
        assert_eq!(out[k], Cell::Possible(510));
    }
}

#[test]
fn prune_by_fixed_collapses_survivor() {
    // eight digits fixed: the open cell keeps only the ninth and collapses
    let mut row = Vec::new();
    for j in 0..8 {
        row.push(Cell::Fixed(1u16 << j));
    }
    row.push(Cell::Possible(511));
    let (changed, out) = Grid::prune_cells_by_fixed(&row);
    assert!(changed);
    let out = out.expect("row stays alive");
    assert_eq!(out[8], Cell::Fixed(256));
}

#[test]
fn prune_by_fixed_detects_dead_cell() {
    let mut row = vec![Cell::Fixed(1), Cell::Fixed(2), Cell::Possible(3)];
    for _ in 0..6 {
        row.push(Cell::Possible(511));
    }
    let (_, out) = Grid::prune_cells_by_fixed(&row);
    assert!(out.is_none());
}

#[test]
fn prune_by_fixed_reports_no_change() {
    let mut row = vec![Cell::Fixed(1)];
    for _ in 0..8 {
        row.push(Cell::Possible(510));
    }
    let (changed, out) = Grid::prune_cells_by_fixed(&row);
    assert!(!changed);
    assert_eq!(out.expect("alive"), row);
}

// digits 5 and 7 (masks 16 and 64) live exactly in cells 0 and 2
fn exclusive_pair_row() -> Vec<Cell> {
    vec![
        Cell::Possible(16 + 64 + 256),
        Cell::Possible(1 + 2 + 4),
        Cell::Possible(16 + 64),
        Cell::Possible(128 + 256),
        Cell::Possible(128 + 256),
        Cell::Fixed(8),
        Cell::Fixed(8),
        Cell::Fixed(8),
        Cell::Fixed(8),
    ]
}

#[test]
fn exclusive_possibilities_finds_pair() {
    let groups = Grid::exclusive_possibilities(&exclusive_pair_row());
    // reported once, at the slot of digit 5; every other slot is empty
    assert_eq!(groups, vec![0, 0, 0, 0, 16 + 64, 0, 0, 0, 0]);
}

#[test]
fn exclusive_pruning_cuts_extra_candidates() {
    let row = exclusive_pair_row();
    let (changed, out) = Grid::prune_cells_by_exclusives(&row);
    assert!(changed);
    assert_eq!(out[0], Cell::Possible(16 + 64));
    assert_eq!(out[1], row[1]);
    assert_eq!(out[2], row[2]);
    assert_eq!(out[3], row[3]);
}

#[test]
fn exclusive_pruning_reports_fixed_point() {
    let row = exclusive_pair_row();
    let (_, once) = Grid::prune_cells_by_exclusives(&row);
    let (changed, twice) = Grid::prune_cells_by_exclusives(&once);
    assert!(!changed);
    assert_eq!(twice, once);
}

#[test]
fn from_cells_accepts_valid_grid() {
    let cells = vec![Cell::Possible(511); 81];
    let g = Grid::from_cells(cells).expect("valid cells");
    assert!(!g.is_filled());
}

#[test]
fn from_cells_rejects_wrong_count() {
    assert!(Grid::from_cells(vec![Cell::Possible(511); 80]).is_none());
}

#[test]
fn from_cells_rejects_dead_cell() {
    let mut cells = vec![Cell::Possible(511); 81];
    cells[40] = Cell::Possible(0);
    assert!(Grid::from_cells(cells).is_none());
}

#[test]
fn branching_splits_candidates() {
    let line = b"53..7....6..195....98....6.8...6...34..8.3..17...2...6.6....28....419..5....8..79";
    let g = Grid::parse(line).expect("well-formed line");
    let (ga, gc) = g.next_grids();
    let orig = g.to_cells();
    let a = ga.to_cells();
    let c = gc.to_cells();
    // the first open cell is at index 2; the two siblings split its mask
    assert_eq!(a[2], Cell::Possible(510));
    assert_eq!(c[2], Cell::Fixed(1));
    assert_eq!(mask(a[2]) | mask(c[2]), mask(orig[2]));
    assert_eq!(mask(a[2]) & mask(c[2]), 0);
    for i in 0..81 {
        if i != 2 {
            assert_eq!(a[i], orig[i]);
            assert_eq!(c[i], orig[i]);
        }
    }
}
