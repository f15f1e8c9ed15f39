use sudoku::grid::Grid;

const CLASSIC: &[u8; 81] =
    b"53..7....6..195....98....6.8...6...34..8.3..17...2...6.6....28....419..5....8..79";
const CLASSIC_SOLVED: &[u8; 81] =
    b"534678912672195348198342567859761423426853791713924856961537284287419635345286179";
const SEVENTEEN_CLUES: &[u8; 81] =
    b".......1.4.........2...........5.4.7..8...3....1.9....3..4..2...5.1........8.6...";
const SEVENTEEN_SOLVED: &[u8; 81] =
    b"693784512487512936125963874932651487568247391741398625319475268856129743274836159";

#[test]
fn parse_accepts_classic_line() {
    let g = Grid::parse(CLASSIC).expect("well-formed line");
    assert_eq!(g.digits(), CLASSIC.to_vec());
}

#[test]
fn parse_rejects_zero_digit() {
    let mut line = *CLASSIC;
    line[0] = b'0';
    assert!(Grid::parse(&line).is_none());
}

#[test]
fn parse_rejects_letter() {
    let mut line = *CLASSIC;
    line[17] = b'x';
    assert!(Grid::parse(&line).is_none());
}

#[test]
fn parse_rejects_wrong_length() {
    assert!(Grid::parse(b"53..7....").is_none());
    let mut long = CLASSIC.to_vec();
    long.push(b'.');
    assert!(Grid::parse(&long).is_none());
}

#[test]
fn malformed_input_differs_from_unsolvable() {
    // a bad character never reaches the solver ...
    let mut line = *CLASSIC;
    line[3] = b'0';
    assert!(Grid::parse(&line).is_none());
    // ... while a contradictory grid parses and then fails to solve
    let mut contradiction = [b'.'; 81];
    contradiction[0] = b'1';
    contradiction[1] = b'1';
    let g = Grid::parse(&contradiction).expect("well-formed line");
    assert!(g.solve().is_none());
}

#[test]
fn transpose_twice_is_identity() {
    let g = Grid::parse(CLASSIC).expect("well-formed line");
    assert!(g.transpose().transpose().equals(&g));
    assert!(!g.transpose().equals(&g));
}

#[test]
fn blocks_twice_is_identity() {
    let g = Grid::parse(CLASSIC).expect("well-formed line");
    assert!(g.blocks().blocks().equals(&g));
}

#[test]
fn propagation_is_idempotent_at_fixed_point() {
    let g = Grid::parse(SEVENTEEN_CLUES).expect("well-formed line");
    let p = g.prune_grid_all().expect("propagation succeeds");
    let again = p.prune_grid_all().expect("propagation succeeds again");
    assert!(again.equals(&p));
}

#[test]
fn solves_classic_puzzle() {
    let g = Grid::parse(CLASSIC).expect("well-formed line");
    let solved = g.solve().expect("the classic puzzle has a solution");
    assert!(solved.is_filled());
    assert!(!solved.is_invalid());
    assert_eq!(solved.digits(), CLASSIC_SOLVED.to_vec());
}

#[test]
fn reports_row_duplicate_as_unsolvable() {
    let mut line = [b'.'; 81];
    line[0] = b'1';
    line[1] = b'1';
    let g = Grid::parse(&line).expect("well-formed line");
    assert!(g.is_invalid());
    assert!(g.is_invalid_row());
    assert!(g.solve().is_none());
}

#[test]
fn reports_column_duplicate_as_unsolvable() {
    let mut line = [b'.'; 81];
    line[0] = b'7';
    line[9] = b'7';
    let g = Grid::parse(&line).expect("well-formed line");
    assert!(!g.is_invalid_row());
    assert!(g.is_invalid());
    assert!(g.solve().is_none());
}

#[test]
fn reports_box_duplicate_as_unsolvable() {
    let mut line = [b'.'; 81];
    line[0] = b'9';
    line[10] = b'9';
    let g = Grid::parse(&line).expect("well-formed line");
    assert!(!g.is_invalid_row());
    assert!(g.is_invalid());
    assert!(g.solve().is_none());
}

#[test]
fn returns_prefilled_grid_unchanged() {
    let g = Grid::parse(CLASSIC_SOLVED).expect("well-formed line");
    assert!(g.is_filled());
    assert!(!g.is_invalid());
    let solved = g.solve().expect("already solved");
    assert!(solved.equals(&g));
    assert_eq!(solved.digits(), CLASSIC_SOLVED.to_vec());
}

#[test]
fn rejects_prefilled_invalid_grid() {
    let mut line = *CLASSIC_SOLVED;
    line[0] = line[1];
    let g = Grid::parse(&line).expect("well-formed line");
    assert!(g.is_filled());
    assert!(g.is_invalid());
    assert!(g.solve().is_none());
}

#[test]
fn solves_seventeen_clue_puzzle() {
    let g = Grid::parse(SEVENTEEN_CLUES).expect("well-formed line");
    let solved = g.solve().expect("this puzzle has a unique solution");
    assert_eq!(solved.digits(), SEVENTEEN_SOLVED.to_vec());
}

#[test]
fn solution_respects_original_clues() {
    let g = Grid::parse(SEVENTEEN_CLUES).expect("well-formed line");
    let solved = g.solve().expect("solution exists");
    let out = solved.digits();
    for (i, &b) in SEVENTEEN_CLUES.iter().enumerate() {
        if b != b'.' {
            assert_eq!(out[i], b);
        }
    }
}

#[test]
fn solved_grid_lines_hold_each_digit_once() {
    let g = Grid::parse(CLASSIC).expect("well-formed line");
    let solved = g.solve().expect("solution exists");
    let views = [solved.to_cells(), solved.transpose().to_cells(), solved.blocks().to_cells()];
    for cells in views.iter() {
        for l in 0..9 {
            let mut seen = [false; 9];
            for k in 0..9 {
                match cells[l * 9 + k] {
                    sudoku::cell::Cell::Fixed(d) => {
                        let ix = d.trailing_zeros() as usize;
                        assert!(ix < 9);
                        assert!(!seen[ix]);
                        seen[ix] = true;
                    },
                    sudoku::cell::Cell::Possible(_) => panic!("open cell in a solved grid"),
                }
            }
            assert!(seen.iter().all(|&s| s));
        }
    }
}

#[test]
fn render_writes_nine_spaced_lines() {
    let g = Grid::parse(CLASSIC_SOLVED).expect("well-formed line");
    let text = String::from_utf8(g.render()).expect("ascii output");
    let lines: Vec<&str> = text.lines().collect();
    assert_eq!(lines.len(), 9);
    assert_eq!(lines[0], "5 3 4 6 7 8 9 1 2");
    assert_eq!(lines[8], "3 4 5 2 8 6 1 7 9");
    for line in lines {
        assert_eq!(line.len(), 17);
    }
}

#[test]
fn render_marks_open_cells_with_dots() {
    let g = Grid::parse(CLASSIC).expect("well-formed line");
    let text = String::from_utf8(g.render()).expect("ascii output");
    assert_eq!(text.lines().next().unwrap(), "5 3 . . 7 . . . .");
}

#[test]
fn grid_equality_is_structural() {
    let a = Grid::parse(CLASSIC).expect("well-formed line");
    let b = Grid::parse(CLASSIC).expect("well-formed line");
    let c = Grid::parse(SEVENTEEN_CLUES).expect("well-formed line");
    assert!(a.equals(&b));
    assert!(!a.equals(&c));
}

#[test]
fn solves_empty_grid() {
    // every cell open: many solutions exist, so the search must find one
    let g = Grid::parse(&[b'.'; 81]).expect("well-formed line");
    let solved = g.solve().expect("an empty grid is solvable");
    assert!(solved.is_filled());
    assert!(!solved.is_invalid());
}
