use sudoku::Board;
use sudoku::BoardIter;

const SOLVED_4X4: &str = "1234341221434321";

#[test]
fn solve_on_solved_board_is_identity() {
    let mut b = Board::new();
    assert!(b.read(SOLVED_4X4));
    let before = b.print(false);
    let solved = b.solve().expect("a solved board solves to itself");
    assert_eq!(solved.print(false), before);
}

#[test]
fn solve_4x4_puzzle() {
    // the solved grid with four cells blanked out; the givens force it back
    let mut b = Board::new();
    assert!(b.read(".2343.1221.3432."));
    let solved = b.solve().expect("the puzzle has a solution");
    assert_eq!(solved.print(false), format!("{}\n", SOLVED_4X4));
}

#[test]
fn solve_rejects_dead_puzzle() {
    // row 0 needs a 4 in its last cell, but the column already has one:
    // 123. in row 0 and a fixed 4 below the blank
    let mut b = Board::new();
    assert!(b.read("123....4........"));
    assert!(b.solve().is_none());
}

#[test]
fn solve_empty_9x9_terminates_with_valid_solution() {
    let mut b = Board::new();
    assert!(b.read(&".".repeat(81)));
    let solved = b.solve().expect("an empty board has solutions");
    let text = solved.print(false);
    assert_eq!(text.len(), 82);
    assert!(!text.contains('.'));
    // reading the solution back succeeds, which re-checks every constraint
    let mut again = Board::new();
    assert!(again.read(text.trim_end()));
}

#[test]
fn generate_base2_then_solve_succeeds() {
    let puzzle = Board::generate(2);
    let text = puzzle.print(false);
    assert_eq!(text.len(), 17);
    let solved = puzzle.solve().expect("a generated puzzle stays solvable");
    let solved_text = solved.print(false);
    assert!(!solved_text.contains('.'));
}

#[test]
fn generate_base3_then_solve_succeeds() {
    let puzzle = Board::generate(3);
    let text = puzzle.print(false);
    assert_eq!(text.len(), 82);
    // the puzzle's givens are consistent: its own text reads back
    let mut copy = Board::new();
    assert!(copy.read(text.trim_end()));
    let solved = puzzle.solve().expect("a generated puzzle stays solvable");
    assert!(!solved.print(false).contains('.'));
}

#[test]
fn canonical_solution_is_a_valid_solved_board() {
    // the generator's deterministic last resort: fully placed and valid
    let b = sudoku::canonical_solution(3);
    let text = b.print(false);
    assert_eq!(text.len(), 82);
    assert!(!text.contains('.'));
    // reading it back re-checks every line, column and block constraint
    let mut again = Board::new();
    assert!(again.read(text.trim_end()));
    let b2 = sudoku::canonical_solution(2);
    assert_eq!(b2.print(false).len(), 17);
}

#[test]
fn line_iterator_walks_one_line() {
    let mut b = Board::new();
    assert!(b.read(&".".repeat(16)));
    let mut it = b.line_iter(1);
    let mut seen = Vec::new();
    while let Some(idx) = it.next() {
        seen.push(idx);
    }
    assert_eq!(seen, vec![4, 5, 6, 7]);
}

#[test]
fn col_iterator_walks_one_column() {
    let mut b = Board::new();
    assert!(b.read(&".".repeat(16)));
    let mut it = b.col_iter(2);
    let mut seen = Vec::new();
    while let Some(idx) = it.next() {
        seen.push(idx);
    }
    assert_eq!(seen, vec![2, 6, 10, 14]);
}

#[test]
fn quad_iterator_walks_one_block() {
    let mut b = Board::new();
    assert!(b.read(&".".repeat(16)));
    let mut it = b.quad_iter(1);
    let mut seen = Vec::new();
    while let Some(idx) = it.next() {
        seen.push(idx);
    }
    assert_eq!(seen, vec![2, 3, 6, 7]);
}

#[test]
fn field_iterator_walks_all_cells() {
    let mut b = Board::new();
    assert!(b.read(&".".repeat(16)));
    let mut it = b.iter();
    let mut count: usize = 0;
    while let Some(idx) = it.next() {
        assert_eq!(idx, count);
        count += 1;
    }
    assert_eq!(count, 16);
}

#[test]
fn out_of_range_groups_degrade_to_group_zero() {
    let mut b = Board::new();
    assert!(b.read(&".".repeat(16)));
    let mut it = b.line_iter(99);
    assert_eq!(it.next(), Some(0));
    let mut it = b.col_iter(99);
    assert_eq!(it.next(), Some(0));
    let mut it = b.quad_iter(99);
    assert_eq!(it.next(), Some(0));
}

#[test]
fn direct_iterator_constructors_match_board_ones() {
    let mut b = Board::new();
    assert!(b.read(&".".repeat(16)));
    let mut it = BoardIter::new_quad_iter(&b, 3, 1);
    // the block containing line 3, column 1 starts at its block origin
    assert_eq!(it.next(), Some(8));
    assert_eq!(it.next(), Some(9));
    assert_eq!(it.next(), Some(12));
    assert_eq!(it.next(), Some(13));
    assert_eq!(it.next(), None);
}
