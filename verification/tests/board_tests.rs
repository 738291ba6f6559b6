use sudoku::Board;

const SOLVED_4X4: &str = "1234341221434321";

#[test]
fn read_rejects_unmatched_lengths() {
    for len in [1usize, 5, 15, 17, 33, 80, 82, 100] {
        let mut b = Board::new();
        let text: String = ".".repeat(len);
        assert!(!b.read(&text));
    }
}

#[test]
fn read_accepts_blank_boards() {
    let mut b = Board::new();
    assert!(b.read(&".".repeat(16)));
    let mut b = Board::new();
    assert!(b.read(&".".repeat(81)));
}

#[test]
fn read_rejects_conflicting_row() {
    // two 1s in the first row of a 9x9 board
    let mut text = String::from("11");
    text.push_str(&".".repeat(79));
    let mut b = Board::new();
    assert!(!b.read(&text));
}

#[test]
fn read_rejects_out_of_range_given() {
    // a 4x4 board admits only 1..=4
    let mut text = String::from("5");
    text.push_str(&".".repeat(15));
    let mut b = Board::new();
    assert!(!b.read(&text));
    let mut text = String::from("0");
    text.push_str(&".".repeat(15));
    let mut b = Board::new();
    assert!(!b.read(&text));
}

#[test]
fn place_on_fixed_cell_fails_and_keeps_board() {
    let mut b = Board::new();
    assert!(b.read(&".".repeat(16)));
    assert!(b.set_num_index(0, 0));
    let before = b.print(false);
    assert!(!b.set_num_index(0, 1));
    assert!(!b.set_num_index(0, 0));
    assert_eq!(b.print(false), before);
}

#[test]
fn place_rejects_peer_conflicts() {
    let mut b = Board::new();
    assert!(b.read(&".".repeat(16)));
    assert!(b.set_num_index(0, 0));
    // same line, same column, same block
    assert!(!b.set_num_index(1, 0));
    assert!(!b.set_num_index(4, 0));
    assert!(!b.set_num_index(5, 0));
    // a different value in the same block is fine
    assert!(b.set_num_index(5, 1));
}

#[test]
fn place_rejects_bad_arguments() {
    let mut b = Board::new();
    assert!(b.read(&".".repeat(16)));
    assert!(!b.set_num_index(0, 4));
    assert!(!b.set_num_index(16, 0));
    // a board without a shape accepts nothing
    let mut empty = Board::new();
    assert!(!empty.set_num_index(0, 0));
}

#[test]
fn place_peer_conflict_leaves_board_unchanged() {
    let mut b = Board::new();
    assert!(b.read(&".".repeat(16)));
    assert!(b.set_num_index(0, 0));
    // cell 9 is a peer of cell 1 (same column) but not of cell 0, so its
    // options would have been pruned first in a non-atomic scan
    assert!(b.get_option_list(9).unwrap().contains(&0));
    assert!(!b.set_num_index(1, 0));
    assert!(b.get_option_list(9).unwrap().contains(&0));
    assert_eq!(b.get_option_list(9).unwrap().len(), 4);
}

#[test]
fn first_candidate_is_least_option() {
    let mut b = Board::new();
    assert!(b.read(&".".repeat(16)));
    assert!(b.set_num_index(1, 0));
    // cell 0 lost the option 0 to its fixed peer; the head is the minimum
    assert_eq!(b.get_first_option_list(0), Some(1));
}

#[test]
fn candidates_drop_fixed_peer_values() {
    let mut b = Board::new();
    assert!(b.read(&".".repeat(16)));
    assert!(b.set_num_index(0, 2));
    // every peer of cell 0 lost the option 2
    for idx in [1usize, 2, 3, 4, 8, 12, 5] {
        let list = b.get_option_list(idx).expect("peer should still be open");
        assert!(!list.contains(&2));
    }
    // a cell sharing nothing with cell 0 keeps all four options
    let list = b.get_option_list(10).expect("cell 10 should be open");
    assert_eq!(list.len(), 4);
}

#[test]
fn clear_demotes_to_single_option() {
    let mut b = Board::new();
    assert!(b.read(&".".repeat(16)));
    assert!(b.set_num_index(0, 2));
    assert_eq!(b.get_num_index(0), Some(2));
    b.clear_num_index(0);
    assert_eq!(b.get_num_index(0), None);
    let list = b.get_option_list(0).expect("cleared cell is open");
    assert_eq!(list.as_slice(), &[2]);
    assert_eq!(b.get_first_option_list(0), Some(2));
}

#[test]
fn remove_from_option_list_strikes_one_value() {
    let mut b = Board::new();
    assert!(b.read(&".".repeat(16)));
    b.remove_from_option_list(3, 1);
    let list = b.get_option_list(3).expect("cell is open");
    assert_eq!(list.len(), 3);
    assert!(!list.contains(&1));
    // out-of-range arguments change nothing
    b.remove_from_option_list(99, 0);
    b.remove_from_option_list(3, 9);
    assert_eq!(b.get_option_list(3).unwrap().len(), 3);
}

#[test]
fn print_compact_round_trip() {
    let mut b = Board::new();
    assert!(b.read(SOLVED_4X4));
    let text = b.print(false);
    assert_eq!(text, format!("{}\n", SOLVED_4X4));
    // the printed line, without its newline, reads back to the same board
    let mut again = Board::new();
    assert!(again.read(text.trim_end()));
    assert_eq!(again.print(false), text);
}

#[test]
fn print_pretty_4x4() {
    let mut b = Board::new();
    assert!(b.read(SOLVED_4X4));
    assert_eq!(b.print(true), "12|34\n34|12\n-----\n21|43\n43|21\n-----\n");
}

#[test]
fn print_two_digit_fields() {
    // a 16x16 board renders two zero-padded digits per cell
    let mut b = Board::new();
    assert!(b.read(&".".repeat(512)));
    assert!(b.set_num_index(0, 11));
    let text = b.print(false);
    assert!(text.starts_with("12.."));
    assert_eq!(text.len(), 513);
}
