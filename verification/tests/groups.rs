use rustc_hash::FxHashSet;
use sudoku::grid::all_digits;
use sudoku::grid::all_hold;
use sudoku::grid::number_set;
use sudoku::grid::Sudoku;

fn solved_lines() -> Vec<Option<String>> {
    vec![
        Some("534 678 912".to_string()),
        Some("672 195 348".to_string()),
        Some("198 342 567".to_string()),
        Some("".to_string()),
        Some("859 761 423".to_string()),
        Some("426 853 791".to_string()),
        Some("713 924 856".to_string()),
        Some("".to_string()),
        Some("961 537 284".to_string()),
        Some("287 419 635".to_string()),
        Some("345 286 179".to_string()),
    ]
}

#[test]
fn lines_are_the_rows() {
    let grid = Sudoku::new(&solved_lines()).unwrap();
    let lines = grid.get_lines();
    assert_eq!(lines.len(), 9);
    assert_eq!(lines[0], vec![5, 3, 4, 6, 7, 8, 9, 1, 2]);
    assert_eq!(lines[4], vec![4, 2, 6, 8, 5, 3, 7, 9, 1]);
    assert_eq!(lines[8], vec![3, 4, 5, 2, 8, 6, 1, 7, 9]);
}

#[test]
fn columns_run_top_to_bottom() {
    let grid = Sudoku::new(&solved_lines()).unwrap();
    let columns = grid.get_columns();
    assert_eq!(columns.len(), 9);
    assert_eq!(columns[0], vec![5, 6, 1, 8, 4, 7, 9, 2, 3]);
    assert_eq!(columns[3], vec![6, 1, 3, 7, 8, 9, 5, 4, 2]);
    assert_eq!(columns[8], vec![2, 8, 7, 3, 1, 6, 4, 5, 9]);
}

#[test]
fn squares_are_row_major() {
    let grid = Sudoku::new(&solved_lines()).unwrap();
    let squares = grid.get_squares();
    assert_eq!(squares.len(), 9);
    assert_eq!(squares[0], vec![5, 3, 4, 6, 7, 2, 1, 9, 8]);
    assert_eq!(squares[1], vec![6, 7, 8, 1, 9, 5, 3, 4, 2]);
    assert_eq!(squares[3], vec![8, 5, 9, 4, 2, 6, 7, 1, 3]);
    assert_eq!(squares[8], vec![2, 8, 4, 6, 3, 5, 1, 7, 9]);
}

#[test]
fn full_grid_is_solved() {
    let grid = Sudoku::new(&solved_lines()).unwrap();
    assert!(grid.is_solved());
}

#[test]
fn grid_with_an_empty_cell_is_not_solved() {
    let mut lines = solved_lines();
    lines[5] = Some("426 8.3 791".to_string());
    let grid = Sudoku::new(&lines).unwrap();
    assert!(!grid.is_solved());
}

#[test]
fn grid_with_a_repeated_digit_is_not_solved() {
    let mut lines = solved_lines();
    lines[0] = Some("534 678 911".to_string());
    let grid = Sudoku::new(&lines).unwrap();
    assert!(!grid.is_solved());
}

#[test]
fn swapped_rows_break_the_boxes_only() {
    let mut lines = solved_lines();
    lines[2] = Some("859 761 423".to_string());
    lines[4] = Some("198 342 567".to_string());
    let grid = Sudoku::new(&lines).unwrap();
    let full = all_digits();
    assert!(all_hold(&grid.get_lines(), &full));
    assert!(all_hold(&grid.get_columns(), &full));
    assert!(!all_hold(&grid.get_squares(), &full));
    assert!(!grid.is_solved());
}

#[test]
fn copy_holds_the_same_cells() {
    let grid = Sudoku::new(&solved_lines()).unwrap();
    let twin = grid.copy();
    assert_eq!(twin.get_lines(), grid.get_lines());
}

#[test]
fn copy_is_not_changed_with_the_grid() {
    let mut lines = solved_lines();
    lines[0] = Some("... 678 912".to_string());
    let mut grid = Sudoku::new(&lines).unwrap();
    let twin = grid.copy();
    assert_eq!(grid.solve(), Ok(()));
    assert_eq!(twin.get_lines()[0], vec![0, 0, 0, 6, 7, 8, 9, 1, 2]);
    assert_eq!(grid.get_lines()[0], vec![5, 3, 4, 6, 7, 8, 9, 1, 2]);
}

#[test]
fn all_digits_are_one_to_nine() {
    let full = all_digits();
    let mut expected = FxHashSet::default();
    for d in 1..10u8 {
        expected.insert(d);
    }
    assert_eq!(full, expected);
}

#[test]
fn number_set_forgets_order_and_repeats() {
    let held = number_set(&vec![3, 1, 3, 2, 1]);
    let mut expected = FxHashSet::default();
    expected.insert(1u8);
    expected.insert(2u8);
    expected.insert(3u8);
    assert_eq!(held, expected);
}

#[test]
fn neighbors_of_the_first_cell() {
    let got = Sudoku::get_neighbor_indices(0);
    let mut expected = FxHashSet::default();
    for k in [1u8, 2, 3, 4, 5, 6, 7, 8, 9, 18, 27, 36, 45, 54, 63, 72, 10, 11, 19, 20] {
        expected.insert(k);
    }
    assert_eq!(got.len(), 20);
    assert_eq!(got, expected);
}

#[test]
fn neighbors_of_the_middle_cell() {
    let got = Sudoku::get_neighbor_indices(40);
    let mut expected = FxHashSet::default();
    for k in [36u8, 37, 38, 39, 41, 42, 43, 44, 4, 13, 22, 31, 49, 58, 67, 76, 30, 32, 48, 50] {
        expected.insert(k);
    }
    assert_eq!(got, expected);
}

#[test]
fn every_cell_has_twenty_neighbors_and_is_none_of_them() {
    for k in 0..81u8 {
        let got = Sudoku::get_neighbor_indices(k);
        assert_eq!(got.len(), 20);
        assert!(!got.contains(&k));
        for j in got {
            assert!(Sudoku::get_neighbor_indices(j).contains(&k));
        }
    }
}
