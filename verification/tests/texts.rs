use sudoku::grid::Sudoku;
use sudoku::text::decimal;
use sudoku::text::digit_text;
use sudoku::text::LoadError;

fn lines_of(rows: &[&str]) -> Vec<Option<String>> {
    let mut lines = Vec::new();
    for row in rows {
        lines.push(Some(row.to_string()));
    }
    lines
}

fn puzzle_rows() -> [&'static str; 11] {
    [
        "53. .7. ...",
        "6.. 195 ...",
        ".98 ... .6.",
        "",
        "8.. .6. ..3",
        "4.. 8.3 ..1",
        "7.. .2. ..6",
        "",
        ".6. ... 28.",
        "... 419 ..5",
        "... .8. .79",
    ]
}

#[test]
fn text_is_read_cell_by_cell() {
    let grid = Sudoku::new(&lines_of(&puzzle_rows())).unwrap();
    let lines = grid.get_lines();
    assert_eq!(lines[0], vec![5, 3, 0, 0, 7, 0, 0, 0, 0]);
    assert_eq!(lines[1], vec![6, 0, 0, 1, 9, 5, 0, 0, 0]);
    assert_eq!(lines[3], vec![8, 0, 0, 0, 6, 0, 0, 0, 3]);
    assert_eq!(lines[8], vec![0, 0, 0, 0, 8, 0, 0, 7, 9]);
}

#[test]
fn separators_are_not_read() {
    let grid = Sudoku::new(&lines_of(&[
        "123|456|789",
        "...x...y...",
        "...........",
        "---+---+---",
        "..7.......1",
    ]))
    .unwrap();
    let lines = grid.get_lines();
    assert_eq!(lines[0], vec![1, 2, 3, 4, 5, 6, 7, 8, 9]);
    assert_eq!(lines[1], vec![0; 9]);
    assert_eq!(lines[3], vec![0, 0, 7, 0, 0, 0, 0, 0, 1]);
    assert_eq!(lines[4], vec![0; 9]);
}

#[test]
fn no_lines_give_the_empty_grid() {
    let grid = Sudoku::new(&Vec::new()).unwrap();
    assert_eq!(grid.get_lines(), vec![vec![0u8; 9]; 9]);
}

#[test]
fn zero_is_an_empty_cell() {
    let grid = Sudoku::new(&lines_of(&["103 000 009"])).unwrap();
    assert_eq!(grid.get_lines()[0], vec![1, 0, 3, 0, 0, 0, 0, 0, 9]);
}

#[test]
fn unreadable_line_counts_but_fills_no_row() {
    let lines = vec![
        Some("1.. ... ...".to_string()),
        None,
        Some("2.. ... ...".to_string()),
        Some("3.. ... ...".to_string()),
        Some("4.. ... ...".to_string()),
    ];
    let grid = Sudoku::new(&lines).unwrap();
    let columns = grid.get_columns();
    assert_eq!(columns[0], vec![1, 2, 4, 0, 0, 0, 0, 0, 0]);
}

#[test]
fn letter_in_a_cell_is_a_bad_digit() {
    let got = Sudoku::new(&lines_of(&["12a ... ..."]));
    assert_eq!(got.err(), Some(LoadError::BadDigit));
}

#[test]
fn space_in_a_cell_is_a_bad_digit() {
    let got = Sudoku::new(&lines_of(&["1 3 ... ..."]));
    assert_eq!(got.err(), Some(LoadError::BadDigit));
}

#[test]
fn digit_of_another_script_is_a_bad_digit() {
    let got = Sudoku::new(&lines_of(&["\u{0663}.. ... ..."]));
    assert_eq!(got.err(), Some(LoadError::BadDigit));
}

#[test]
fn digit_after_the_last_cell_is_out_of_grid() {
    let mut rows = puzzle_rows().to_vec();
    rows.push("1");
    let got = Sudoku::new(&lines_of(&rows));
    assert_eq!(got.err(), Some(LoadError::OutOfGrid));
    let mut rows = puzzle_rows().to_vec();
    rows[10] = "... .8. .794";
    let got = Sudoku::new(&lines_of(&rows));
    assert_eq!(got.err(), Some(LoadError::OutOfGrid));
}

#[test]
fn dots_after_the_last_cell_are_passed_over() {
    let mut rows = puzzle_rows().to_vec();
    rows.push("... ...");
    let grid = Sudoku::new(&lines_of(&rows)).unwrap();
    assert_eq!(grid.get_lines()[8], vec![0, 0, 0, 0, 8, 0, 0, 7, 9]);
}

#[test]
fn long_line_runs_into_the_next_row() {
    let grid = Sudoku::new(&lines_of(&["... ... ...12", "... ... ..."])).unwrap();
    let lines = grid.get_lines();
    assert_eq!(lines[0], vec![0; 9]);
    assert_eq!(lines[1], vec![1, 2, 0, 0, 0, 0, 0, 0, 0]);
}

#[test]
fn grid_is_shown_in_boxes() {
    let grid = Sudoku::new(&lines_of(&puzzle_rows())).unwrap();
    let expected = "53. .7. ...\n6.. 195 ...\n.98 ... .6.\n\n8.. .6. ..3\n4.. 8.3 ..1\n7.. .2. ..6\n\n.6. ... 28.\n... 419 ..5\n... .8. .79\n";
    assert_eq!(grid.show(), expected);
}

#[test]
fn empty_grid_is_shown_as_dots() {
    let grid = Sudoku::new(&Vec::new()).unwrap();
    let row = "... ... ...\n";
    let expected = format!("{}{}{}\n{}{}{}\n{}{}{}", row, row, row, row, row, row, row, row, row);
    assert_eq!(grid.show(), expected);
}

#[test]
fn shown_grid_reads_back() {
    let mut grid = Sudoku::new(&lines_of(&puzzle_rows())).unwrap();
    assert_eq!(grid.solve(), Ok(()));
    let text = grid.show();
    let mut lines = Vec::new();
    for line in text.lines() {
        lines.push(Some(line.to_string()));
    }
    let again = Sudoku::new(&lines).unwrap();
    assert_eq!(again.get_lines(), grid.get_lines());
}

#[test]
fn decimal_digits_have_their_value() {
    assert_eq!(decimal('0'), Some(0));
    assert_eq!(decimal('7'), Some(7));
    assert_eq!(decimal('9'), Some(9));
    assert_eq!(decimal('/'), None);
    assert_eq!(decimal(':'), None);
    assert_eq!(decimal('.'), None);
    assert_eq!(decimal('a'), None);
}

#[test]
fn digits_have_their_text() {
    assert_eq!(digit_text(1), "1");
    assert_eq!(digit_text(5), "5");
    assert_eq!(digit_text(9), "9");
}
