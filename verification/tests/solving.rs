use sudoku::grid::Sudoku;
use sudoku::solver::Unsolvable;

fn grid_of(rows: [&str; 9]) -> Sudoku {
    let lines: Vec<Option<String>> = vec![
        Some(rows[0].to_string()),
        Some(rows[1].to_string()),
        Some(rows[2].to_string()),
        Some(String::new()),
        Some(rows[3].to_string()),
        Some(rows[4].to_string()),
        Some(rows[5].to_string()),
        Some(String::new()),
        Some(rows[6].to_string()),
        Some(rows[7].to_string()),
        Some(rows[8].to_string()),
    ];
    Sudoku::new(&lines).unwrap()
}

fn puzzle() -> Sudoku {
    grid_of([
        "53. .7. ...",
        "6.. 195 ...",
        ".98 ... .6.",
        "8.. .6. ..3",
        "4.. 8.3 ..1",
        "7.. .2. ..6",
        ".6. ... 28.",
        "... 419 ..5",
        "... .8. .79",
    ])
}

fn empty() -> Sudoku {
    grid_of([
        "... ... ...",
        "... ... ...",
        "... ... ...",
        "... ... ...",
        "... ... ...",
        "... ... ...",
        "... ... ...",
        "... ... ...",
        "... ... ...",
    ])
}

#[test]
fn published_puzzle_gives_its_solution() {
    let mut grid = puzzle();
    assert_eq!(grid.solve(), Ok(()));
    assert_eq!(
        grid.get_lines(),
        vec![
            vec![5, 3, 4, 6, 7, 8, 9, 1, 2],
            vec![6, 7, 2, 1, 9, 5, 3, 4, 8],
            vec![1, 9, 8, 3, 4, 2, 5, 6, 7],
            vec![8, 5, 9, 7, 6, 1, 4, 2, 3],
            vec![4, 2, 6, 8, 5, 3, 7, 9, 1],
            vec![7, 1, 3, 9, 2, 4, 8, 5, 6],
            vec![9, 6, 1, 5, 3, 7, 2, 8, 4],
            vec![2, 8, 7, 4, 1, 9, 6, 3, 5],
            vec![3, 4, 5, 2, 8, 6, 1, 7, 9],
        ]
    );
    assert!(grid.is_solved());
}

#[test]
fn puzzle_that_needs_search_gives_its_solution() {
    let mut grid = grid_of([
        "8.. ... ...",
        "..3 6.. ...",
        ".7. .9. 2..",
        ".5. ..7 ...",
        "... .45 7..",
        "... 1.. .3.",
        "..1 ... .68",
        "..8 5.. .1.",
        ".9. ... 4..",
    ]);
    assert_eq!(grid.solve(), Ok(()));
    assert!(grid.is_solved());
    assert_eq!(
        grid.get_lines(),
        vec![
            vec![8, 1, 2, 7, 5, 3, 6, 4, 9],
            vec![9, 4, 3, 6, 8, 2, 1, 7, 5],
            vec![6, 7, 5, 4, 9, 1, 2, 8, 3],
            vec![1, 5, 4, 2, 3, 7, 8, 9, 6],
            vec![3, 6, 9, 8, 4, 5, 7, 2, 1],
            vec![2, 8, 7, 1, 6, 9, 5, 3, 4],
            vec![5, 2, 1, 9, 7, 4, 3, 6, 8],
            vec![4, 3, 8, 5, 2, 6, 9, 1, 7],
            vec![7, 9, 6, 3, 1, 8, 4, 5, 2],
        ]
    );
}

#[test]
fn solving_twice_gives_the_same_grid() {
    let mut first = empty();
    let mut second = empty();
    assert_eq!(first.solve(), Ok(()));
    assert_eq!(second.solve(), Ok(()));
    assert_eq!(first.get_lines(), second.get_lines());
    let mut third = puzzle();
    let mut fourth = puzzle();
    assert_eq!(third.solve(), fourth.solve());
    assert_eq!(third.get_lines(), fourth.get_lines());
}

#[test]
fn empty_grid_is_filled_with_a_valid_grid() {
    let mut grid = empty();
    assert!(!grid.is_solved());
    assert_eq!(grid.solve(), Ok(()));
    assert!(grid.is_solved());
    for line in grid.get_lines() {
        for digit in line {
            assert!(1 <= digit && digit <= 9);
        }
    }
}

#[test]
fn given_digits_stay_in_place() {
    let given = puzzle();
    let mut grid = given.copy();
    assert_eq!(grid.solve(), Ok(()));
    let before = given.get_lines();
    let after = grid.get_lines();
    for i in 0..9 {
        for j in 0..9 {
            if before[i][j] != 0 {
                assert_eq!(after[i][j], before[i][j]);
            }
        }
    }
}

#[test]
fn cell_without_candidate_is_unsolvable() {
    let mut grid = grid_of([
        "123 456 78.",
        "... ... ..9",
        "... ... ...",
        "... ... ...",
        "... ... ...",
        "... ... ...",
        "... ... ...",
        "... ... ...",
        "... ... ...",
    ]);
    let before = grid.get_lines();
    assert_eq!(grid.solve(), Err(Unsolvable));
    assert_eq!(grid.get_lines(), before);
}

#[test]
fn twice_the_same_digit_in_a_row_is_unsolvable() {
    let mut grid = grid_of([
        "1.. ... 1..",
        "... ... ...",
        "... ... ...",
        "... ... ...",
        "... ... ...",
        "... ... ...",
        "... ... ...",
        "... ... ...",
        "... ... ...",
    ]);
    let before = grid.get_lines();
    assert_eq!(grid.solve(), Err(Unsolvable));
    assert_eq!(grid.get_lines(), before);
    assert!(!grid.is_solved());
}

#[test]
fn twice_the_same_digit_in_a_column_is_unsolvable() {
    let mut grid = grid_of([
        "... .7. ...",
        "... ... ...",
        "... ... ...",
        "... ... ...",
        "... ... ...",
        "... ... ...",
        "... ... ...",
        "... ... ...",
        "... .7. ...",
    ]);
    let before = grid.get_lines();
    assert_eq!(grid.solve(), Err(Unsolvable));
    assert_eq!(grid.get_lines(), before);
}

#[test]
fn twice_the_same_digit_in_a_box_is_unsolvable() {
    let mut grid = grid_of([
        "... ... ...",
        "... ... ...",
        "... ... ...",
        "... ... ...",
        "... ... ...",
        "... ... ...",
        "... ... 9..",
        "... ... ...",
        "... ... ..9",
    ]);
    let before = grid.get_lines();
    assert_eq!(grid.solve(), Err(Unsolvable));
    assert_eq!(grid.get_lines(), before);
}

#[test]
fn clash_that_leaves_a_candidate_is_unsolvable() {
    let mut grid = grid_of([
        ".44 678 912",
        "672 195 348",
        "198 342 567",
        "859 761 423",
        "426 853 791",
        "713 924 856",
        "961 537 284",
        "287 419 635",
        "345 286 179",
    ]);
    let before = grid.get_lines();
    assert_eq!(grid.solve(), Err(Unsolvable));
    assert_eq!(grid.get_lines(), before);
    assert_eq!(grid.get_lines()[0], vec![0, 4, 4, 6, 7, 8, 9, 1, 2]);
    assert!(!grid.is_solved());
}

#[test]
fn clash_that_leaves_no_candidate_is_unsolvable() {
    let mut grid = grid_of([
        "534 678 918",
        "672 195 34.",
        "198 342 567",
        "859 761 423",
        "426 853 791",
        "713 924 856",
        "961 537 284",
        "287 419 635",
        "345 286 179",
    ]);
    let before = grid.get_lines();
    assert_eq!(grid.solve(), Err(Unsolvable));
    assert_eq!(grid.get_lines(), before);
}

#[test]
fn full_grid_with_a_clash_is_unsolvable() {
    let mut grid = grid_of([
        "534 678 912",
        "672 195 348",
        "198 342 567",
        "859 761 423",
        "426 853 791",
        "713 924 856",
        "961 537 284",
        "287 419 635",
        "345 286 171",
    ]);
    let before = grid.get_lines();
    assert_eq!(grid.solve(), Err(Unsolvable));
    assert_eq!(grid.get_lines(), before);
    assert!(!grid.is_solved());
}

#[test]
fn grid_of_ones_is_unsolvable() {
    let mut grid = grid_of([
        "111 111 111",
        "111 111 111",
        "111 111 111",
        "111 111 111",
        "111 111 111",
        "111 111 111",
        "111 111 111",
        "111 111 111",
        "111 111 111",
    ]);
    assert_eq!(grid.solve(), Err(Unsolvable));
    assert_eq!(grid.get_lines(), vec![vec![1u8; 9]; 9]);
    assert!(!grid.is_solved());
}

#[test]
fn success_is_always_a_solved_grid() {
    let rows = [
        "53. .7. ...",
        "6.. 195 ...",
        ".98 ... .6.",
        "8.. .6. ..3",
        "4.. 8.3 ..1",
        "7.. .2. ..6",
        ".6. ... 28.",
        "... 419 ..5",
        "... .8. .79",
    ];
    for digit in ['1', '5', '9'] {
        for at in [0usize, 2, 6, 10] {
            let mut changed: Vec<String> = rows.iter().map(|row| row.to_string()).collect();
            let mut cells: Vec<char> = changed[4].chars().collect();
            cells[at] = digit;
            changed[4] = cells.into_iter().collect();
            let mut grid = grid_of([
                &changed[0], &changed[1], &changed[2], &changed[3], &changed[4], &changed[5],
                &changed[6], &changed[7], &changed[8],
            ]);
            let before = grid.get_lines();
            match grid.solve() {
                Ok(()) => {
                    assert!(grid.is_solved());
                    let after = grid.get_lines();
                    for i in 0..9 {
                        for j in 0..9 {
                            assert!(before[i][j] == 0 || before[i][j] == after[i][j]);
                        }
                    }
                }
                Err(Unsolvable) => assert_eq!(grid.get_lines(), before),
            }
        }
    }
}

#[test]
fn solved_grid_stays_as_it_is() {
    let mut grid = puzzle();
    assert_eq!(grid.solve(), Ok(()));
    let lines = grid.get_lines();
    assert_eq!(grid.solve(), Ok(()));
    assert_eq!(grid.get_lines(), lines);
}

#[test]
fn highest_digit_is_tried_first() {
    let mut grid = empty();
    assert_eq!(grid.solve(), Ok(()));
    assert_eq!(grid.get_lines()[0][0], 9);
}
