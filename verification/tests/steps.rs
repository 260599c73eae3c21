use rustc_hash::FxHashMap;
use rustc_hash::FxHashSet;
use sudoku::grid::Sudoku;
use sudoku::masks::bit_of;
use sudoku::masks::ALL_DIGITS;
use sudoku::solver::blank_candidates;
use sudoku::solver::branch;
use sudoku::solver::check_givens;
use sudoku::solver::choose_pivot;
use sudoku::solver::eliminate;
use sudoku::solver::intersection;
use sudoku::solver::mask_at;
use sudoku::solver::neighbor_table;
use sudoku::solver::propagate;
use sudoku::solver::strike_given_digits;
use sudoku::solver::unknown_cells;

fn grid_of(rows: [&str; 9]) -> Sudoku {
    let mut lines: Vec<Option<String>> = Vec::new();
    for (i, row) in rows.iter().enumerate() {
        if i == 3 || i == 6 {
            lines.push(Some(String::new()));
        }
        lines.push(Some(row.to_string()));
    }
    Sudoku::new(&lines).unwrap()
}

fn almost_full() -> Sudoku {
    grid_of([
        "... 678 912",
        "672 195 348",
        "198 342 567",
        "859 761 423",
        "426 853 791",
        "713 924 856",
        "961 537 284",
        "287 419 635",
        "345 286 179",
    ])
}

fn start(grid: &Sudoku) -> (FxHashMap<u8, u16>, FxHashMap<u8, FxHashSet<u8>>) {
    let mut cands = blank_candidates(grid);
    let unknown = unknown_cells(&cands);
    let table = neighbor_table(&unknown);
    strike_given_digits(grid, &mut cands, &table);
    (cands, table)
}

#[test]
fn givens_that_differ_agree() {
    assert!(check_givens(&almost_full()));
    let empty = grid_of(["... ... ...", "... ... ...", "... ... ...", "... ... ...", "... ... ...", "... ... ...", "... ... ...", "... ... ...", "... ... ..."]);
    assert!(check_givens(&empty));
    let spread = grid_of(["1.. ... ...", "... 1.. ...", "... ... 1..", ".1. ... ...", "... .1. ...", "... ... .1.", "..1 ... ...", "... ..1 ...", "... ... ..1"]);
    assert!(check_givens(&spread));
}

#[test]
fn givens_that_clash_do_not_agree() {
    let row = grid_of(["2.. ... ..2", "... ... ...", "... ... ...", "... ... ...", "... ... ...", "... ... ...", "... ... ...", "... ... ...", "... ... ..."]);
    assert!(!check_givens(&row));
    let column = grid_of(["... ... ...", "... ... ...", "... ... ...", "..3 ... ...", "... ... ...", "... ... ...", "... ... ...", "... ... ...", "..3 ... ..."]);
    assert!(!check_givens(&column));
    let square = grid_of(["... ... ...", "... ... ...", "... ... ...", "... 8.. ...", "... ... ...", "... ..8 ...", "... ... ...", "... ... ...", "... ... ..."]);
    assert!(!check_givens(&square));
    let last = grid_of(["... ... ...", "... ... ...", "... ... ...", "... ... ...", "... ... ...", "... ... ...", "... ... ...", "... ... ...", "... ... .66"]);
    assert!(!check_givens(&last));
}

#[test]
fn bit_of_a_digit() {
    assert_eq!(bit_of(1), 0b1);
    assert_eq!(bit_of(2), 0b10);
    assert_eq!(bit_of(9), 0b1_0000_0000);
    assert_eq!(ALL_DIGITS, 0b1_1111_1111);
}

#[test]
fn empty_cells_get_every_digit() {
    let grid = almost_full();
    let cands = blank_candidates(&grid);
    assert_eq!(cands.len(), 3);
    assert_eq!(mask_at(&cands, 0), Some(0b1_1111_1111));
    assert_eq!(mask_at(&cands, 1), Some(0b1_1111_1111));
    assert_eq!(mask_at(&cands, 2), Some(0b1_1111_1111));
    assert_eq!(mask_at(&cands, 3), None);
    let unknown = unknown_cells(&cands);
    let mut expected = FxHashSet::default();
    expected.insert(0u8);
    expected.insert(1u8);
    expected.insert(2u8);
    assert_eq!(unknown, expected);
}

#[test]
fn table_holds_the_unknown_neighbors() {
    let mut unknown = FxHashSet::default();
    unknown.insert(0u8);
    unknown.insert(1u8);
    unknown.insert(40u8);
    unknown.insert(80u8);
    let table = neighbor_table(&unknown);
    assert_eq!(table.len(), 81);
    let mut of_zero = FxHashSet::default();
    of_zero.insert(1u8);
    assert_eq!(table[&0], of_zero);
    let mut of_four = FxHashSet::default();
    of_four.insert(0u8);
    of_four.insert(1u8);
    of_four.insert(40u8);
    assert_eq!(table[&4], of_four);
    assert_eq!(table[&50], {
        let mut s = FxHashSet::default();
        s.insert(40u8);
        s
    });
    assert!(table[&60].contains(&80));
    assert!(!table[&80].contains(&80));
}

#[test]
fn intersection_holds_the_common_items() {
    let mut a = FxHashSet::default();
    let mut b = FxHashSet::default();
    for x in [1u8, 2, 3, 4] {
        a.insert(x);
    }
    for x in [3u8, 4, 5] {
        b.insert(x);
    }
    let both = intersection(&a, &b);
    let mut expected = FxHashSet::default();
    expected.insert(3u8);
    expected.insert(4u8);
    assert_eq!(both, expected);
    assert_eq!(intersection(&a, &FxHashSet::default()), FxHashSet::default());
}

#[test]
fn given_digits_are_struck_from_their_neighbors() {
    let grid = almost_full();
    let (cands, _) = start(&grid);
    assert_eq!(mask_at(&cands, 0), Some(bit_of(5)));
    assert_eq!(mask_at(&cands, 1), Some(bit_of(3)));
    assert_eq!(mask_at(&cands, 2), Some(bit_of(4)));
    let grid = grid_of([
        "1.. ... ...",
        "... ... ...",
        "... ... ...",
        "... ... ...",
        "... ... ...",
        "... ... ...",
        "... ... ...",
        "... ... ...",
        "... ... ..2",
    ]);
    let (cands, _) = start(&grid);
    assert_eq!(cands.len(), 79);
    assert_eq!(mask_at(&cands, 1), Some(0b1_1111_1110));
    assert_eq!(mask_at(&cands, 8), Some(0b1_1111_1100));
    assert_eq!(mask_at(&cands, 40), Some(0b1_1111_1111));
    assert_eq!(mask_at(&cands, 79), Some(0b1_1111_1101));
}

#[test]
fn eliminate_strikes_around_one_cell() {
    let grid = grid_of(["... ... ...", "... ... ...", "... ... ...", "... ... ...", "... ... ...", "... ... ...", "... ... ...", "... ... ...", "... ... ..."]);
    let mut cands = blank_candidates(&grid);
    let table = neighbor_table(&unknown_cells(&cands));
    assert!(eliminate(&mut cands, &table, 40, 5));
    assert_eq!(mask_at(&cands, 40), Some(0b1_1111_1111));
    assert_eq!(mask_at(&cands, 41), Some(0b1_1110_1111));
    assert_eq!(mask_at(&cands, 4), Some(0b1_1110_1111));
    assert_eq!(mask_at(&cands, 30), Some(0b1_1110_1111));
    assert_eq!(mask_at(&cands, 0), Some(0b1_1111_1111));
    assert!(!eliminate(&mut cands, &table, 40, 5));
    assert_eq!(cands.len(), 81);
}

#[test]
fn pivot_has_the_fewest_candidates() {
    let mut cands: FxHashMap<u8, u16> = FxHashMap::default();
    cands.insert(3, 0b111);
    cands.insert(50, 0b1_0000_0001);
    cands.insert(70, 0b1111);
    assert_eq!(choose_pivot(&cands), 50);
}

#[test]
fn pivot_of_a_tie_is_the_lower_cell() {
    let mut cands: FxHashMap<u8, u16> = FxHashMap::default();
    cands.insert(64, 0b11);
    cands.insert(17, 0b1_1000_0000);
    cands.insert(5, 0b111);
    cands.insert(80, 0b101);
    assert_eq!(choose_pivot(&cands), 17);
    let mut other: FxHashMap<u8, u16> = FxHashMap::default();
    other.insert(80, 0b101);
    other.insert(17, 0b1_1000_0000);
    other.insert(64, 0b11);
    assert_eq!(choose_pivot(&other), 17);
    let mut all: FxHashMap<u8, u16> = FxHashMap::default();
    for k in 0..81u8 {
        all.insert(80 - k, 0b1_1111_1111);
    }
    assert_eq!(choose_pivot(&all), 0);
}

#[test]
fn forced_digits_are_filled_in() {
    let mut grid = almost_full();
    let (mut cands, table) = start(&grid);
    assert!(propagate(&mut grid, &mut cands, &table));
    assert!(cands.is_empty());
    assert_eq!(grid.get_lines()[0], vec![5, 3, 4, 6, 7, 8, 9, 1, 2]);
}

#[test]
fn propagation_stops_where_nothing_is_forced() {
    let mut grid = grid_of([
        "53. .7. ...",
        "6.. 195 ...",
        ".98 ... .6.",
        "8.. .6. ..3",
        "4.. 8.3 ..1",
        "7.. .2. ..6",
        ".6. ... 28.",
        "... 419 ..5",
        "... .8. .79",
    ]);
    let solution = [
        [5u8, 3, 4, 6, 7, 8, 9, 1, 2],
        [6, 7, 2, 1, 9, 5, 3, 4, 8],
        [1, 9, 8, 3, 4, 2, 5, 6, 7],
        [8, 5, 9, 7, 6, 1, 4, 2, 3],
        [4, 2, 6, 8, 5, 3, 7, 9, 1],
        [7, 1, 3, 9, 2, 4, 8, 5, 6],
        [9, 6, 1, 5, 3, 7, 2, 8, 4],
        [2, 8, 7, 4, 1, 9, 6, 3, 5],
        [3, 4, 5, 2, 8, 6, 1, 7, 9],
    ];
    let (mut cands, table) = start(&grid);
    assert_eq!(cands.len(), 51);
    assert!(propagate(&mut grid, &mut cands, &table));
    let lines = grid.get_lines();
    for k in 0..81u8 {
        let i = (k / 9) as usize;
        let j = (k % 9) as usize;
        match mask_at(&cands, k) {
            Some(mask) => {
                assert_eq!(lines[i][j], 0);
                assert!(mask.count_ones() >= 2);
                assert!(mask & bit_of(solution[i][j]) != 0);
            }
            None => assert_eq!(lines[i][j], solution[i][j]),
        }
    }
    let mut grid = grid_of(["... ... ...", "... ... ...", "... ... ...", "... ... ...", "... ... ...", "... ... ...", "... ... ...", "... ... ...", "... ... ..."]);
    let (mut cands, table) = start(&grid);
    assert!(propagate(&mut grid, &mut cands, &table));
    assert_eq!(cands.len(), 81);
    assert_eq!(grid.get_lines(), vec![vec![0u8; 9]; 9]);
}

#[test]
fn empty_mask_is_a_dead_end() {
    let mut grid = almost_full();
    let (mut cands, table) = start(&grid);
    cands.insert(2, 0);
    assert!(!propagate(&mut grid, &mut cands, &table));
    let mut grid = grid_of(["... ... ...", "... ... ...", "... ... ...", "... ... ...", "... ... ...", "... ... ...", "... ... ...", "... ... ...", "... ... ..."]);
    let (mut cands, table) = start(&grid);
    cands.insert(80, 0);
    assert!(!propagate(&mut grid, &mut cands, &table));
}

#[test]
fn two_cells_forced_to_one_digit_are_a_dead_end() {
    let mut grid = almost_full();
    let (mut cands, table) = start(&grid);
    cands.insert(0, bit_of(3));
    assert!(!propagate(&mut grid, &mut cands, &table));
}

#[test]
fn branch_pushes_one_snapshot_for_each_candidate() {
    let grid = grid_of(["... ... ...", "... ... ...", "... ... ...", "... ... ...", "... ... ...", "... ... ...", "... ... ...", "... ... ...", "... ... ..."]);
    let (mut cands, table) = start(&grid);
    cands.insert(10, bit_of(2) | bit_of(7) | bit_of(9));
    let mut stack: Vec<(Sudoku, FxHashMap<u8, u16>)> = Vec::new();
    branch(&grid, &cands, &table, 10, &mut stack);
    assert_eq!(stack.len(), 3);
    let digits: Vec<u8> = stack.iter().map(|entry| entry.0.get_lines()[1][1]).collect();
    assert_eq!(digits, vec![2, 7, 9]);
    for (state, poss) in &stack {
        let d = state.get_lines()[1][1];
        assert_eq!(poss.len(), 80);
        assert_eq!(mask_at(poss, 10), None);
        assert_eq!(mask_at(poss, 11), Some(ALL_DIGITS & !bit_of(d)));
        assert_eq!(mask_at(poss, 0), Some(ALL_DIGITS & !bit_of(d)));
        assert_eq!(mask_at(poss, 80), Some(ALL_DIGITS));
    }
    assert_eq!(grid.get_lines()[1][1], 0);
    assert_eq!(mask_at(&cands, 10), Some(bit_of(2) | bit_of(7) | bit_of(9)));
}
