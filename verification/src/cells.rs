//! Geometry of the 9×9 grid: cell indices, their row, column and box, and
//! which cells constrain each other.

use vstd::prelude::*;

verus! {

/// `k` is the index of a cell.
pub open spec fn is_cell(k: int) -> bool {
    0 <= k < 81
}

/// Row of cell `k`, from 0.
pub open spec fn row_of(k: int) -> int {
    k / 9
}

/// Column of cell `k`, from 0.
pub open spec fn col_of(k: int) -> int {
    k % 9
}

/// Box of cell `k`: boxes are counted row-major by box position.
pub open spec fn box_of(k: int) -> int {
    (row_of(k) / 3) * 3 + col_of(k) / 3
}

/// Two different cells that share a row, a column or a box.
pub open spec fn adjacent(a: int, b: int) -> bool {
    a != b && (row_of(a) == row_of(b) || col_of(a) == col_of(b) || box_of(a) == box_of(b))
}

/// The cells adjacent to `k`.
pub open spec fn neighbor_set(k: u8) -> Set<u8> {
    Set::new(|j: u8| j < 81 && adjacent(k as int, j as int))
}

/// Index of the cell at position `j` of row `i`.
pub open spec fn line_cell(i: int, j: int) -> int {
    i * 9 + j
}

/// Index of the cell at position `i` of column `j`.
pub open spec fn column_cell(j: int, i: int) -> int {
    i * 9 + j
}

/// Index of the cell at position `p` of box `b`, cells of a box counted
/// row-major.
pub open spec fn square_cell(b: int, p: int) -> int {
    ((b / 3) * 3 + p / 3) * 9 + (b % 3) * 3 + p % 3
}

/// Position of cell `k` within its box, counted row-major.
pub open spec fn place_in_box(k: int) -> int {
    (row_of(k) % 3) * 3 + col_of(k) % 3
}

/// The nine rows of a board, each left to right.
pub open spec fn lines_of(board: Seq<u8>) -> Seq<Seq<u8>> {
    Seq::new(9, |i: int| Seq::new(9, |j: int| board[line_cell(i, j)]))
}

/// The nine columns of a board, each top to bottom.
pub open spec fn columns_of(board: Seq<u8>) -> Seq<Seq<u8>> {
    Seq::new(9, |j: int| Seq::new(9, |i: int| board[column_cell(j, i)]))
}

/// The nine boxes of a board.
pub open spec fn squares_of(board: Seq<u8>) -> Seq<Seq<u8>> {
    Seq::new(9, |b: int| Seq::new(9, |p: int| board[square_cell(b, p)]))
}

/// The digits 1 to 9.
pub open spec fn full_digits() -> Set<u8> {
    Set::new(|d: u8| 1 <= d <= 9)
}

/// A board of 81 cells, each empty (0) or a digit.
pub open spec fn valid_board(board: Seq<u8>) -> bool {
    board.len() == 81 && forall|k: int| 0 <= k < 81 ==> #[trigger] board[k] <= 9
}

/// Every row, column and box holds exactly the digits 1 to 9.
pub open spec fn solved(board: Seq<u8>) -> bool {
    forall|g: int|
        #![trigger lines_of(board)[g]]
        #![trigger columns_of(board)[g]]
        #![trigger squares_of(board)[g]]
        0 <= g < 9 ==> lines_of(board)[g].to_set() == full_digits() && columns_of(board)[g].to_set()
            == full_digits() && squares_of(board)[g].to_set() == full_digits()
}

/// Cell `a` of `board` is empty, or holds a digit that no cell adjacent to
/// it holds.
pub open spec fn agrees_at(board: Seq<u8>, a: int) -> bool {
    forall|b: int|
        0 <= b < 81 && adjacent(a, b) && board[a] != 0 ==> board[a] != #[trigger] board[b]
}

/// No two adjacent cells of `board` hold the same digit.
pub open spec fn givens_agree(board: Seq<u8>) -> bool {
    forall|a: int, b: int|
        #![trigger adjacent(a, b)]
        #![trigger board[a], board[b]]
        0 <= a < 81 && 0 <= b < 81 && adjacent(a, b) && board[a] != 0 ==> board[a] != board[b]
}

/// `full` solves `given`: it is a solved board that holds every digit of
/// `given` where `given` holds it.
pub open spec fn solves(given: Seq<u8>, full: Seq<u8>) -> bool {
    &&& full.len() == 81
    &&& solved(full)
    &&& forall|k: int| 0 <= k < 81 && given[k] != 0 ==> #[trigger] full[k] == given[k]
}

/// The cells of one row are cells of the grid, and adjacent to each other.
pub proof fn lemma_line(g: int, p: int, q: int)
    requires
        0 <= g < 9,
        0 <= p < 9,
        0 <= q < 9,
    ensures
        is_cell(line_cell(g, p)),
        row_of(line_cell(g, p)) == g,
        col_of(line_cell(g, p)) == p,
        p != q ==> adjacent(line_cell(g, p), line_cell(g, q)),
{
}

/// The cells of one column are cells of the grid, and adjacent to each other.
pub proof fn lemma_column(g: int, p: int, q: int)
    requires
        0 <= g < 9,
        0 <= p < 9,
        0 <= q < 9,
    ensures
        is_cell(column_cell(g, p)),
        row_of(column_cell(g, p)) == p,
        col_of(column_cell(g, p)) == g,
        p != q ==> adjacent(column_cell(g, p), column_cell(g, q)),
{
}

/// The cells of one box are cells of the grid, and adjacent to each other.
pub proof fn lemma_square(g: int, p: int, q: int)
    requires
        0 <= g < 9,
        0 <= p < 9,
        0 <= q < 9,
    ensures
        is_cell(square_cell(g, p)),
        row_of(square_cell(g, p)) == (g / 3) * 3 + p / 3,
        col_of(square_cell(g, p)) == (g % 3) * 3 + p % 3,
        box_of(square_cell(g, p)) == g,
        p != q ==> adjacent(square_cell(g, p), square_cell(g, q)),
{
    lemma_square_place(g, p);
    lemma_square_place(g, q);
}

proof fn lemma_square_place(g: int, p: int)
    requires
        0 <= g < 9,
        0 <= p < 9,
    ensures
        is_cell(square_cell(g, p)),
        row_of(square_cell(g, p)) == (g / 3) * 3 + p / 3,
        col_of(square_cell(g, p)) == (g % 3) * 3 + p % 3,
        box_of(square_cell(g, p)) == g,
{
    let r = (g / 3) * 3 + p / 3;
    let c = (g % 3) * 3 + p % 3;
    assert(0 <= r < 9 && 0 <= c < 9);
    assert(square_cell(g, p) == r * 9 + c);
    assert((r * 9 + c) / 9 == r && (r * 9 + c) % 9 == c);
    assert(r / 3 == g / 3);
    assert(c / 3 == g % 3);
}

/// Where cell `k` stands in its row, in its column and in its box.
pub proof fn lemma_cell_places(k: int)
    requires
        is_cell(k),
    ensures
        0 <= row_of(k) < 9,
        0 <= col_of(k) < 9,
        0 <= box_of(k) < 9,
        0 <= place_in_box(k) < 9,
        line_cell(row_of(k), col_of(k)) == k,
        column_cell(col_of(k), row_of(k)) == k,
        square_cell(box_of(k), place_in_box(k)) == k,
{
    let r = row_of(k);
    let c = col_of(k);
    let g = box_of(k);
    let p = place_in_box(k);
    assert(g / 3 == r / 3 && g % 3 == c / 3);
    assert(p / 3 == r % 3 && p % 3 == c % 3);
}

} // verus!
