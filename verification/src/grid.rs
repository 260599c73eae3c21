//! The puzzle grid: 81 cells, each empty or holding a digit.

use crate::cells::col_of;
use crate::cells::column_cell;
use crate::cells::columns_of;
use crate::cells::full_digits;
use crate::cells::line_cell;
use crate::cells::lines_of;
use crate::cells::neighbor_set;
use crate::cells::row_of;
use crate::cells::solved;
use crate::cells::square_cell;
use crate::cells::squares_of;
use crate::cells::valid_board;
use crate::fx::set_eq;
use crate::fx::set_insert;
use crate::items::lemma_take_contains;
use rustc_hash::FxHashSet;
use vstd::prelude::*;

verus! {

/// A 9×9 grid, row after row. A cell holds 0 while it is empty, else its
/// digit.
#[derive(Clone, Copy)]
pub struct Sudoku {
    data: [u8; 81],
}

/// The groups that a vector of vectors holds.
pub open spec fn groups_of(groups: Seq<Vec<u8>>) -> Seq<Seq<u8>> {
    Seq::new(groups.len(), |g: int| groups[g]@)
}

/// The set of the digits 1 to 9.
pub fn all_digits() -> (full: FxHashSet<u8>)
    ensures
        full@ == full_digits(),
{
    let mut full: FxHashSet<u8> = FxHashSet::default();
    let mut d: u8 = 1;
    while d < 10
        invariant
            1 <= d <= 10,
            full@ == Set::new(|x: u8| 1 <= x < d),
        decreases 10 - d,
    {
        set_insert(&mut full, d);
        d += 1;
        assert(full@ =~= Set::new(|x: u8| 1 <= x < d));
    }
    assert(full@ =~= full_digits());
    full
}

/// The set of the numbers in `numbers`.
pub fn number_set(numbers: &[u8]) -> (held: FxHashSet<u8>)
    ensures
        held@ == numbers@.to_set(),
{
    let mut held: FxHashSet<u8> = FxHashSet::default();
    let mut i: usize = 0;
    assert(held@ =~= numbers@.take(0).to_set());
    while i < numbers.len()
        invariant
            0 <= i <= numbers.len(),
            held@ == numbers@.take(i as int).to_set(),
        decreases numbers.len() - i,
    {
        let ghost done = numbers@.take(i as int);
        let ghost next = numbers@.take(i + 1);
        proof {
            assert forall|y: u8| #[trigger]
                next.contains(y) == (done.contains(y) || y == numbers@[i as int]) by {
                lemma_take_contains(numbers@, i as int, y);
            }
        }
        set_insert(&mut held, numbers[i]);
        i += 1;
        assert(held@ =~= next.to_set());
    }
    assert(numbers@.take(numbers@.len() as int) =~= numbers@);
    held
}

/// Whether each of the groups holds exactly the items of `full`.
pub fn all_hold(groups: &[Vec<u8>], full: &FxHashSet<u8>) -> (r: bool)
    ensures
        r == forall|g: int| 0 <= g < groups@.len() ==> (#[trigger] groups@[g])@.to_set() == full@,
{
    let mut g: usize = 0;
    while g < groups.len()
        invariant
            0 <= g <= groups.len(),
            forall|h: int| 0 <= h < g ==> (#[trigger] groups@[h])@.to_set() == full@,
        decreases groups.len() - g,
    {
        let held = number_set(groups[g].as_slice());
        if !set_eq(&held, full) {
            return false;
        }
        g += 1;
    }
    true
}

impl View for Sudoku {
    type V = Seq<u8>;

    closed spec fn view(&self) -> Seq<u8> {
        self.data@
    }
}

impl Sudoku {
    /// No cell holds more than 9.
    #[verifier::type_invariant]
    pub open spec fn cells_in_range(self) -> bool {
        valid_board(self@)
    }

    /// The grid with every cell empty.
    pub(crate) fn blank() -> (r: Sudoku)
        ensures
            r@ == Seq::new(81, |k: int| 0u8),
    {
        let r = Sudoku { data: [0u8; 81] };
        assert(r.data@ =~= Seq::new(81, |k: int| 0u8));
        r
    }

    /// A copy of the grid.
    pub fn copy(&self) -> (r: Sudoku)
        ensures
            r@ == self@,
    {
        proof {
            use_type_invariant(self);
        }
        Sudoku { data: self.data }
    }

    /// The cells that share a row, a column or a box with cell `k`.
    pub fn get_neighbor_indices(k: u8) -> (indices: FxHashSet<u8>)
        requires
            k < 81,
        ensures
            indices@ == neighbor_set(k),
    {
        let i: u8 = k / 9;
        let j: u8 = k % 9;
        let mut indices: FxHashSet<u8> = FxHashSet::default();
        let mut dj: u8 = 0;
        while dj < 9
            invariant
                dj <= 9,
                i == k / 9,
                j == k % 9,
                k < 81,
                indices@ == Set::new(
                    |x: u8| x < 81 && x != k && row_of(x as int) == i && col_of(x as int) < dj,
                ),
            decreases 9 - dj,
        {
            if dj != j {
                set_insert(&mut indices, i * 9 + dj);
            }
            dj += 1;
            assert(indices@ =~= Set::new(
                |x: u8| x < 81 && x != k && row_of(x as int) == i && col_of(x as int) < dj,
            ));
        }
        let mut di: u8 = 0;
        while di < 9
            invariant
                di <= 9,
                i == k / 9,
                j == k % 9,
                k < 81,
                indices@ == Set::new(
                    |x: u8|
                        x < 81 && x != k && (row_of(x as int) == i || (col_of(x as int) == j
                            && row_of(x as int) < di)),
                ),
            decreases 9 - di,
        {
            if di != i {
                set_insert(&mut indices, di * 9 + j);
            }
            di += 1;
            assert(indices@ =~= Set::new(
                |x: u8|
                    x < 81 && x != k && (row_of(x as int) == i || (col_of(x as int) == j && row_of(
                        x as int,
                    ) < di)),
            ));
        }
        let li: u8 = (i / 3) * 3;
        let lj: u8 = (j / 3) * 3;
        let mut di: u8 = li;
        while di < li + 3
            invariant
                li <= di <= li + 3,
                i == k / 9,
                j == k % 9,
                k < 81,
                li == (i / 3) * 3,
                lj == (j / 3) * 3,
                indices@ == Set::new(
                    |x: u8|
                        x < 81 && x != k && (row_of(x as int) == i || col_of(x as int) == j || (li
                            <= row_of(x as int) < di && lj <= col_of(x as int) < lj + 3)),
                ),
            decreases li + 3 - di,
        {
            let mut dj: u8 = lj;
            while dj < lj + 3
                invariant
                    lj <= dj <= lj + 3,
                    li <= di < li + 3,
                    i == k / 9,
                    j == k % 9,
                    k < 81,
                    li == (i / 3) * 3,
                    lj == (j / 3) * 3,
                    indices@ == Set::new(
                        |x: u8|
                            x < 81 && x != k && (row_of(x as int) == i || col_of(x as int) == j
                                || (li <= row_of(x as int) < di && lj <= col_of(x as int) < lj + 3)
                                || (row_of(x as int) == di && lj <= col_of(x as int) < dj)),
                    ),
                decreases lj + 3 - dj,
            {
                if di != i || dj != j {
                    set_insert(&mut indices, di * 9 + dj);
                }
                dj += 1;
                assert(indices@ =~= Set::new(
                    |x: u8|
                        x < 81 && x != k && (row_of(x as int) == i || col_of(x as int) == j || (li
                            <= row_of(x as int) < di && lj <= col_of(x as int) < lj + 3) || (row_of(
                            x as int,
                        ) == di && lj <= col_of(x as int) < dj)),
                ));
            }
            di += 1;
            assert(indices@ =~= Set::new(
                |x: u8|
                    x < 81 && x != k && (row_of(x as int) == i || col_of(x as int) == j || (li
                        <= row_of(x as int) < di && lj <= col_of(x as int) < lj + 3)),
            ));
        }
        assert(indices@ =~= neighbor_set(k));
        indices
    }

    /// The nine rows, top to bottom, each left to right.
    pub fn get_lines(&self) -> (lines: Vec<Vec<u8>>)
        ensures
            lines@.len() == 9,
            groups_of(lines@) == lines_of(self@),
    {
        let mut lines: Vec<Vec<u8>> = Vec::new();
        let mut i: usize = 0;
        while i < 9
            invariant
                i <= 9,
                lines@.len() == i,
                forall|g: int| 0 <= g < i ==> (#[trigger] lines@[g])@ == lines_of(self@)[g],
            decreases 9 - i,
        {
            let mut line: Vec<u8> = Vec::new();
            let mut j: usize = 0;
            while j < 9
                invariant
                    i < 9,
                    j <= 9,
                    line@.len() == j,
                    forall|p: int| 0 <= p < j ==> #[trigger] line@[p] == self@[line_cell(i as int, p)],
                decreases 9 - j,
            {
                line.push(self.cell(i * 9 + j));
                j += 1;
            }
            assert(line@ =~= lines_of(self@)[i as int]);
            lines.push(line);
            i += 1;
        }
        assert(groups_of(lines@) =~= lines_of(self@));
        lines
    }

    /// The nine columns, left to right, each top to bottom.
    pub fn get_columns(&self) -> (columns: Vec<Vec<u8>>)
        ensures
            columns@.len() == 9,
            groups_of(columns@) == columns_of(self@),
    {
        let mut columns: Vec<Vec<u8>> = Vec::new();
        let mut j: usize = 0;
        while j < 9
            invariant
                j <= 9,
                columns@.len() == j,
                forall|g: int| 0 <= g < j ==> (#[trigger] columns@[g])@ == columns_of(self@)[g],
            decreases 9 - j,
        {
            let mut column: Vec<u8> = Vec::new();
            let mut i: usize = 0;
            while i < 9
                invariant
                    j < 9,
                    i <= 9,
                    column@.len() == i,
                    forall|p: int|
                        0 <= p < i ==> #[trigger] column@[p] == self@[column_cell(j as int, p)],
                decreases 9 - i,
            {
                column.push(self.cell(i * 9 + j));
                i += 1;
            }
            assert(column@ =~= columns_of(self@)[j as int]);
            columns.push(column);
            j += 1;
        }
        assert(groups_of(columns@) =~= columns_of(self@));
        columns
    }

    /// The nine boxes, row-major by box position, the cells of each
    /// row-major too.
    pub fn get_squares(&self) -> (squares: Vec<Vec<u8>>)
        ensures
            squares@.len() == 9,
            groups_of(squares@) == squares_of(self@),
    {
        let mut squares: Vec<Vec<u8>> = Vec::new();
        let mut b: usize = 0;
        while b < 9
            invariant
                b <= 9,
                squares@.len() == b,
                forall|g: int| 0 <= g < b ==> (#[trigger] squares@[g])@ == squares_of(self@)[g],
            decreases 9 - b,
        {
            let li: usize = (b / 3) * 3;
            let lj: usize = (b % 3) * 3;
            let mut square: Vec<u8> = Vec::new();
            let mut i: usize = li;
            while i < li + 3
                invariant
                    b < 9,
                    li == (b / 3) * 3,
                    lj == (b % 3) * 3,
                    li <= i <= li + 3,
                    square@.len() == (i - li) * 3,
                    forall|p: int|
                        0 <= p < (i - li) * 3 ==> #[trigger] square@[p] == self@[square_cell(
                            b as int,
                            p,
                        )],
                decreases li + 3 - i,
            {
                let mut j: usize = lj;
                while j < lj + 3
                    invariant
                        b < 9,
                        li == (b / 3) * 3,
                        lj == (b % 3) * 3,
                        li <= i < li + 3,
                        lj <= j <= lj + 3,
                        square@.len() == (i - li) * 3 + (j - lj),
                        forall|p: int|
                            0 <= p < (i - li) * 3 + (j - lj) ==> #[trigger] square@[p]
                                == self@[square_cell(b as int, p)],
                    decreases lj + 3 - j,
                {
                    assert(square_cell(b as int, (i - li) * 3 + (j - lj)) == i * 9 + j);
                    square.push(self.cell(i * 9 + j));
                    j += 1;
                }
                i += 1;
            }
            assert(square@ =~= squares_of(self@)[b as int]);
            squares.push(square);
            b += 1;
        }
        assert(groups_of(squares@) =~= squares_of(self@));
        squares
    }

    /// Whether every row, column and box holds exactly the digits 1 to 9.
    pub fn is_solved(&self) -> (r: bool)
        ensures
            r == solved(self@),
    {
        let full = all_digits();
        let lines = self.get_lines();
        let columns = self.get_columns();
        let squares = self.get_squares();
        proof {
            assert forall|g: int| 0 <= g < 9 implies (#[trigger] lines@[g])@ == lines_of(self@)[g]
                && (#[trigger] columns@[g])@ == columns_of(self@)[g] && (#[trigger] squares@[g])@
                == squares_of(self@)[g] by {
                assert(groups_of(lines@)[g] == lines@[g]@);
                assert(groups_of(columns@)[g] == columns@[g]@);
                assert(groups_of(squares@)[g] == squares@[g]@);
            }
        }
        if !all_hold(&lines, &full) {
            proof {
                let g = choose|g: int|
                    0 <= g < lines@.len() && (#[trigger] lines@[g])@.to_set() != full@;
                assert(lines_of(self@)[g].to_set() != full_digits());
            }
            return false;
        }
        if !all_hold(&columns, &full) {
            proof {
                let g = choose|g: int|
                    0 <= g < columns@.len() && (#[trigger] columns@[g])@.to_set() != full@;
                assert(columns_of(self@)[g].to_set() != full_digits());
            }
            return false;
        }
        if !all_hold(&squares, &full) {
            proof {
                let g = choose|g: int|
                    0 <= g < squares@.len() && (#[trigger] squares@[g])@.to_set() != full@;
                assert(squares_of(self@)[g].to_set() != full_digits());
            }
            return false;
        }
        proof {
            assert forall|g: int|
                #![trigger lines_of(self@)[g]]
                #![trigger columns_of(self@)[g]]
                #![trigger squares_of(self@)[g]]
                0 <= g < 9 implies lines_of(self@)[g].to_set() == full_digits() && columns_of(
                self@,
            )[g].to_set() == full_digits() && squares_of(self@)[g].to_set() == full_digits() by {
                assert(lines@[g]@.to_set() == full@);
                assert(columns@[g]@.to_set() == full@);
                assert(squares@[g]@.to_set() == full@);
            }
        }
        true
    }

    /// What cell `k` holds.
    pub(crate) fn cell(&self, k: usize) -> (d: u8)
        requires
            k < 81,
        ensures
            d == self@[k as int],
            d <= 9,
    {
        proof {
            use_type_invariant(self);
        }
        self.data[k]
    }

    /// Writes `d` into cell `k`.
    pub(crate) fn put(&mut self, k: usize, d: u8)
        requires
            k < 81,
            d <= 9,
        ensures
            final(self)@ == old(self)@.update(k as int, d),
    {
        proof {
            use_type_invariant(&*self);
        }
        self.data[k] = d;
    }
}

} // verus!
