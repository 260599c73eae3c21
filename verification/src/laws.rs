//! What solving guarantees: the board it returns is solved and keeps the
//! given digits, and it returns one whenever a solved board keeps them. The
//! search by itself fills the blanks; that the givens do not clash is seen
//! to before it starts, and the two together give a solved board.

use crate::cells::adjacent;
use crate::cells::box_of;
use crate::cells::col_of;
use crate::cells::columns_of;
use crate::cells::full_digits;
use crate::cells::givens_agree;
use crate::cells::lemma_cell_places;
use crate::cells::lemma_column;
use crate::cells::lemma_line;
use crate::cells::lemma_square;
use crate::cells::lines_of;
use crate::cells::place_in_box;
use crate::cells::row_of;
use crate::cells::solved;
use crate::cells::solves;
use crate::cells::squares_of;
use crate::cells::valid_board;
use crate::complete::lemma_first_fits;
use crate::complete::lemma_search_complete;
use crate::model::Branch;
use crate::model::all_ok;
use crate::model::branch_ok;
use crate::model::first_branch;
use crate::model::has_empty;
use crate::model::search;
use crate::model::settle;
use crate::model::solution;
use crate::sound::lemma_first_sound;
use crate::sound::lemma_search_sound;
use vstd::prelude::*;

verus! {

/// `full` fills the blanks of `given`: it keeps every given digit, holds a
/// digit in every cell, and no cell that was empty holds the digit of a cell
/// adjacent to it. This is what the search by itself achieves. Nothing is
/// asked here of two cells that were both given: the search does not hold
/// the givens against each other, so solving looks at them first.
pub open spec fn fills_blanks(given: Seq<u8>, full: Seq<u8>) -> bool {
    &&& full.len() == 81
    &&& forall|k: int| 0 <= k < 81 ==> 1 <= #[trigger] full[k] <= 9
    &&& forall|k: int| 0 <= k < 81 && given[k] != 0 ==> #[trigger] full[k] == given[k]
    &&& forall|a: int, b: int|
        0 <= a < 81 && 0 <= b < 81 && adjacent(a, b) && (given[a] == 0 || given[b] == 0)
            ==> #[trigger] full[a] != #[trigger] full[b]
}

/// What the search returns from the first branch fills the blanks of the
/// given board.
pub proof fn lemma_search_fills_blanks(given: Seq<u8>)
    requires
        valid_board(given),
    ensures
        match search(seq![first_branch(given)]) {
            Some(full) => fills_blanks(given, full),
            None => true,
        },
{
    lemma_first_sound(given);
    lemma_search_sound(given, seq![first_branch(given)]);
}

/// The search returns a board whenever one fills the blanks of the given
/// board.
pub proof fn lemma_search_finds(given: Seq<u8>, full: Seq<u8>)
    requires
        valid_board(given),
        fills_blanks(given, full),
    ensures
        search(seq![first_branch(given)]).is_some(),
{
    lemma_first_sound(given);
    lemma_first_fits(given, full);
    lemma_search_complete(given, seq![first_branch(given)], 0, full);
}

/// There are nine digits.
pub proof fn lemma_count_of_digits()
    ensures
        full_digits().finite(),
        full_digits().len() == 9,
{
    let all = Seq::new(9, |i: int| (i + 1) as u8);
    assert(all.no_duplicates());
    assert forall|d: u8| all.to_set().contains(d) == full_digits().contains(d) by {
        if 1 <= d <= 9 {
            assert(all[d - 1] == d);
        }
    }
    assert(all.to_set() =~= full_digits());
    all.unique_seq_to_set();
    vstd::seq_lib::seq_to_set_is_finite(all);
}

/// Nine different digits are all the digits.
pub proof fn lemma_nine_digits(group: Seq<u8>)
    requires
        group.len() == 9,
        group.no_duplicates(),
        forall|p: int| 0 <= p < 9 ==> 1 <= #[trigger] group[p] <= 9,
    ensures
        group.to_set() == full_digits(),
{
    lemma_count_of_digits();
    group.unique_seq_to_set();
    vstd::seq_lib::seq_to_set_is_finite(group);
    assert(group.to_set().subset_of(full_digits())) by {
        assert forall|d: u8| group.to_set().contains(d) implies full_digits().contains(d) by {
            let p = choose|p: int| 0 <= p < group.len() && group[p] == d;
            assert(1 <= group[p] <= 9);
        }
    }
    vstd::set_lib::lemma_subset_equality(group.to_set(), full_digits());
}

/// A board that fills the blanks of a given board in which no two adjacent
/// cells hold the same digit is solved.
pub proof fn lemma_completion_solved(given: Seq<u8>, full: Seq<u8>)
    requires
        valid_board(given),
        givens_agree(given),
        fills_blanks(given, full),
    ensures
        solved(full),
{
    assert forall|a: int, b: int| 0 <= a < 81 && 0 <= b < 81 && adjacent(a, b) implies full[a]
        != full[b] by {
        if given[a] != 0 && given[b] != 0 {
            assert(given[a] != given[b]);
            assert(full[a] == given[a] && full[b] == given[b]);
        }
    }
    assert forall|g: int| 0 <= g < 9 implies lines_of(full)[g].to_set() == full_digits()
        && columns_of(full)[g].to_set() == full_digits() && squares_of(full)[g].to_set()
        == full_digits() by {
        let line = lines_of(full)[g];
        let column = columns_of(full)[g];
        let square = squares_of(full)[g];
        assert forall|p: int, q: int| 0 <= p < 9 && 0 <= q < 9 && p != q implies line[p] != line[q]
            && column[p] != column[q] && square[p] != square[q] by {
            lemma_line(g, p, q);
            lemma_line(g, q, p);
            lemma_column(g, p, q);
            lemma_column(g, q, p);
            lemma_square(g, p, q);
            lemma_square(g, q, p);
        }
        assert forall|p: int| 0 <= p < 9 implies 1 <= #[trigger] line[p] <= 9 by {
            lemma_line(g, p, p);
        }
        assert forall|p: int| 0 <= p < 9 implies 1 <= #[trigger] column[p] <= 9 by {
            lemma_column(g, p, p);
        }
        assert forall|p: int| 0 <= p < 9 implies 1 <= #[trigger] square[p] <= 9 by {
            lemma_square(g, p, p);
        }
        lemma_nine_digits(line);
        lemma_nine_digits(column);
        lemma_nine_digits(square);
    }
}

/// Nine cells that hold all the digits hold nine different digits.
pub proof fn lemma_group_differs(group: Seq<u8>, p: int, q: int)
    requires
        group.len() == 9,
        group.to_set() == full_digits(),
        0 <= p < 9,
        0 <= q < 9,
        p != q,
    ensures
        group[p] != group[q],
{
    lemma_count_of_digits();
    group.lemma_no_dup_set_cardinality();
}

/// In a solved board every cell holds a digit, and no two adjacent cells
/// hold the same.
pub proof fn lemma_solved_differs(full: Seq<u8>, a: int, b: int)
    requires
        solved(full),
        0 <= a < 81,
        0 <= b < 81,
        adjacent(a, b),
    ensures
        full[a] != full[b],
        1 <= full[a] <= 9,
{
    lemma_cell_places(a);
    lemma_cell_places(b);
    let line = lines_of(full)[row_of(a)];
    assert(line[col_of(a)] == full[a]);
    assert(full_digits().contains(full[a])) by {
        assert(line.to_set().contains(line[col_of(a)]));
    }
    if row_of(a) == row_of(b) {
        assert(line[col_of(b)] == full[b]);
        lemma_group_differs(line, col_of(a), col_of(b));
    } else if col_of(a) == col_of(b) {
        let column = columns_of(full)[col_of(a)];
        assert(column[row_of(a)] == full[a]);
        assert(column[row_of(b)] == full[b]);
        lemma_group_differs(column, row_of(a), row_of(b));
    } else {
        let square = squares_of(full)[box_of(a)];
        assert(square[place_in_box(a)] == full[a]);
        assert(square[place_in_box(b)] == full[b]);
        lemma_group_differs(square, place_in_box(a), place_in_box(b));
    }
}

/// In a solved board every cell holds a digit.
pub proof fn lemma_solved_digits(full: Seq<u8>, a: int)
    requires
        solved(full),
        0 <= a < 81,
    ensures
        1 <= full[a] <= 9,
{
    let b = if a % 9 == 0 {
        a + 1
    } else {
        a - 1
    };
    assert(adjacent(a, b));
    lemma_solved_differs(full, a, b);
}

/// A board solves the given one exactly when no two adjacent givens hold
/// the same digit and the board fills the blanks.
pub proof fn lemma_solves_iff(given: Seq<u8>, full: Seq<u8>)
    requires
        valid_board(given),
    ensures
        solves(given, full) <==> givens_agree(given) && fills_blanks(given, full),
{
    if givens_agree(given) && fills_blanks(given, full) {
        lemma_completion_solved(given, full);
    }
    if solves(given, full) {
        assert forall|k: int| 0 <= k < 81 implies 1 <= #[trigger] full[k] <= 9 by {
            lemma_solved_digits(full, k);
        }
        assert forall|a: int, b: int| 0 <= a < 81 && 0 <= b < 81 && adjacent(a, b) implies
            #[trigger] full[a] != #[trigger] full[b] by {
            lemma_solved_differs(full, a, b);
        }
        assert forall|a: int, b: int|
            #![trigger adjacent(a, b)]
            #![trigger given[a], given[b]]
            0 <= a < 81 && 0 <= b < 81 && adjacent(a, b) && given[a] != 0 implies given[a]
            != given[b] by {
            assert(full[a] != full[b]);
            assert(full[a] == given[a]);
            if given[b] != 0 {
                assert(full[b] == given[b]);
            }
        }
    }
}

/// Solving returns nothing but a board that solves the given one: a solved
/// board with every given digit where it was.
pub proof fn lemma_solution_solves(given: Seq<u8>)
    requires
        valid_board(given),
    ensures
        match solution(given) {
            Some(full) => solves(given, full),
            None => true,
        },
{
    if givens_agree(given) {
        lemma_search_fills_blanks(given);
        if solution(given).is_some() {
            lemma_solves_iff(given, solution(given).unwrap());
        }
    }
}

/// Solving keeps every given digit.
pub proof fn lemma_solution_keeps_givens(given: Seq<u8>, k: int)
    requires
        valid_board(given),
        solution(given).is_some(),
        0 <= k < 81,
        given[k] != 0,
    ensures
        solution(given).unwrap()[k] == given[k],
{
    lemma_solution_solves(given);
}

/// Solving returns a board whenever one solves the given board.
pub proof fn lemma_solution_found(given: Seq<u8>, full: Seq<u8>)
    requires
        valid_board(given),
        solves(given, full),
    ensures
        solution(given).is_some(),
{
    lemma_solves_iff(given, full);
    lemma_search_finds(given, full);
}

/// A board in which two adjacent cells hold the same digit has no solution,
/// and solving it returns none.
pub proof fn lemma_clash_is_unsolvable(given: Seq<u8>, full: Seq<u8>)
    requires
        valid_board(given),
        !givens_agree(given),
    ensures
        solution(given).is_none(),
        !solves(given, full),
{
    lemma_solves_iff(given, full);
}

/// Solving the same board twice gives the same result.
pub proof fn lemma_solution_deterministic(first: Seq<u8>, second: Seq<u8>)
    requires
        first == second,
    ensures
        solution(first) == solution(second),
{
}

/// The board with every cell empty.
pub open spec fn empty_board() -> Seq<u8> {
    Seq::new(81, |k: int| 0u8)
}

/// A filled board: the digits 1 to 9 in the first row, and in each other
/// row the same digits shifted.
pub open spec fn shifted_rows() -> Seq<u8> {
    Seq::new(81, |k: int| ((3 * (row_of(k) % 3) + row_of(k) / 3 + col_of(k)) % 9 + 1) as u8)
}

proof fn lemma_shifts_differ(
    qa: int,
    ma: int,
    qca: int,
    mca: int,
    qb: int,
    mb: int,
    qcb: int,
    mcb: int,
)
    requires
        0 <= qa < 3 && 0 <= ma < 3 && 0 <= qca < 3 && 0 <= mca < 3,
        0 <= qb < 3 && 0 <= mb < 3 && 0 <= qcb < 3 && 0 <= mcb < 3,
        qa != qb || ma != mb || qca != qcb || mca != mcb,
        (qa == qb && ma == mb) || (qca == qcb && mca == mcb) || (qa == qb && qca == qcb),
    ensures
        (3 * ma + qa + 3 * qca + mca) % 9 != (3 * mb + qb + 3 * qcb + mcb) % 9,
{
    let xa = 3 * ma + qa + 3 * qca + mca;
    let xb = 3 * mb + qb + 3 * qcb + mcb;
    assert(xa != xb && -9 < xa - xb < 9);
    assert(0 <= xa < 18 && 0 <= xb < 18);
    assert(xa % 9 == if xa < 9 {
        xa
    } else {
        xa - 9
    });
    assert(xb % 9 == if xb < 9 {
        xb
    } else {
        xb - 9
    });
}

proof fn lemma_shifted_rows_differ(a: int, b: int)
    requires
        0 <= a < 81,
        0 <= b < 81,
        adjacent(a, b),
    ensures
        shifted_rows()[a] != shifted_rows()[b],
{
    let ra = row_of(a);
    let ca = col_of(a);
    let rb = row_of(b);
    let cb = col_of(b);
    assert(0 <= ra < 9 && 0 <= ca < 9 && 0 <= rb < 9 && 0 <= cb < 9);
    assert(a == ra * 9 + ca && b == rb * 9 + cb);
    assert(ra == 3 * (ra / 3) + ra % 3 && rb == 3 * (rb / 3) + rb % 3);
    assert(ca == 3 * (ca / 3) + ca % 3 && cb == 3 * (cb / 3) + cb % 3);
    lemma_shifts_differ(ra / 3, ra % 3, ca / 3, ca % 3, rb / 3, rb % 3, cb / 3, cb % 3);
}

/// The empty board can be filled.
pub proof fn lemma_empty_board_has_solution()
    ensures
        valid_board(empty_board()),
        solves(empty_board(), shifted_rows()),
{
    assert forall|a: int, b: int| 0 <= a < 81 && 0 <= b < 81 && adjacent(a, b) implies
        #[trigger] shifted_rows()[a] != #[trigger] shifted_rows()[b] by {
        lemma_shifted_rows_differ(a, b);
    }
    assert(givens_agree(empty_board()));
    assert(fills_blanks(empty_board(), shifted_rows()));
    lemma_solves_iff(empty_board(), shifted_rows());
}

/// Solving the empty board gives a solved board.
pub proof fn lemma_empty_board_is_solved()
    ensures
        solution(empty_board()) matches Some(full) && solved(full),
{
    lemma_empty_board_has_solution();
    lemma_solution_found(empty_board(), shifted_rows());
    lemma_solution_solves(empty_board());
}

/// A branch in which some cell has an empty mask is a dead end:
/// propagation gives it up, and the search goes on without it.
pub proof fn lemma_empty_mask_is_dead_end(b: Branch, z: u8)
    requires
        branch_ok(b),
        b.cands.contains_key(z),
        b.cands[z] == 0,
    ensures
        settle(b).is_none(),
{
}

/// The search never returns what a dead end holds: with a dead end on top
/// of the stack it returns what it returns without it.
pub proof fn lemma_dead_end_is_dropped(stack: Seq<Branch>)
    requires
        all_ok(stack),
        stack.len() > 0,
        has_empty(stack.last().cands),
    ensures
        search(stack) == search(stack.drop_last()),
{
}

} // verus!
