//! The search as mathematics: what propagation, pivot choice and branching
//! compute, over a board and the candidate masks of its empty cells.

use crate::cells::adjacent;
use crate::cells::givens_agree;
use crate::cells::valid_board;
use crate::masks::ALL_DIGITS;
use crate::masks::allows;
use crate::masks::bit_count;
use crate::masks::lowest_digit;
use crate::masks::strike;
use crate::measure::lemma_branched;
use crate::measure::lemma_fill;
use crate::measure::lemma_settle;
use vstd::prelude::*;

verus! {

/// One hypothesis of the search: a board, and for each of its empty cells the
/// mask of the digits still possible there.
#[verifier::ext_equal]
pub struct Branch {
    pub board: Seq<u8>,
    pub cands: Map<u8, u16>,
}

/// Masks are kept for cells of the grid only, and hold no bit above the ninth.
pub open spec fn masks_ok(cands: Map<u8, u16>) -> bool {
    forall|k: u8| #[trigger] cands.contains_key(k) ==> k < 81 && cands[k] <= ALL_DIGITS
}

/// A board of 81 cells with well-formed masks.
pub open spec fn branch_ok(b: Branch) -> bool {
    valid_board(b.board) && masks_ok(b.cands)
}

/// `cands` with digit `d` struck from the mask of every cell adjacent to `k`.
pub open spec fn strike_around(cands: Map<u8, u16>, k: u8, d: u8) -> Map<u8, u16> {
    Map::new(
        |j: u8| cands.contains_key(j),
        |j: u8|
            if adjacent(k as int, j as int) {
                strike(cands[j], d)
            } else {
                cands[j]
            },
    )
}

/// Some cell adjacent to `k` still allows digit `d`.
pub open spec fn touches(cands: Map<u8, u16>, k: u8, d: u8) -> bool {
    exists|j: u8| #[trigger] cands.contains_key(j) && adjacent(k as int, j as int) && allows(cands[j], d)
}

/// The branch after digit `d` is written into cell `k`: the cell leaves the
/// masks, and `d` is struck from the cells adjacent to it.
pub open spec fn place(b: Branch, k: u8, d: u8) -> Branch {
    Branch { board: b.board.update(k as int, d), cands: strike_around(b.cands.remove(k), k, d) }
}

/// How many candidates cell `k` has; none where it has no mask.
pub open spec fn term(cands: Map<u8, u16>, k: u8) -> nat {
    if cands.contains_key(k) {
        bit_count(cands[k])
    } else {
        0
    }
}

/// The candidates of the cells below `n`, counted together.
pub open spec fn tally(cands: Map<u8, u16>, n: nat) -> nat
    decreases n,
{
    if n == 0 {
        0
    } else {
        tally(cands, (n - 1) as nat) + term(cands, (n - 1) as u8)
    }
}

/// All candidate bits of a branch, counted together.
pub open spec fn weight(cands: Map<u8, u16>) -> nat {
    tally(cands, 81)
}

/// Some cell has a mask that allows no digit.
pub open spec fn has_empty(cands: Map<u8, u16>) -> bool {
    exists|k: u8| #[trigger] cands.contains_key(k) && cands[k] == 0
}

/// Cell `k` has a mask that allows exactly one digit.
pub open spec fn is_forced(cands: Map<u8, u16>, k: u8) -> bool {
    cands.contains_key(k) && bit_count(cands[k]) == 1
}

/// Some cell has a mask that allows exactly one digit.
pub open spec fn has_forced(cands: Map<u8, u16>) -> bool {
    exists|k: u8| is_forced(cands, k)
}

/// The branch after cell `k` was filled with the lowest digit its mask
/// allows.
pub open spec fn fill(b: Branch, k: u8) -> Branch {
    place(b, k, lowest_digit(b.cands[k]))
}

/// Every cell that has a mask has two candidates or more: no digit is
/// forced, and no cell is without one.
pub open spec fn settled(cands: Map<u8, u16>) -> bool {
    forall|j: u8| #[trigger] cands.contains_key(j) ==> bit_count(cands[j]) >= 2
}

/// Propagation to its fixpoint, of a well-formed branch. A branch in which
/// some cell has no candidate is a dead end: `None`. Else, while some cell
/// has a single candidate, such a cell is filled; the branch that is left
/// when no digit is forced any more is the result. Which forced cell is
/// filled first makes no difference to the result.
pub open spec fn settle(b: Branch) -> Option<Branch>
    decreases weight(b.cands),
    when branch_ok(b)
{
    if has_empty(b.cands) {
        None
    } else if has_forced(b.cands) {
        proof {
            lemma_fill(b, choose|k: u8| is_forced(b.cands, k));
        }
        settle(fill(b, choose|k: u8| is_forced(b.cands, k)))
    } else {
        Some(b)
    }
}

/// `k` has the fewest candidates among the cells that have masks, and the
/// lowest index among those with as few.
pub open spec fn is_pivot(cands: Map<u8, u16>, k: u8) -> bool {
    cands.contains_key(k) && forall|j: u8| #[trigger]
        cands.contains_key(j) ==> bit_count(cands[k]) < bit_count(cands[j]) || (bit_count(cands[k])
            == bit_count(cands[j]) && k <= j)
}

/// The cell to branch on.
pub open spec fn pivot(cands: Map<u8, u16>) -> u8 {
    choose|k: u8| is_pivot(cands, k)
}

/// The branches that fix cell `k` to each digit up to `d` that its mask
/// allows, in rising order of the digit.
pub open spec fn children(b: Branch, k: u8, d: nat) -> Seq<Branch>
    decreases d,
{
    if d == 0 {
        Seq::empty()
    } else if allows(b.cands[k], d as u8) {
        children(b, k, (d - 1) as nat).push(place(b, k, d as u8))
    } else {
        children(b, k, (d - 1) as nat)
    }
}

/// Ten to the power `n`.
pub open spec fn pow10(n: nat) -> nat
    decreases n,
{
    if n == 0 {
        1
    } else {
        10 * pow10((n - 1) as nat)
    }
}

/// A power of ten is at least one.
pub proof fn lemma_pow10_positive(n: nat)
    ensures
        pow10(n) >= 1,
    decreases n,
{
    if n > 0 {
        lemma_pow10_positive((n - 1) as nat);
    }
}

/// A measure of the work a stack of branches stands for. Replacing a branch
/// by its children lowers it.
pub open spec fn stack_weight(stack: Seq<Branch>) -> nat
    decreases stack.len(),
{
    if stack.len() == 0 {
        0
    } else {
        stack_weight(stack.drop_last()) + pow10(weight(stack.last().cands))
    }
}

/// The stack after its top branch was taken off and propagated to `after`.
pub open spec fn branched(stack: Seq<Branch>, after: Branch) -> Seq<Branch> {
    stack.drop_last() + children(after, pivot(after.cands), 9)
}

/// Every branch of the stack is well formed.
pub open spec fn all_ok(stack: Seq<Branch>) -> bool {
    forall|i: int| 0 <= i < stack.len() ==> branch_ok(#[trigger] stack[i])
}

/// Depth-first search from a stack of well-formed branches, the last one on
/// top. The top branch is propagated. A dead end is dropped; a branch with
/// no empty cell left is the result; any other is replaced by its children,
/// so that the highest digit is tried first. An empty stack has no result.
pub open spec fn search(stack: Seq<Branch>) -> Option<Seq<u8>>
    decreases stack_weight(stack),
    when all_ok(stack)
{
    if stack.len() == 0 {
        None
    } else {
        match settle(stack.last()) {
            None => {
                proof {
                    lemma_pow10_positive(weight(stack.last().cands));
                }
                search(stack.drop_last())
            },
            Some(after) => if after.cands.is_empty() {
                Some(after.board)
            } else {
                proof {
                    lemma_settle(stack.last());
                    lemma_branched(stack, after);
                }
                search(branched(stack, after))
            },
        }
    }
}

/// Every empty cell of `board` with all nine digits possible.
pub open spec fn blank_cands(board: Seq<u8>) -> Map<u8, u16> {
    Map::new(|k: u8| k < 81 && board[k as int] == 0, |k: u8| ALL_DIGITS)
}

/// `cands` after the digit of each filled cell from `k` on was struck from
/// the cells adjacent to it.
pub open spec fn strike_givens(board: Seq<u8>, cands: Map<u8, u16>, k: nat) -> Map<u8, u16>
    decreases 81 - k,
{
    if k >= 81 {
        cands
    } else if board[k as int] != 0 {
        strike_givens(board, strike_around(cands, k as u8, board[k as int]), k + 1)
    } else {
        strike_givens(board, cands, k + 1)
    }
}

/// The branch the search starts from.
pub open spec fn first_branch(board: Seq<u8>) -> Branch {
    Branch { board, cands: strike_givens(board, blank_cands(board), 0) }
}

/// What solving `board` yields. Where two adjacent cells of `board` hold
/// the same digit there is nothing to find: `None`. Else it is the first
/// full board the search reaches, or `None` where it reaches none.
pub open spec fn solution(board: Seq<u8>) -> Option<Seq<u8>> {
    if givens_agree(board) {
        search(seq![first_branch(board)])
    } else {
        None
    }
}

} // verus!
