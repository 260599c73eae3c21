//! Soundness of the search: every branch it makes keeps the given digits
//! and fills cells without a clash, so a branch with no empty cell left
//! fills the blanks of the given board.

use crate::cells::adjacent;
use crate::cells::valid_board;
use crate::laws::fills_blanks;
use crate::masks::ALL_DIGITS;
use crate::masks::allows;
use crate::masks::is_digit;
use crate::masks::lemma_strike;
use crate::masks::lowest_digit;
use crate::measure::lemma_branched;
use crate::measure::lemma_fill;
use crate::measure::lemma_place;
use crate::measure::lemma_settle;
use crate::model::Branch;
use crate::model::blank_cands;
use crate::model::branch_ok;
use crate::model::branched;
use crate::model::children;
use crate::model::fill;
use crate::model::first_branch;
use crate::model::has_empty;
use crate::model::has_forced;
use crate::model::is_forced;
use crate::model::lemma_pow10_positive;
use crate::model::masks_ok;
use crate::model::pivot;
use crate::model::place;
use crate::model::search;
use crate::model::settle;
use crate::model::stack_weight;
use crate::model::strike_around;
use crate::model::strike_givens;
use crate::model::weight;
use vstd::prelude::*;

verus! {

/// What holds of every branch the search makes from `given`: the masks are
/// those of the empty cells, the given digits are in place, no cell filled
/// by the search clashes with an adjacent one, and no mask allows the digit
/// of an adjacent cell.
pub open spec fn sound(given: Seq<u8>, b: Branch) -> bool {
    &&& branch_ok(b)
    &&& valid_board(given)
    &&& forall|k: u8| k < 81 ==> (#[trigger] b.cands.contains_key(k) <==> b.board[k as int] == 0)
    &&& forall|k: int| 0 <= k < 81 && given[k] != 0 ==> #[trigger] b.board[k] == given[k]
    &&& forall|a: int, c: int|
        0 <= a < 81 && 0 <= c < 81 && adjacent(a, c) && b.board[a] != 0 && (given[a] == 0
            || given[c] == 0) ==> #[trigger] b.board[a] != #[trigger] b.board[c]
    &&& forall|k: u8, j: int|
        #![trigger b.cands.contains_key(k), b.board[j]]
        b.cands.contains_key(k) && 0 <= j < 81 && adjacent(k as int, j) && b.board[j] != 0
            ==> !allows(b.cands[k], b.board[j])
}

/// After the given digits from `k` on were struck, a mask allows a digit
/// exactly when it did before and none of those cells adjacent to it holds
/// the digit.
pub proof fn lemma_strike_givens(board: Seq<u8>, cands: Map<u8, u16>, k: nat)
    requires
        valid_board(board),
        masks_ok(cands),
    ensures
        masks_ok(strike_givens(board, cands, k)),
        strike_givens(board, cands, k).dom() == cands.dom(),
        forall|j: u8, d: u8|
            #![trigger allows(strike_givens(board, cands, k)[j], d)]
            cands.contains_key(j) && is_digit(d) ==> (allows(strike_givens(board, cands, k)[j], d)
                <==> allows(cands[j], d) && forall|c: int|
                k <= c < 81 && adjacent(c, j as int) ==> #[trigger] board[c] != d),
    decreases 81 - k,
{
    if k < 81 {
        if board[k as int] != 0 {
            let e = board[k as int];
            let next = strike_around(cands, k as u8, e);
            assert(next.dom() =~= cands.dom());
            assert forall|j: u8| #[trigger] next.contains_key(j) implies j < 81 && next[j]
                <= ALL_DIGITS by {
                lemma_strike(cands[j], e, e);
            }
            lemma_strike_givens(board, next, k + 1);
            let r = strike_givens(board, cands, k);
            assert forall|j: u8, d: u8|
                #![trigger allows(r[j], d)]
                cands.contains_key(j) && is_digit(d) implies (allows(r[j], d) <==> allows(
                cands[j],
                d,
            ) && forall|c: int| k <= c < 81 && adjacent(c, j as int) ==> #[trigger] board[c] != d) by {
                lemma_strike(cands[j], e, d);
                assert(next.contains_key(j));
                if adjacent(k as int, j as int) && e == d {
                    assert(board[k as int] == d);
                }
            }
        } else {
            lemma_strike_givens(board, cands, k + 1);
        }
    }
}

/// The masks the search starts from: one for each empty cell, which allows
/// a digit exactly when no cell adjacent to it holds that digit.
pub proof fn lemma_first_candidates(given: Seq<u8>)
    requires
        valid_board(given),
    ensures
        masks_ok(first_branch(given).cands),
        forall|j: u8| #[trigger]
            first_branch(given).cands.contains_key(j) <==> j < 81 && given[j as int] == 0,
        forall|j: u8, d: u8|
            #![trigger allows(first_branch(given).cands[j], d)]
            j < 81 && given[j as int] == 0 && is_digit(d) ==> (allows(
                first_branch(given).cands[j],
                d,
            ) <==> forall|c: int| 0 <= c < 81 && adjacent(c, j as int) ==> #[trigger] given[c] != d),
{
    let blank = blank_cands(given);
    lemma_strike_givens(given, blank, 0);
    assert forall|j: u8, d: u8|
        #![trigger allows(first_branch(given).cands[j], d)]
        j < 81 && given[j as int] == 0 && is_digit(d) implies (allows(
        first_branch(given).cands[j],
        d,
    ) <==> forall|c: int| 0 <= c < 81 && adjacent(c, j as int) ==> #[trigger] given[c] != d) by {
        lemma_strike(ALL_DIGITS, d, d);
        assert(blank.contains_key(j));
    }
}

/// The first branch is sound.
pub proof fn lemma_first_sound(given: Seq<u8>)
    requires
        valid_board(given),
    ensures
        sound(given, first_branch(given)),
{
    lemma_first_candidates(given);
    let b = first_branch(given);
    assert forall|k: u8, j: int|
        #![trigger b.cands.contains_key(k), b.board[j]]
        b.cands.contains_key(k) && 0 <= j < 81 && adjacent(k as int, j) && b.board[j] != 0
        implies !allows(b.cands[k], b.board[j]) by {
        let d = b.board[j];
        if allows(b.cands[k], d) {
            assert(given[j] != d);
        }
    }
}

/// Writing a digit that the mask of an empty cell allows keeps a branch
/// sound.
pub proof fn lemma_place_sound(given: Seq<u8>, b: Branch, k: u8, d: u8)
    requires
        sound(given, b),
        b.cands.contains_key(k),
        is_digit(d),
        allows(b.cands[k], d),
    ensures
        sound(given, place(b, k, d)),
{
    let a = place(b, k, d);
    lemma_place(b, k, d);
    assert(b.board[k as int] == 0);
    assert(given[k as int] == 0);
    assert forall|x: int, c: int|
        0 <= x < 81 && 0 <= c < 81 && adjacent(x, c) && a.board[x] != 0 && (given[x] == 0
            || given[c] == 0) implies #[trigger] a.board[x] != #[trigger] a.board[c] by {
        if x == k as int {
            if b.board[c] != 0 {
                assert(b.cands.contains_key(k));
                assert(!allows(b.cands[k], b.board[c]));
            }
        } else if c == k as int {
            assert(b.cands.contains_key(k));
            assert(!allows(b.cands[k], b.board[x]));
        } else {
            assert(b.board[x] != b.board[c]);
        }
    }
    assert forall|j: u8, c: int|
        #![trigger a.cands.contains_key(j), a.board[c]]
        a.cands.contains_key(j) && 0 <= c < 81 && adjacent(j as int, c) && a.board[c] != 0
        implies !allows(a.cands[j], a.board[c]) by {
        assert(b.cands.contains_key(j));
        lemma_strike(b.cands[j], d, a.board[c]);
        lemma_strike(b.cands[j], d, d);
        if c != k as int {
            assert(!allows(b.cands[j], b.board[c]));
        }
    }
}

/// Propagation keeps a branch sound.
pub proof fn lemma_settle_sound(given: Seq<u8>, b: Branch)
    requires
        sound(given, b),
    ensures
        match settle(b) {
            Some(after) => sound(given, after),
            None => true,
        },
    decreases weight(b.cands),
{
    if !has_empty(b.cands) && has_forced(b.cands) {
        let k = choose|k: u8| is_forced(b.cands, k);
        lemma_fill(b, k);
        lemma_place_sound(given, b, k, lowest_digit(b.cands[k]));
        lemma_settle_sound(given, fill(b, k));
    }
}

/// The children of a sound branch are sound.
pub proof fn lemma_children_sound(given: Seq<u8>, b: Branch, k: u8, d: nat)
    requires
        sound(given, b),
        b.cands.contains_key(k),
        d <= 9,
    ensures
        forall|i: int|
            0 <= i < children(b, k, d).len() ==> sound(given, #[trigger] children(b, k, d)[i]),
    decreases d,
{
    if d > 0 {
        lemma_children_sound(given, b, k, (d - 1) as nat);
        let rest = children(b, k, (d - 1) as nat);
        let all = children(b, k, d);
        if allows(b.cands[k], d as u8) {
            lemma_place_sound(given, b, k, d as u8);
            assert(all == rest.push(place(b, k, d as u8)));
        } else {
            assert(all == rest);
        }
        assert forall|i: int| 0 <= i < all.len() implies sound(given, #[trigger] all[i]) by {
            if i < rest.len() {
                assert(all[i] == rest[i]);
            }
        }
    }
}

/// Every branch of the stack is sound.
pub open spec fn all_sound(given: Seq<u8>, stack: Seq<Branch>) -> bool {
    forall|i: int| 0 <= i < stack.len() ==> sound(given, #[trigger] stack[i])
}

/// A sound branch with no mask left fills the blanks of the given board.
pub proof fn lemma_sound_full(given: Seq<u8>, b: Branch)
    requires
        sound(given, b),
        b.cands.is_empty(),
    ensures
        fills_blanks(given, b.board),
{
    assert forall|k: int| 0 <= k < 81 implies 1 <= #[trigger] b.board[k] <= 9 by {
        assert(!b.cands.contains_key(k as u8));
    }
}

/// The stack after a step of the search is sound, and lighter.
pub proof fn lemma_branched_sound(given: Seq<u8>, stack: Seq<Branch>, after: Branch)
    requires
        all_sound(given, stack),
        stack.len() > 0,
        settle(stack.last()) == Some(after),
        !after.cands.is_empty(),
    ensures
        all_sound(given, branched(stack, after)),
        stack_weight(branched(stack, after)) < stack_weight(stack),
        sound(given, after),
        after.cands.contains_key(pivot(after.cands)),
{
    lemma_settle_sound(given, stack.last());
    lemma_settle(stack.last());
    lemma_branched(stack, after);
    lemma_children_sound(given, after, pivot(after.cands), 9);
}

/// What the search returns from sound branches fills the blanks of the
/// given board.
pub proof fn lemma_search_sound(given: Seq<u8>, stack: Seq<Branch>)
    requires
        all_sound(given, stack),
    ensures
        match search(stack) {
            Some(full) => fills_blanks(given, full),
            None => true,
        },
    decreases stack_weight(stack),
{
    if stack.len() > 0 {
        lemma_pow10_positive(weight(stack.last().cands));
        match settle(stack.last()) {
            None => {
                lemma_search_sound(given, stack.drop_last());
            },
            Some(after) => {
                lemma_settle_sound(given, stack.last());
                if after.cands.is_empty() {
                    lemma_sound_full(given, after);
                } else {
                    lemma_branched_sound(given, stack, after);
                    lemma_search_sound(given, branched(stack, after));
                }
            },
        }
    }
}

} // verus!
