//! Completeness of the search: a filled board that the first branch admits
//! is admitted by some branch of the stack at every step, so the search
//! cannot end without a result while such a board exists.

use crate::cells::adjacent;
use crate::cells::valid_board;
use crate::laws::fills_blanks;
use crate::masks::allows;
use crate::masks::is_digit;
use crate::masks::lemma_single;
use crate::masks::lemma_strike;
use crate::measure::lemma_fill;
use crate::model::Branch;
use crate::model::branched;
use crate::model::children;
use crate::model::fill;
use crate::model::first_branch;
use crate::model::has_empty;
use crate::model::has_forced;
use crate::model::is_forced;
use crate::model::lemma_pow10_positive;
use crate::model::pivot;
use crate::model::place;
use crate::model::search;
use crate::model::settle;
use crate::model::stack_weight;
use crate::model::weight;
use crate::sound::all_sound;
use crate::sound::lemma_branched_sound;
use crate::sound::lemma_first_candidates;
use crate::sound::lemma_place_sound;
use crate::sound::sound;
use vstd::prelude::*;

verus! {

/// Branch `b` admits the filled board `full`: where `b` has a digit, `full`
/// has the same, and where it has a mask, the mask allows the digit of
/// `full`.
pub open spec fn fits(b: Branch, full: Seq<u8>) -> bool {
    forall|k: u8|
        k < 81 ==> if #[trigger] b.cands.contains_key(k) {
            allows(b.cands[k], full[k as int])
        } else {
            b.board[k as int] == full[k as int]
        }
}

/// The first branch admits every board that fills the blanks of the given
/// one.
pub proof fn lemma_first_fits(given: Seq<u8>, full: Seq<u8>)
    requires
        valid_board(given),
        fills_blanks(given, full),
    ensures
        fits(first_branch(given), full),
{
    lemma_first_candidates(given);
    let b = first_branch(given);
    assert forall|k: u8| k < 81 implies if #[trigger] b.cands.contains_key(k) {
        allows(b.cands[k], full[k as int])
    } else {
        b.board[k as int] == full[k as int]
    } by {
        if b.cands.contains_key(k) {
            let d = full[k as int];
            assert(is_digit(d));
            assert forall|c: int| 0 <= c < 81 && adjacent(c, k as int) implies #[trigger] given[c]
                != d by {
                if given[c] != 0 {
                    assert(full[c] == given[c]);
                    assert(full[c] != full[k as int]);
                }
            }
            assert(allows(b.cands[k], d));
        } else {
            assert(full[k as int] == given[k as int]);
        }
    }
}

/// Writing into an empty cell the digit that an admitted board has there
/// keeps the board admitted.
pub proof fn lemma_place_fits(given: Seq<u8>, b: Branch, k: u8, full: Seq<u8>)
    requires
        sound(given, b),
        fills_blanks(given, full),
        fits(b, full),
        b.cands.contains_key(k),
    ensures
        fits(place(b, k, full[k as int]), full),
{
    let d = full[k as int];
    let a = place(b, k, d);
    assert(k < 81);
    assert(b.board[k as int] == 0);
    assert(given[k as int] == 0);
    assert forall|j: u8| j < 81 implies if #[trigger] a.cands.contains_key(j) {
        allows(a.cands[j], full[j as int])
    } else {
        a.board[j as int] == full[j as int]
    } by {
        if a.cands.contains_key(j) {
            assert(b.cands.contains_key(j));
            lemma_strike(b.cands[j], d, full[j as int]);
            if adjacent(k as int, j as int) {
                assert(full[k as int] != full[j as int]);
            }
        } else if j != k {
            assert(!b.cands.contains_key(j));
        }
    }
}

/// Propagation of a sound branch that admits a filled board is no dead end,
/// and the branch it leaves admits the board too.
pub proof fn lemma_settle_fits(given: Seq<u8>, b: Branch, full: Seq<u8>)
    requires
        sound(given, b),
        fills_blanks(given, full),
        fits(b, full),
    ensures
        settle(b) matches Some(after) && fits(after, full),
    decreases weight(b.cands),
{
    assert(!has_empty(b.cands)) by {
        if has_empty(b.cands) {
            let z = choose|z: u8| #[trigger] b.cands.contains_key(z) && b.cands[z] == 0;
            assert(allows(b.cands[z], full[z as int]));
            lemma_strike(b.cands[z], full[z as int], full[z as int]);
        }
    }
    if has_forced(b.cands) {
        let k = choose|k: u8| is_forced(b.cands, k);
        let d = full[k as int];
        assert(allows(b.cands[k], d));
        lemma_single(b.cands[k], d);
        lemma_fill(b, k);
        lemma_place_sound(given, b, k, d);
        lemma_place_fits(given, b, k, full);
        lemma_settle_fits(given, fill(b, k), full);
    }
}

/// Among the children of a branch that admits a filled board, one admits
/// it: the one for the digit the board has in the pivot.
pub proof fn lemma_children_fit(given: Seq<u8>, b: Branch, k: u8, d: nat, full: Seq<u8>) -> (i: int)
    requires
        sound(given, b),
        fills_blanks(given, full),
        fits(b, full),
        b.cands.contains_key(k),
        full[k as int] <= d <= 9,
    ensures
        0 <= i < children(b, k, d).len(),
        fits(children(b, k, d)[i], full),
    decreases d,
{
    assert(1 <= full[k as int]);
    assert(allows(b.cands[k], full[k as int]));
    if d == full[k as int] {
        lemma_place_fits(given, b, k, full);
        children(b, k, d).len() - 1
    } else {
        let i = lemma_children_fit(given, b, k, (d - 1) as nat, full);
        if allows(b.cands[k], d as u8) {
            assert(children(b, k, d)[i] == children(b, k, (d - 1) as nat)[i]);
        }
        i
    }
}

/// While some branch of a sound stack admits a filled board, the search
/// returns a result.
pub proof fn lemma_search_complete(given: Seq<u8>, stack: Seq<Branch>, i: int, full: Seq<u8>)
    requires
        all_sound(given, stack),
        fills_blanks(given, full),
        0 <= i < stack.len(),
        fits(stack[i], full),
    ensures
        search(stack).is_some(),
    decreases stack_weight(stack),
{
    lemma_pow10_positive(weight(stack.last().cands));
    let top = stack.len() - 1;
    let rest = stack.drop_last();
    if i == top {
        lemma_settle_fits(given, stack.last(), full);
    }
    match settle(stack.last()) {
        None => {
            assert(rest[i] == stack[i]);
            lemma_search_complete(given, rest, i, full);
        },
        Some(after) => {
            if !after.cands.is_empty() {
                lemma_branched_sound(given, stack, after);
                let next = branched(stack, after);
                let kids = children(after, pivot(after.cands), 9);
                if i == top {
                    let c = lemma_children_fit(given, after, pivot(after.cands), 9, full);
                    assert(next[rest.len() + c] == kids[c]);
                    lemma_search_complete(given, next, rest.len() + c, full);
                } else {
                    assert(next[i] == stack[i]);
                    lemma_search_complete(given, next, i, full);
                }
            }
        },
    }
}

} // verus!
