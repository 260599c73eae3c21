//! Propagation does not depend on the order in which forced cells are
//! filled: filling any one of them first leads to the same fixpoint, or to a
//! dead end either way.

use crate::cells::adjacent;
use crate::masks::allows;
use crate::masks::bit_count;
use crate::masks::is_digit;
use crate::masks::lemma_count;
use crate::masks::lemma_single;
use crate::masks::lemma_strike;
use crate::masks::lemma_strike_twice;
use crate::masks::lowest_digit;
use crate::masks::strike;
use crate::measure::lemma_fill;
use crate::model::Branch;
use crate::model::branch_ok;
use crate::model::fill;
use crate::model::has_empty;
use crate::model::is_forced;
use crate::model::place;
use crate::model::settle;
use crate::model::weight;
use vstd::prelude::*;

verus! {

/// Writing digits into two different cells gives the same branch in either
/// order.
pub proof fn lemma_place_commutes(b: Branch, m: u8, dm: u8, k: u8, dk: u8)
    requires
        branch_ok(b),
        m != k,
        m < 81,
        k < 81,
        is_digit(dm),
        is_digit(dk),
    ensures
        place(place(b, m, dm), k, dk) == place(place(b, k, dk), m, dm),
{
    let one = place(place(b, m, dm), k, dk);
    let other = place(place(b, k, dk), m, dm);
    assert(one.board =~= other.board);
    assert forall|j: u8| #[trigger] one.cands.contains_key(j) implies one.cands[j]
        == other.cands[j] by {
        lemma_strike_twice(b.cands[j], dm, dk);
    }
    assert(one.cands =~= other.cands);
    assert(one =~= other);
}

/// Striking the only digit of a mask leaves it empty.
pub proof fn lemma_strike_single(mask: u16, d: u8)
    requires
        is_digit(d),
        bit_count(mask) == 1,
        allows(mask, d),
    ensures
        strike(mask, d) == 0,
{
    lemma_strike(mask, d, d);
    lemma_count(strike(mask, d));
}

/// Filling a cell `m` leaves another forced cell `k` forced to the same
/// digit, unless the two are adjacent and forced to one digit: then `k` is
/// left without a candidate.
pub proof fn lemma_fill_beside(b: Branch, m: u8, k: u8)
    requires
        branch_ok(b),
        is_forced(b.cands, m),
        is_forced(b.cands, k),
        m != k,
    ensures
        fill(b, m).cands.contains_key(k),
        adjacent(m as int, k as int) && lowest_digit(b.cands[m]) == lowest_digit(b.cands[k])
            ==> fill(b, m).cands[k] == 0,
        !(adjacent(m as int, k as int) && lowest_digit(b.cands[m]) == lowest_digit(b.cands[k]))
            ==> fill(b, m).cands[k] == b.cands[k],
{
    let dm = lowest_digit(b.cands[m]);
    let dk = lowest_digit(b.cands[k]);
    lemma_single(b.cands[m], dm);
    lemma_single(b.cands[k], dk);
    lemma_single(b.cands[k], dm);
    lemma_strike(b.cands[k], dm, dm);
    if adjacent(m as int, k as int) && dm == dk {
        lemma_strike_single(b.cands[k], dk);
    }
}

/// Whichever forced cell is filled first, propagation ends the same.
pub proof fn lemma_fill_any(b: Branch, k: u8)
    requires
        branch_ok(b),
        is_forced(b.cands, k),
    ensures
        settle(fill(b, k)) == settle(b),
    decreases weight(b.cands),
{
    lemma_fill(b, k);
    let bk = fill(b, k);
    if has_empty(b.cands) {
        let z = choose|z: u8| #[trigger] b.cands.contains_key(z) && b.cands[z] == 0;
        lemma_count(b.cands[z]);
        lemma_strike(0, lowest_digit(b.cands[k]), lowest_digit(b.cands[k]));
        assert(bk.cands.contains_key(z) && bk.cands[z] == 0);
    } else {
        let m = choose|m: u8| is_forced(b.cands, m);
        lemma_fill(b, m);
        let bm = fill(b, m);
        assert(settle(b) == settle(bm));
        if m != k {
            let dm = lowest_digit(b.cands[m]);
            let dk = lowest_digit(b.cands[k]);
            lemma_fill_beside(b, m, k);
            lemma_fill_beside(b, k, m);
            if adjacent(m as int, k as int) && dm == dk {
                assert(bm.cands.contains_key(k) && bm.cands[k] == 0);
                assert(bk.cands.contains_key(m) && bk.cands[m] == 0);
            } else {
                assert(is_forced(bm.cands, k));
                assert(is_forced(bk.cands, m));
                lemma_fill_any(bm, k);
                lemma_fill_any(bk, m);
                lemma_place_commutes(b, m, dm, k, dk);
                assert(fill(bm, k) == fill(bk, m));
            }
        }
    }
}

} // verus!
