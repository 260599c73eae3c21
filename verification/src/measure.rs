//! Why the search ends: every step lowers the number of candidates that are
//! left, and with it the weight of the stack.

use crate::cells::adjacent;
use crate::masks::ALL_DIGITS;
use crate::masks::allows;
use crate::masks::bit_count;
use crate::masks::is_digit;
use crate::masks::lemma_count;
use crate::masks::lemma_single;
use crate::masks::lemma_strike;
use crate::masks::lowest_digit;
use crate::model::Branch;
use crate::model::all_ok;
use crate::model::branch_ok;
use crate::model::branched;
use crate::model::children;
use crate::model::fill;
use crate::model::has_empty;
use crate::model::has_forced;
use crate::model::is_forced;
use crate::model::is_pivot;
use crate::model::lemma_pow10_positive;
use crate::model::pivot;
use crate::model::place;
use crate::model::pow10;
use crate::model::settle;
use crate::model::settled;
use crate::model::stack_weight;
use crate::model::tally;
use crate::model::term;
use crate::model::touches;
use crate::model::weight;
use vstd::prelude::*;

verus! {

/// Where no cell has more candidates in `b` than in `a`, `b` counts no more.
pub proof fn lemma_tally_le(a: Map<u8, u16>, b: Map<u8, u16>, n: nat)
    requires
        n <= 81,
        forall|k: u8| (k as nat) < n ==> #[trigger] term(b, k) <= term(a, k),
    ensures
        tally(b, n) <= tally(a, n),
    decreases n,
{
    if n > 0 {
        lemma_tally_le(a, b, (n - 1) as nat);
    }
}

/// Where, besides, cell `j` has fewer candidates in `b`, `b` counts fewer.
pub proof fn lemma_tally_lt(a: Map<u8, u16>, b: Map<u8, u16>, n: nat, j: u8)
    requires
        n <= 81,
        forall|k: u8| (k as nat) < n ==> #[trigger] term(b, k) <= term(a, k),
        (j as nat) < n,
        term(b, j) < term(a, j),
    ensures
        tally(b, n) < tally(a, n),
    decreases n,
{
    if j as nat == n - 1 {
        lemma_tally_le(a, b, (n - 1) as nat);
    } else {
        lemma_tally_lt(a, b, (n - 1) as nat, j);
    }
}

/// Filling a cell keeps a branch well formed and never adds a candidate. It
/// removes one where the cell had any, and where an adjacent cell allowed
/// the digit.
pub proof fn lemma_place(b: Branch, k: u8, d: u8)
    requires
        branch_ok(b),
        b.cands.contains_key(k),
        is_digit(d),
    ensures
        branch_ok(place(b, k, d)),
        weight(place(b, k, d).cands) <= weight(b.cands),
        b.cands[k] != 0 ==> weight(place(b, k, d).cands) < weight(b.cands),
        touches(b.cands, k, d) ==> weight(place(b, k, d).cands) < weight(b.cands),
{
    let a = place(b, k, d);
    assert forall|j: u8| #[trigger] term(a.cands, j) <= term(b.cands, j) by {
        if a.cands.contains_key(j) {
            lemma_strike(b.cands[j], d, d);
        }
    }
    assert forall|j: u8| #[trigger] a.cands.contains_key(j) implies j < 81 && a.cands[j]
        <= ALL_DIGITS by {
        lemma_strike(b.cands[j], d, d);
    }
    lemma_tally_le(b.cands, a.cands, 81);
    if b.cands[k] != 0 {
        lemma_count(b.cands[k]);
        assert(term(a.cands, k) < term(b.cands, k));
        lemma_tally_lt(b.cands, a.cands, 81, k);
    }
    if touches(b.cands, k, d) {
        let j = choose|j: u8| #[trigger]
            b.cands.contains_key(j) && adjacent(k as int, j as int) && allows(
                b.cands[j],
                d,
            );
        lemma_strike(b.cands[j], d, d);
        assert(a.cands.contains_key(j));
        assert(term(a.cands, j) < term(b.cands, j));
        lemma_tally_lt(b.cands, a.cands, 81, j);
    }
}

/// Filling a forced cell keeps a branch well formed and lowers its weight.
pub proof fn lemma_fill(b: Branch, k: u8)
    requires
        branch_ok(b),
        is_forced(b.cands, k),
    ensures
        is_digit(lowest_digit(b.cands[k])),
        allows(b.cands[k], lowest_digit(b.cands[k])),
        branch_ok(fill(b, k)),
        weight(fill(b, k).cands) < weight(b.cands),
        fill(b, k).cands.dom() == b.cands.dom().remove(k),
{
    let d = lowest_digit(b.cands[k]);
    lemma_single(b.cands[k], d);
    lemma_count(b.cands[k]);
    lemma_place(b, k, d);
    assert(fill(b, k).cands.dom() =~= b.cands.dom().remove(k));
}

/// Propagation keeps a branch well formed, adds neither candidates nor
/// cells with masks, and ends where no digit is forced.
pub proof fn lemma_settle(b: Branch)
    requires
        branch_ok(b),
    ensures
        match settle(b) {
            Some(after) => {
                &&& branch_ok(after)
                &&& weight(after.cands) <= weight(b.cands)
                &&& after.cands.dom().subset_of(b.cands.dom())
                &&& settled(after.cands)
            },
            None => true,
        },
    decreases weight(b.cands),
{
    if has_empty(b.cands) {
    } else if has_forced(b.cands) {
        let k = choose|k: u8| is_forced(b.cands, k);
        lemma_fill(b, k);
        lemma_settle(fill(b, k));
    } else {
        assert forall|j: u8| #[trigger] b.cands.contains_key(j) implies bit_count(b.cands[j])
            >= 2 by {
            lemma_count(b.cands[j]);
            assert(!is_forced(b.cands, j));
        }
    }
}

/// A branch in which no digit is forced and no cell is without a candidate
/// is its own fixpoint.
pub proof fn lemma_settled(b: Branch)
    requires
        branch_ok(b),
        settled(b.cands),
    ensures
        settle(b) == Some(b),
{
    assert(!has_empty(b.cands)) by {
        if has_empty(b.cands) {
            let z = choose|z: u8| #[trigger] b.cands.contains_key(z) && b.cands[z] == 0;
            lemma_count(b.cands[z]);
        }
    }
    assert(!has_forced(b.cands)) by {
        if has_forced(b.cands) {
            let k = choose|k: u8| is_forced(b.cands, k);
            assert(b.cands.contains_key(k));
        }
    }
}

/// `a` comes before `b` in the order by which the pivot is chosen.
pub open spec fn before(cands: Map<u8, u16>, a: u8, b: u8) -> bool {
    bit_count(cands[a]) < bit_count(cands[b]) || (bit_count(cands[a]) == bit_count(cands[b]) && a
        <= b)
}

proof fn lemma_best_below(cands: Map<u8, u16>, n: nat) -> (r: u8)
    requires
        n <= 256,
        exists|k: u8| (k as nat) < n && cands.contains_key(k),
    ensures
        cands.contains_key(r),
        (r as nat) < n,
        forall|j: u8| (j as nat) < n && #[trigger] cands.contains_key(j) ==> before(cands, r, j),
    decreases n,
{
    let last = (n - 1) as u8;
    if exists|k: u8| (k as nat) < n - 1 && cands.contains_key(k) {
        let r0 = lemma_best_below(cands, (n - 1) as nat);
        if cands.contains_key(last) && bit_count(cands[last]) < bit_count(cands[r0]) {
            last
        } else {
            r0
        }
    } else {
        let w = choose|k: u8| (k as nat) < n && cands.contains_key(k);
        assert(w == last);
        last
    }
}

/// Where any cell has a mask, the pivot is one of them and comes first.
pub proof fn lemma_pivot_exists(cands: Map<u8, u16>)
    requires
        !cands.is_empty(),
    ensures
        is_pivot(cands, pivot(cands)),
{
    assert(exists|k: u8| cands.dom().contains(k)) by {
        if forall|k: u8| !cands.dom().contains(k) {
            assert(cands.dom() =~= Set::empty());
        }
    }
    let w = choose|k: u8| cands.dom().contains(k);
    assert((w as nat) < 256 && cands.contains_key(w));
    let r = lemma_best_below(cands, 256);
    assert(is_pivot(cands, r));
}

/// No two cells come first: the cell that does is the pivot.
pub proof fn lemma_pivot_unique(cands: Map<u8, u16>, k: u8)
    requires
        is_pivot(cands, k),
    ensures
        pivot(cands) == k,
{
    let p = pivot(cands);
    assert(is_pivot(cands, p));
    assert(cands.contains_key(p) && cands.contains_key(k));
}

/// Powers of ten grow with the exponent.
pub proof fn lemma_pow10_monotone(a: nat, b: nat)
    requires
        a <= b,
    ensures
        pow10(a) <= pow10(b),
    decreases b,
{
    if a < b {
        lemma_pow10_monotone(a, (b - 1) as nat);
    }
}

/// The weight of two stacks put together is the sum of their weights.
pub proof fn lemma_stack_concat(a: Seq<Branch>, b: Seq<Branch>)
    ensures
        stack_weight(a + b) == stack_weight(a) + stack_weight(b),
    decreases b.len(),
{
    if b.len() == 0 {
        assert(a + b =~= a);
    } else {
        lemma_stack_concat(a, b.drop_last());
        assert((a + b).drop_last() =~= a + b.drop_last());
        assert((a + b).last() == b.last());
    }
}

/// The children of a branch are well formed, and ten times their weight is
/// at most the weight of the branch for each digit tried.
pub proof fn lemma_children(b: Branch, k: u8, d: nat)
    requires
        branch_ok(b),
        b.cands.contains_key(k),
        d <= 9,
    ensures
        forall|i: int|
            0 <= i < children(b, k, d).len() ==> branch_ok(#[trigger] children(b, k, d)[i]),
        10 * stack_weight(children(b, k, d)) <= d * pow10(weight(b.cands)),
    decreases d,
{
    if d > 0 {
        lemma_children(b, k, (d - 1) as nat);
        let rest = children(b, k, (d - 1) as nat);
        let unit = pow10(weight(b.cands));
        assert((d - 1) * unit + unit == d * unit) by (nonlinear_arith);
        if allows(b.cands[k], d as u8) {
            let c = place(b, k, d as u8);
            lemma_place(b, k, d as u8);
            lemma_strike(b.cands[k], d as u8, d as u8);
            assert(weight(c.cands) < weight(b.cands));
            lemma_pow10_monotone(weight(c.cands), (weight(b.cands) - 1) as nat);
            let all = rest.push(c);
            assert(all.drop_last() =~= rest);
            assert(all.last() == c);
            assert(stack_weight(all) == stack_weight(rest) + pow10(weight(c.cands)));
        } else {
            assert((d - 1) * unit <= d * unit) by (nonlinear_arith)
                requires
                    unit >= 0,
            ;
        }
    }
}

/// Replacing the top of a stack by the children of what it propagated to
/// lowers the weight of the stack, and the children are well formed.
pub proof fn lemma_branched(stack: Seq<Branch>, after: Branch)
    requires
        stack.len() > 0,
        branch_ok(after),
        weight(after.cands) <= weight(stack.last().cands),
        !after.cands.is_empty(),
    ensures
        stack_weight(branched(stack, after)) < stack_weight(stack),
        is_pivot(after.cands, pivot(after.cands)),
        forall|i: int|
            0 <= i < children(after, pivot(after.cands), 9).len() ==> branch_ok(
                #[trigger] children(after, pivot(after.cands), 9)[i],
            ),
        all_ok(stack) ==> all_ok(branched(stack, after)),
{
    lemma_pivot_exists(after.cands);
    let k = pivot(after.cands);
    lemma_children(after, k, 9);
    lemma_stack_concat(stack.drop_last(), children(after, k, 9));
    lemma_pow10_monotone(weight(after.cands), weight(stack.last().cands));
    lemma_pow10_positive(weight(after.cands));
    if all_ok(stack) {
        let next = branched(stack, after);
        let rest = stack.drop_last();
        assert forall|i: int| 0 <= i < next.len() implies branch_ok(#[trigger] next[i]) by {
            if i < rest.len() {
                assert(next[i] == stack[i]);
            } else {
                assert(next[i] == children(after, k, 9)[i - rest.len()]);
            }
        }
    }
}

} // verus!
