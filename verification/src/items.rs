//! Sequences of cell indices and digits as they come out of a collection.

use vstd::prelude::*;

verus! {

/// The first `i + 1` items hold what the first `i` hold, and item `i`.
pub proof fn lemma_take_contains(s: Seq<u8>, i: int, x: u8)
    requires
        0 <= i < s.len(),
    ensures
        s.take(i + 1).contains(x) == (s.take(i).contains(x) || s[i] == x),
{
    let short = s.take(i);
    let long = s.take(i + 1);
    if short.contains(x) {
        let p = choose|p: int| 0 <= p < short.len() && short[p] == x;
        assert(long[p] == x);
    }
    if s[i] == x {
        assert(long[i] == x);
    }
    if long.contains(x) {
        let p = choose|p: int| 0 <= p < long.len() && long[p] == x;
        if p < i {
            assert(short[p] == x);
        }
    }
}

} // verus!
