//! The solver: a look at the givens, candidate masks for the empty cells,
//! propagation of forced digits, and depth-first search over a stack of
//! snapshots.

use crate::cells::adjacent;
use crate::cells::agrees_at;
use crate::cells::givens_agree;
use crate::cells::neighbor_set;
use crate::cells::solved;
use crate::cells::solves;
use crate::cells::valid_board;
use crate::confluence::lemma_fill_any;
use crate::fx::map_get;
use crate::fx::map_insert;
use crate::fx::map_keys;
use crate::fx::map_remove;
use crate::fx::set_contains;
use crate::fx::set_insert;
use crate::fx::set_items;
use crate::grid::Sudoku;
use crate::items::lemma_take_contains;
use crate::laws::lemma_solution_found;
use crate::laws::lemma_solution_solves;
use crate::masks::ALL_DIGITS;
use crate::masks::allows;
use crate::masks::bit_count;
use crate::masks::bit_of;
use crate::masks::digit_bit;
use crate::masks::is_digit;
use crate::masks::lemma_count;
use crate::masks::lemma_strike;
use crate::masks::strike;
use crate::measure::before;
use crate::measure::lemma_branched;
use crate::measure::lemma_fill;
use crate::measure::lemma_pivot_unique;
use crate::measure::lemma_place;
use crate::measure::lemma_settle;
use crate::measure::lemma_settled;
use crate::model::Branch;
use crate::model::blank_cands;
use crate::model::branch_ok;
use crate::model::branched;
use crate::model::children;
use crate::model::fill;
use crate::model::first_branch;
use crate::model::has_empty;
use crate::model::is_pivot;
use crate::model::lemma_pow10_positive;
use crate::model::masks_ok;
use crate::model::pivot;
use crate::model::place;
use crate::model::search;
use crate::model::settle;
use crate::model::settled;
use crate::model::solution;
use crate::model::stack_weight;
use crate::model::strike_around;
use crate::model::strike_givens;
use crate::model::touches;
use crate::model::weight;
use rustc_hash::FxHashMap;
use rustc_hash::FxHashSet;
use vstd::prelude::*;

verus! {

/// The search found no way to fill the grid.
#[derive(Debug, Clone, Copy, PartialEq, Eq, Structural)]
pub struct Unsolvable;

/// `links` holds cells adjacent to `k` only, and each of them that has a
/// mask.
pub open spec fn links_fit(links: Set<u8>, k: u8, cands: Map<u8, u16>) -> bool {
    links.subset_of(neighbor_set(k)) && forall|j: u8| #[trigger]
        cands.contains_key(j) && adjacent(k as int, j as int) ==> links.contains(j)
}

/// The table names, for each cell of the grid, the adjacent cells that
/// propagation has to visit: at least those that have a mask.
pub open spec fn covers(table: Map<u8, FxHashSet<u8>>, cands: Map<u8, u16>) -> bool {
    forall|k: u8| k < 81 ==> #[trigger] covers_at(table, cands, k)
}

/// The table has an entry for cell `k` that fits the masks.
pub open spec fn covers_at(table: Map<u8, FxHashSet<u8>>, cands: Map<u8, u16>, k: u8) -> bool {
    table.contains_key(k) && links_fit(table[k]@, k, cands)
}

/// The table holds, for cell `k`, the cells of `unknown` adjacent to it.
pub open spec fn entry_for(table: Map<u8, FxHashSet<u8>>, unknown: Set<u8>, k: u8) -> bool {
    table.contains_key(k) && table[k]@ == neighbor_set(k).intersect(unknown)
}

/// The table holds, for each cell of the grid, the cells of `unknown`
/// adjacent to it.
pub open spec fn table_for(table: Map<u8, FxHashSet<u8>>, unknown: Set<u8>) -> bool {
    forall|k: u8| k < 81 ==> #[trigger] entry_for(table, unknown, k)
}

/// The branches that a stack of snapshots stands for, bottom first.
pub open spec fn branches(stack: Seq<(Sudoku, FxHashMap<u8, u16>)>) -> Seq<Branch> {
    Seq::new(stack.len(), |i: int| Branch { board: stack[i].0@, cands: stack[i].1@ })
}

/// Every snapshot is well formed and the table covers its masks.
pub open spec fn stack_ok(
    stack: Seq<(Sudoku, FxHashMap<u8, u16>)>,
    table: Map<u8, FxHashSet<u8>>,
) -> bool {
    forall|i: int|
        0 <= i < stack.len() ==> branch_ok(#[trigger] branches(stack)[i]) && covers(
            table,
            stack[i].1@,
        )
}

/// A table that covers some masks covers any part of them.
pub proof fn lemma_covers_part(table: Map<u8, FxHashSet<u8>>, all: Map<u8, u16>, part: Map<u8, u16>)
    requires
        covers(table, all),
        part.dom().subset_of(all.dom()),
    ensures
        covers(table, part),
{
    assert forall|k: u8| k < 81 implies #[trigger] covers_at(table, part, k) by {
        assert(covers_at(table, all, k));
        assert forall|j: u8| #[trigger] part.contains_key(j) && adjacent(k as int, j as int)
            implies table[k]@.contains(j) by {
            assert(all.contains_key(j));
        }
    }
}

/// Every one of the first `i` keys that still has a mask has two candidates
/// or more.
spec fn visited_settled(cands: Map<u8, u16>, keys: Seq<u8>, i: int) -> bool {
    forall|p: int|
        0 <= p < i && cands.contains_key(#[trigger] keys[p]) ==> bit_count(cands[keys[p]]) >= 2
}

spec fn struck_some(start: Map<u8, u16>, done: Seq<u8>, d: u8) -> Map<u8, u16> {
    Map::new(
        |j: u8| start.contains_key(j),
        |j: u8|
            if done.contains(j) {
                strike(start[j], d)
            } else {
                start[j]
            },
    )
}

spec fn hit_some(start: Map<u8, u16>, done: Seq<u8>, d: u8) -> bool {
    exists|j: u8| done.contains(j) && #[trigger] start.contains_key(j) && allows(start[j], d)
}

/// The mask of cell `k`, where it has one.
pub fn mask_at(cands: &FxHashMap<u8, u16>, k: u8) -> (r: Option<u16>)
    ensures
        r == (if cands@.contains_key(k) {
            Some(cands@[k])
        } else {
            None
        }),
{
    match map_get(cands, k) {
        Some(m) => Some(*m),
        None => None,
    }
}

/// Strikes digit `d` from the mask of every cell adjacent to `k`, and tells
/// whether any of them allowed it.
pub fn eliminate(
    cands: &mut FxHashMap<u8, u16>,
    table: &FxHashMap<u8, FxHashSet<u8>>,
    k: u8,
    d: u8,
) -> (hit: bool)
    requires
        k < 81,
        is_digit(d),
        masks_ok(old(cands)@),
        covers(table@, old(cands)@),
    ensures
        final(cands)@ == strike_around(old(cands)@, k, d),
        hit == touches(old(cands)@, k, d),
        masks_ok(final(cands)@),
        covers(table@, final(cands)@),
{
    let ghost start = cands@;
    let slot = map_get(table, k);
    assert(covers_at(table@, cands@, k));
    let links = slot.unwrap();
    let items = set_items(links);
    let bit = bit_of(d);
    let mut hit = false;
    let mut i: usize = 0;
    while i < items.len()
        invariant
            0 <= i <= items.len(),
            is_digit(d),
            bit == digit_bit(d),
            items@.no_duplicates(),
            masks_ok(start),
            cands@ == struck_some(start, items@.take(i as int), d),
            hit == hit_some(start, items@.take(i as int), d),
        decreases items.len() - i,
    {
        let j = items[i];
        let ghost done = items@.take(i as int);
        let ghost next = items@.take(i + 1);
        proof {
            assert forall|x: u8| next.contains(x) == (done.contains(x) || x == j) by {
                lemma_take_contains(items@, i as int, x);
            }
            if done.contains(j) {
                let p = choose|p: int| 0 <= p < done.len() && done[p] == j;
                assert(items@[p] == items@[i as int]);
            }
        }
        match mask_at(cands, j) {
            Some(m) => {
                proof {
                    lemma_strike(m, d, d);
                }
                if m & bit != 0 {
                    map_insert(cands, j, m & !bit);
                    hit = true;
                    assert(start.contains_key(j) && next.contains(j) && allows(start[j], d));
                }
                assert(cands@ =~= struck_some(start, next, d));
            },
            None => {
                assert(cands@ =~= struck_some(start, next, d));
            },
        }
        proof {
            if hit_some(start, next, d) && !hit {
                let x = choose|x: u8|
                    next.contains(x) && #[trigger] start.contains_key(x) && allows(start[x], d);
                assert(done.contains(x));
            }
            if hit_some(start, done, d) {
                let x = choose|x: u8|
                    done.contains(x) && #[trigger] start.contains_key(x) && allows(start[x], d);
                assert(next.contains(x));
            }
        }
        i += 1;
    }
    proof {
        assert(items@.take(items@.len() as int) =~= items@);
        assert forall|x: u8| items@.contains(x) == links@.contains(x) by {
            assert(items@.to_set().contains(x) == items@.contains(x));
        }
        assert(covers_at(table@, start, k));
        assert(links_fit(links@, k, start));
        assert(cands@ =~= strike_around(start, k, d));
        if hit {
            let x = choose|x: u8|
                items@.contains(x) && #[trigger] start.contains_key(x) && allows(start[x], d);
            assert(links@.contains(x));
            assert(neighbor_set(k).contains(x));
        }
        if touches(start, k, d) {
            let x = choose|x: u8| #[trigger]
                start.contains_key(x) && adjacent(k as int, x as int) && allows(start[x], d);
            assert(links@.contains(x));
            assert(items@.contains(x));
        }
        assert forall|x: u8| #[trigger] cands@.contains_key(x) implies x < 81 && cands@[x]
            <= ALL_DIGITS by {
            lemma_strike(start[x], d, d);
        }
        assert forall|c: u8| c < 81 implies #[trigger] covers_at(table@, cands@, c) by {
            assert(covers_at(table@, start, c));
        }
        assert(covers(table@, cands@));
    }
    hit
}

/// Fills every cell that has a single candidate, pass after pass over the
/// cells that have masks, until a pass strikes no candidate or meets a cell
/// that has none. Returns whether the branch is still alive; of a dead end
/// the grid and the masks are of no further use.
///
/// A pass visits the cells in the order in which the map hands out its
/// keys. The result does not depend on that order.
pub fn propagate(
    grid: &mut Sudoku,
    cands: &mut FxHashMap<u8, u16>,
    table: &FxHashMap<u8, FxHashSet<u8>>,
) -> (alive: bool)
    requires
        masks_ok(old(cands)@),
        covers(table@, old(cands)@),
    ensures
        alive == settle(Branch { board: old(grid)@, cands: old(cands)@ }).is_some(),
        alive ==> settle(Branch { board: old(grid)@, cands: old(cands)@ }) == Some(
            Branch { board: final(grid)@, cands: final(cands)@ },
        ),
        alive ==> masks_ok(final(cands)@) && covers(table@, final(cands)@) && settled(
            final(cands)@,
        ),
        has_empty(old(cands)@) ==> !alive,
{
    proof {
        use_type_invariant(&*grid);
    }
    let ghost start = Branch { board: grid@, cands: cands@ };
    let mut stuck = false;
    let mut alive = true;
    while !stuck && alive
        invariant
            branch_ok(Branch { board: grid@, cands: cands@ }),
            covers(table@, cands@),
            alive ==> settle(Branch { board: grid@, cands: cands@ }) == settle(start),
            alive && stuck ==> settled(cands@),
            !alive ==> settle(start).is_none(),
        decreases
                (if !stuck && alive {
                    weight(cands@) + 1
                } else {
                    0
                }),
    {
        let ghost pass = cands@;
        stuck = true;
        let keys = map_keys(cands);
        let mut i: usize = 0;
        while i < keys.len() && alive
            invariant
                i <= keys.len(),
                keys@.no_duplicates(),
                branch_ok(Branch { board: grid@, cands: cands@ }),
                covers(table@, cands@),
                forall|p: int| i <= p < keys.len() ==> cands@.contains_key(#[trigger] keys@[p]),
                forall|j: u8| #[trigger] cands@.contains_key(j) ==> keys@.contains(j),
                alive ==> settle(Branch { board: grid@, cands: cands@ }) == settle(start),
                !alive ==> settle(start).is_none(),
                weight(cands@) <= weight(pass),
                !stuck ==> weight(cands@) < weight(pass),
                alive && stuck ==> visited_settled(cands@, keys@, i as int),
            decreases
                    keys.len() - i + (if alive {
                        1int
                    } else {
                        0int
                    }),
        {
            let ghost here = Branch { board: grid@, cands: cands@ };
            let k = keys[i];
            assert(cands@.contains_key(keys@[i as int]));
            let set = mask_at(cands, k).unwrap();
            if set == 0 {
                alive = false;
            } else if set.count_ones() == 1 {
                let n = set.trailing_zeros() as u8 + 1;
                proof {
                    lemma_fill(here, k);
                    lemma_fill_any(here, k);
                    lemma_place(here, k, n);
                }
                grid.put(k as usize, n);
                map_remove(cands, k);
                proof {
                    lemma_covers_part(table@, here.cands, cands@);
                }
                let hit = eliminate(cands, table, k, n);
                if hit {
                    stuck = false;
                }
                proof {
                    assert(Branch { board: grid@, cands: cands@ } == fill(here, k));
                    assert forall|p: int| i + 1 <= p < keys.len() implies cands@.contains_key(
                        #[trigger] keys@[p],
                    ) by {
                        assert(here.cands.contains_key(keys@[p]));
                        assert(keys@[p] != keys@[i as int]);
                    }
                    assert forall|j: u8| #[trigger] cands@.contains_key(j) implies keys@.contains(
                        j,
                    ) by {
                        assert(here.cands.contains_key(j));
                    }
                    if stuck {
                        assert forall|j: u8| #[trigger] cands@.contains_key(j) implies cands@[j]
                            == here.cands[j] by {
                            assert(here.cands.contains_key(j));
                            lemma_strike(here.cands[j], n, n);
                        }
                        assert(visited_settled(cands@, keys@, i + 1));
                    }
                }
            } else {
                proof {
                    lemma_count(set);
                    if stuck {
                        assert(visited_settled(cands@, keys@, i + 1));
                    }
                }
            }
            i += 1;
        }
        proof {
            if alive && stuck {
                assert forall|j: u8| #[trigger] cands@.contains_key(j) implies bit_count(cands@[j])
                    >= 2 by {
                    assert(keys@.contains(j));
                    let p = choose|p: int| 0 <= p < keys@.len() && keys@[p] == j;
                    assert(cands@.contains_key(keys@[p]));
                }
            }
        }
    }
    proof {
        if alive {
            lemma_settled(Branch { board: grid@, cands: cands@ });
        }
    }
    alive
}

/// The cell to branch on: the one with the fewest candidates, and of those
/// with as few the one with the lowest index.
pub fn choose_pivot(cands: &FxHashMap<u8, u16>) -> (k: u8)
    requires
        masks_ok(cands@),
        !cands@.is_empty(),
    ensures
        is_pivot(cands@, k),
        k == pivot(cands@),
{
    let keys = map_keys(cands);
    let mut min_len: u32 = 10;
    let mut min_k: u8 = 0;
    let mut i: usize = 0;
    while i < keys.len()
        invariant
            i <= keys.len(),
            masks_ok(cands@),
            forall|p: int| 0 <= p < keys.len() ==> cands@.contains_key(#[trigger] keys@[p]),
            min_len == 10 ==> i == 0,
            min_len != 10 ==> {
                &&& cands@.contains_key(min_k)
                &&& min_len == bit_count(cands@[min_k])
                &&& forall|p: int| 0 <= p < i ==> before(cands@, min_k, #[trigger] keys@[p])
            },
        decreases keys.len() - i,
    {
        let k = keys[i];
        assert(cands@.contains_key(keys@[i as int]));
        let set = mask_at(cands, k).unwrap();
        proof {
            lemma_count(set);
        }
        let len = set.count_ones();
        if len < min_len || (len == min_len && k < min_k) {
            min_len = len;
            min_k = k;
        }
        i += 1;
    }
    proof {
        if keys@.len() == 0 {
            assert(cands@.dom() =~= Set::empty()) by {
                assert forall|j: u8| !cands@.dom().contains(j) by {
                    assert(keys@.to_set().contains(j) == keys@.contains(j));
                }
            }
        }
        assert forall|j: u8| #[trigger] cands@.contains_key(j) implies before(cands@, min_k, j) by {
            assert(keys@.to_set().contains(j));
            let p = choose|p: int| 0 <= p < keys@.len() && keys@[p] == j;
            assert(before(cands@, min_k, keys@[p]));
        }
        lemma_pivot_unique(cands@, min_k);
    }
    min_k
}

/// Pushes one snapshot for each digit that cell `k` still allows, lowest
/// digit first: the grid with the digit in `k`, and the masks without `k`
/// and without that digit around it.
pub fn branch(
    grid: &Sudoku,
    cands: &FxHashMap<u8, u16>,
    table: &FxHashMap<u8, FxHashSet<u8>>,
    k: u8,
    stack: &mut Vec<(Sudoku, FxHashMap<u8, u16>)>,
)
    requires
        masks_ok(cands@),
        covers(table@, cands@),
        cands@.contains_key(k),
        stack_ok(old(stack)@, table@),
    ensures
        branches(final(stack)@) == branches(old(stack)@) + children(
            Branch { board: grid@, cands: cands@ },
            k,
            9,
        ),
        stack_ok(final(stack)@, table@),
{
    proof {
        use_type_invariant(grid);
    }
    let ghost parent = Branch { board: grid@, cands: cands@ };
    let ghost below = branches(stack@);
    let set = mask_at(cands, k).unwrap();
    let mut n: u8 = 1;
    assert(branches(stack@) =~= below + children(parent, k, 0));
    while n < 10
        invariant
            1 <= n <= 10,
            k < 81,
            branch_ok(parent),
            parent == (Branch { board: grid@, cands: cands@ }),
            covers(table@, cands@),
            cands@.contains_key(k),
            set == cands@[k],
            branches(stack@) == below + children(parent, k, (n - 1) as nat),
            stack_ok(stack@, table@),
        decreases 10 - n,
    {
        let mask = bit_of(n);
        if set & mask != 0 {
            let mut new_state = grid.copy();
            let mut new_poss = cands.clone();
            new_state.put(k as usize, n);
            map_remove(&mut new_poss, k);
            proof {
                lemma_covers_part(table@, cands@, new_poss@);
            }
            eliminate(&mut new_poss, table, k, n);
            let ghost child = Branch { board: new_state@, cands: new_poss@ };
            let ghost old_stack = stack@;
            stack.push((new_state, new_poss));
            proof {
                lemma_place(parent, k, n);
                assert(child == place(parent, k, n));
                assert(branches(stack@) =~= branches(old_stack).push(child));
                assert(children(parent, k, n as nat) == children(parent, k, (n - 1) as nat).push(
                    child,
                ));
                assert(branches(stack@) =~= below + children(parent, k, n as nat));
                assert forall|i: int| 0 <= i < stack@.len() implies branch_ok(
                    #[trigger] branches(stack@)[i],
                ) && covers(table@, stack@[i].1@) by {
                    if i < old_stack.len() {
                        assert(branches(old_stack)[i] == branches(stack@)[i]);
                        assert(stack@[i] == old_stack[i]);
                    }
                }
            }
        } else {
            assert(children(parent, k, n as nat) == children(parent, k, (n - 1) as nat));
        }
        n += 1;
    }
}

/// The mask of all nine digits for every empty cell of the grid.
pub fn blank_candidates(grid: &Sudoku) -> (cands: FxHashMap<u8, u16>)
    ensures
        cands@ == blank_cands(grid@),
{
    let mut cands: FxHashMap<u8, u16> = FxHashMap::default();
    let mut k: u8 = 0;
    while k < 81
        invariant
            k <= 81,
            cands@ == Map::new(|j: u8| j < k && grid@[j as int] == 0, |j: u8| ALL_DIGITS),
        decreases 81 - k,
    {
        if grid.cell(k as usize) == 0 {
            map_insert(&mut cands, k, ALL_DIGITS);
        }
        k += 1;
        assert(cands@ =~= Map::new(|j: u8| j < k && grid@[j as int] == 0, |j: u8| ALL_DIGITS));
    }
    assert(cands@ =~= blank_cands(grid@));
    cands
}

/// The cells that have a mask.
pub fn unknown_cells(cands: &FxHashMap<u8, u16>) -> (unknown: FxHashSet<u8>)
    ensures
        unknown@ == cands@.dom(),
{
    let keys = map_keys(cands);
    let mut unknown: FxHashSet<u8> = FxHashSet::default();
    let mut i: usize = 0;
    assert(unknown@ =~= keys@.take(0).to_set());
    while i < keys.len()
        invariant
            0 <= i <= keys.len(),
            unknown@ == keys@.take(i as int).to_set(),
        decreases keys.len() - i,
    {
        let ghost done = keys@.take(i as int);
        let ghost next = keys@.take(i + 1);
        proof {
            assert forall|y: u8| #[trigger]
                next.contains(y) == (done.contains(y) || y == keys@[i as int]) by {
                lemma_take_contains(keys@, i as int, y);
            }
        }
        set_insert(&mut unknown, keys[i]);
        i += 1;
        assert(unknown@ =~= next.to_set());
    }
    assert(keys@.take(keys@.len() as int) =~= keys@);
    unknown
}

/// The items of `a` that are in `b` too.
pub fn intersection(a: &FxHashSet<u8>, b: &FxHashSet<u8>) -> (both: FxHashSet<u8>)
    ensures
        both@ == a@.intersect(b@),
{
    let items = set_items(a);
    let mut both: FxHashSet<u8> = FxHashSet::default();
    let mut i: usize = 0;
    assert(both@ =~= Set::new(|x: u8| items@.take(0).contains(x) && b@.contains(x)));
    while i < items.len()
        invariant
            0 <= i <= items.len(),
            both@ == Set::new(|x: u8| items@.take(i as int).contains(x) && b@.contains(x)),
        decreases items.len() - i,
    {
        let x = items[i];
        let ghost done = items@.take(i as int);
        let ghost next = items@.take(i + 1);
        proof {
            assert forall|y: u8| #[trigger] next.contains(y) == (done.contains(y) || y == x) by {
                lemma_take_contains(items@, i as int, y);
            }
        }
        if set_contains(b, x) {
            set_insert(&mut both, x);
        }
        i += 1;
        assert(both@ =~= Set::new(|x: u8| next.contains(x) && b@.contains(x)));
    }
    proof {
        assert(items@.take(items@.len() as int) =~= items@);
        assert forall|x: u8| items@.contains(x) == a@.contains(x) by {
            assert(items@.to_set().contains(x) == items@.contains(x));
        }
        assert(both@ =~= a@.intersect(b@));
    }
    both
}

/// For each cell of the grid, the cells of `unknown` adjacent to it.
pub fn neighbor_table(unknown: &FxHashSet<u8>) -> (table: FxHashMap<u8, FxHashSet<u8>>)
    ensures
        table_for(table@, unknown@),
{
    let mut table: FxHashMap<u8, FxHashSet<u8>> = FxHashMap::default();
    let mut k: u8 = 0;
    while k < 81
        invariant
            k <= 81,
            forall|c: u8| c < k ==> #[trigger] entry_for(table@, unknown@, c),
        decreases 81 - k,
    {
        let indices = Sudoku::get_neighbor_indices(k);
        let links = intersection(&indices, unknown);
        let ghost filled = table@;
        map_insert(&mut table, k, links);
        proof {
            assert forall|c: u8| c <= k implies #[trigger] entry_for(table@, unknown@, c) by {
                if c < k {
                    assert(entry_for(filled, unknown@, c));
                }
            }
        }
        k += 1;
    }
    table
}

/// A table made for the cells that have masks covers those masks.
pub proof fn lemma_table_covers(table: Map<u8, FxHashSet<u8>>, cands: Map<u8, u16>)
    requires
        table_for(table, cands.dom()),
        masks_ok(cands),
    ensures
        covers(table, cands),
{
    assert forall|k: u8| k < 81 implies #[trigger] covers_at(table, cands, k) by {
        assert(entry_for(table, cands.dom(), k));
    }
}

/// Strikes the digit of each filled cell from the masks of the cells
/// adjacent to it.
pub fn strike_given_digits(
    grid: &Sudoku,
    cands: &mut FxHashMap<u8, u16>,
    table: &FxHashMap<u8, FxHashSet<u8>>,
)
    requires
        masks_ok(old(cands)@),
        covers(table@, old(cands)@),
    ensures
        final(cands)@ == strike_givens(grid@, old(cands)@, 0),
        masks_ok(final(cands)@),
        covers(table@, final(cands)@),
{
    let ghost start = cands@;
    let mut k: u8 = 0;
    while k < 81
        invariant
            k <= 81,
            masks_ok(cands@),
            covers(table@, cands@),
            strike_givens(grid@, cands@, k as nat) == strike_givens(grid@, start, 0),
        decreases 81 - k,
    {
        let n = grid.cell(k as usize);
        if n != 0 {
            eliminate(cands, table, k, n);
        }
        k += 1;
    }
}

/// Whether no two cells of one row, column or box hold the same digit. A
/// grid that fails this has no solution, whatever its empty cells may hold.
pub fn check_givens(grid: &Sudoku) -> (ok: bool)
    ensures
        ok == givens_agree(grid@),
{
    proof {
        use_type_invariant(grid);
    }
    let mut k: u8 = 0;
    while k < 81
        invariant
            k <= 81,
            valid_board(grid@),
            forall|a: int| 0 <= a < k ==> #[trigger] agrees_at(grid@, a),
        decreases 81 - k,
    {
        let d = grid.cell(k as usize);
        if d != 0 {
            let indices = Sudoku::get_neighbor_indices(k);
            let items = set_items(&indices);
            let mut i: usize = 0;
            while i < items.len()
                invariant
                    i <= items.len(),
                    k < 81,
                    d != 0,
                    d == grid@[k as int],
                    valid_board(grid@),
                    items@.to_set() == neighbor_set(k),
                    forall|p: int| 0 <= p < i ==> grid@[#[trigger] items@[p] as int] != d,
                decreases items.len() - i,
            {
                let j = items[i];
                assert(items@.to_set().contains(items@[i as int]));
                if grid.cell(j as usize) == d {
                    proof {
                        assert(adjacent(k as int, j as int));
                        assert(grid@[k as int] == grid@[j as int]);
                    }
                    return false;
                }
                i += 1;
            }
            proof {
                assert forall|b: int|
                    0 <= b < 81 && adjacent(k as int, b) && grid@[k as int] != 0 implies grid@[k as int]
                    != #[trigger] grid@[b] by {
                    assert(neighbor_set(k).contains(b as u8));
                    assert(items@.contains(b as u8));
                    let p = choose|p: int| 0 <= p < items@.len() && items@[p] == b as u8;
                    assert(grid@[items@[p] as int] != d);
                }
            }
        }
        k += 1;
    }
    proof {
        assert forall|a: int, b: int|
            #![trigger adjacent(a, b)]
            #![trigger grid@[a], grid@[b]]
            0 <= a < 81 && 0 <= b < 81 && adjacent(a, b) && grid@[a] != 0 implies grid@[a]
            != grid@[b] by {
            assert(agrees_at(grid@, a));
        }
    }
    true
}

impl Sudoku {
    /// Solves the grid in place.
    ///
    /// It succeeds exactly when some solved grid holds every given digit
    /// where the grid holds it. The grid then is such a solved grid: the one
    /// that the search reaches first. Where there is none, the grid is left
    /// as it was. That is so in particular where two cells of one row,
    /// column or box hold the same digit: the givens are looked at before
    /// the search begins.
    pub fn solve(&mut self) -> (r: Result<(), Unsolvable>)
        ensures
            match r {
                Ok(_) => solution(old(self)@) == Some(final(self)@),
                Err(_) => solution(old(self)@).is_none() && final(self)@ == old(self)@,
            },
            r.is_ok() <==> exists|full: Seq<u8>| solves(old(self)@, full),
            r.is_ok() ==> solves(old(self)@, final(self)@),
            r.is_ok() ==> solved(final(self)@),
            !givens_agree(old(self)@) ==> r.is_err(),
    {
        let ghost given = self@;
        let first = self.copy();
        proof {
            use_type_invariant(&*self);
            lemma_solution_solves(given);
            assert forall|full: Seq<u8>| solves(given, full) implies solution(given).is_some() by {
                lemma_solution_found(given, full);
            }
        }
        if !check_givens(&first) {
            return Err(Unsolvable);
        }
        let mut cands = blank_candidates(&first);
        let unknown = unknown_cells(&cands);
        let table = neighbor_table(&unknown);
        proof {
            lemma_table_covers(table@, cands@);
        }
        strike_given_digits(&first, &mut cands, &table);
        let mut stack: Vec<(Sudoku, FxHashMap<u8, u16>)> = Vec::new();
        stack.push((first, cands));
        assert(branches(stack@) =~= seq![first_branch(given)]);
        while stack.len() > 0
            invariant
                self@ == given,
                old(self)@ == given,
                givens_agree(given),
                solution(given) matches Some(full) ==> solves(given, full),
                solution(given).is_none() ==> forall|full: Seq<u8>| !solves(given, full),
                stack_ok(stack@, table@),
                search(branches(stack@)) == solution(given),
            decreases stack_weight(branches(stack@)),
        {
            let ghost full = branches(stack@);
            let top = stack.pop().unwrap();
            let mut state = top.0;
            let mut poss = top.1;
            assert(branches(stack@) =~= full.drop_last());
            assert(full.last() == (Branch { board: state@, cands: poss@ }));
            assert(branch_ok(full[full.len() - 1]));
            assert(stack_ok(stack@, table@)) by {
                assert forall|i: int| 0 <= i < stack@.len() implies branch_ok(
                    #[trigger] branches(stack@)[i],
                ) && covers(table@, stack@[i].1@) by {
                    assert(branches(stack@)[i] == full[i]);
                    assert(branch_ok(full[i]));
                }
            }
            proof {
                lemma_settle(full.last());
                lemma_pow10_positive(weight(full.last().cands));
            }
            let alive = propagate(&mut state, &mut poss, &table);
            if alive {
                let ghost after = Branch { board: state@, cands: poss@ };
                assert(settle(full.last()) == Some(after));
                if poss.is_empty() {
                    assert(after.cands.is_empty());
                    assert(search(full) == Some(after.board));
                    *self = state;
                    assert(self@ == after.board);
                    return Ok(());
                }
                proof {
                    lemma_branched(full, after);
                }
                let k = choose_pivot(&poss);
                branch(&state, &poss, &table, k, &mut stack);
                assert(branches(stack@) == branched(full, after));
            }
        }
        assert(branches(stack@) =~= Seq::empty());
        Err(Unsolvable)
    }
}

} // verus!
