//! Random sampling favors no list: equally likely draws give every list of different
//! handles equally often.
//!
//! A sample is a function of the numbers that are drawn for it, each from a range.
//! Where all numbers of a range are equally likely, and no draw depends on another,
//! the probability of a list is the number of ways to draw it, among all ways to
//! draw. That number is the same for every list.
use vstd::prelude::*;

#[allow(unused_imports)]
use crate::generator::{
    drawn_from, handles, law_enumeration_is_exhaustive, law_space_sizes, lemma_numeral_injective,
    lemma_pool_is_proper, numeral, partly_shuffled, proper_pool, rank, rejection_sample,
    sampled_handles, space, swapped, unique_handles, Charset, Length, DRAW_BUDGET,
};
#[allow(unused_imports)]
use crate::randomness::{range_draw, shuffle_order};

verus! {

/// The sum of `f(d)` for `d` from `lo` up to `hi`.
pub open spec fn sum(lo: nat, hi: nat, f: spec_fn(nat) -> nat) -> nat
    decreases hi,
{
    if lo >= hi {
        0
    } else {
        sum(lo, (hi - 1) as nat, f) + f((hi - 1) as nat)
    }
}

/// The condition on the draws after a first draw `d`.
pub open spec fn after(holds: spec_fn(Seq<usize>) -> bool, d: nat) -> spec_fn(Seq<usize>) -> bool {
    |rest: Seq<usize>| holds(seq![d as usize] + rest)
}

/// The number of ways to draw one number from each of the half-open `ranges` so that
/// the draws meet a condition.
pub open spec fn ways(ranges: Seq<(nat, nat)>, holds: spec_fn(Seq<usize>) -> bool) -> nat
    decreases ranges.len(), 1int,
{
    if ranges.len() == 0 {
        if holds(seq![]) {
            1
        } else {
            0
        }
    } else {
        sum(ranges[0].0, ranges[0].1, ways_after(ranges, holds))
    }
}

/// The number of ways to go on after a first draw from the first of the `ranges`.
pub open spec fn ways_after(
    ranges: Seq<(nat, nat)>,
    holds: spec_fn(Seq<usize>) -> bool,
) -> spec_fn(nat) -> nat
    decreases ranges.len(), 0int,
{
    |d: nat|
        if ranges.len() == 0 {
            0
        } else {
            ways(ranges.drop_first(), after(holds, d))
        }
}

/// Whether `draws` holds one number from each of the `ranges`.
pub open spec fn within(ranges: Seq<(nat, nat)>, draws: Seq<usize>) -> bool {
    &&& draws.len() == ranges.len()
    &&& forall|i: int|
        0 <= i < draws.len() ==> ranges[i].0 <= #[trigger] draws[i] && draws[i] < ranges[i].1
}

/// Whether every number in the `ranges` can be drawn.
pub open spec fn drawable(ranges: Seq<(nat, nat)>) -> bool {
    forall|i: int| 0 <= i < ranges.len() ==> (#[trigger] ranges[i]).1 <= usize::MAX
}

proof fn lemma_sum_same(lo: nat, hi: nat, f: spec_fn(nat) -> nat, g: spec_fn(nat) -> nat)
    requires
        forall|d: nat| lo <= d < hi ==> #[trigger] f(d) == g(d),
    ensures
        sum(lo, hi, f) == sum(lo, hi, g),
    decreases hi,
{
    if lo < hi {
        lemma_sum_same(lo, (hi - 1) as nat, f, g);
    }
}

proof fn lemma_sum_constant(hi: nat, f: spec_fn(nat) -> nat, x: nat)
    requires
        forall|d: nat| d < hi ==> #[trigger] f(d) == x,
    ensures
        sum(0, hi, f) == hi * x,
    decreases hi,
{
    if hi > 0 {
        lemma_sum_constant((hi - 1) as nat, f, x);
        assert(hi * x == (hi - 1) * x + x) by (nonlinear_arith);
    } else {
        assert(0 * x == 0) by (nonlinear_arith);
    }
}

proof fn lemma_sum_of_zeros(lo: nat, hi: nat, f: spec_fn(nat) -> nat)
    requires
        forall|d: nat| lo <= d < hi ==> #[trigger] f(d) == 0,
    ensures
        sum(lo, hi, f) == 0,
    decreases hi,
{
    if lo < hi {
        lemma_sum_of_zeros(lo, (hi - 1) as nat, f);
    }
}

/// Two sums that differ in one summand differ by as much.
proof fn lemma_sum_differs_at(
    lo: nat,
    hi: nat,
    f: spec_fn(nat) -> nat,
    g: spec_fn(nat) -> nat,
    at: nat,
)
    requires
        lo <= at < hi,
        forall|d: nat| lo <= d < hi && d != at ==> #[trigger] f(d) == g(d),
    ensures
        sum(lo, hi, f) + g(at) == sum(lo, hi, g) + f(at),
    decreases hi,
{
    if at == hi - 1 {
        lemma_sum_same(lo, (hi - 1) as nat, f, g);
    } else {
        lemma_sum_differs_at(lo, (hi - 1) as nat, f, g, at);
    }
}

/// A sum with one summand that counts.
proof fn lemma_sum_at(lo: nat, hi: nat, f: spec_fn(nat) -> nat, at: nat)
    requires
        lo <= at < hi,
        forall|d: nat| lo <= d < hi && d != at ==> #[trigger] f(d) == 0,
    ensures
        sum(lo, hi, f) == f(at),
{
    let zero = |d: nat| 0nat;
    lemma_sum_of_zeros(lo, hi, zero);
    lemma_sum_differs_at(lo, hi, f, zero, at);
}

/// Conditions that agree on all draws are met in equally many ways.
proof fn lemma_ways_same(
    ranges: Seq<(nat, nat)>,
    p: spec_fn(Seq<usize>) -> bool,
    q: spec_fn(Seq<usize>) -> bool,
)
    requires
        drawable(ranges),
        forall|draws: Seq<usize>| #[trigger] within(ranges, draws) ==> p(draws) == q(draws),
    ensures
        ways(ranges, p) == ways(ranges, q),
    decreases ranges.len(),
{
    if ranges.len() == 0 {
        assert(within(ranges, seq![]));
    } else {
        let rest = ranges.drop_first();
        let f = ways_after(ranges, p);
        let g = ways_after(ranges, q);
        assert(drawable(rest)) by {
            assert forall|i: int| 0 <= i < rest.len() implies (#[trigger] rest[i]).1
                <= usize::MAX by {
                assert(rest[i] == ranges[i + 1]);
            }
        }
        assert forall|d: nat| ranges[0].0 <= d < ranges[0].1 implies #[trigger] f(d) == g(d) by {
            assert forall|draws: Seq<usize>| #[trigger] within(rest, draws) implies after(p, d)(
                draws,
            ) == after(q, d)(draws) by {
                let all = seq![d as usize] + draws;
                assert(within(ranges, all)) by {
                    assert forall|i: int| 0 <= i < all.len() implies ranges[i].0
                        <= #[trigger] all[i] && all[i] < ranges[i].1 by {
                        if i > 0 {
                            assert(all[i] == draws[i - 1]);
                            assert(rest[i - 1] == ranges[i]);
                        }
                    }
                }
            }
            lemma_ways_same(rest, after(p, d), after(q, d));
        }
        lemma_sum_same(ranges[0].0, ranges[0].1, f, g);
    }
}

/// A condition that no draws meet is met in no way.
proof fn lemma_no_ways(ranges: Seq<(nat, nat)>, holds: spec_fn(Seq<usize>) -> bool)
    requires
        forall|draws: Seq<usize>| !(#[trigger] holds(draws)),
    ensures
        ways(ranges, holds) == 0,
    decreases ranges.len(),
{
    if ranges.len() > 0 {
        let rest = ranges.drop_first();
        let f = ways_after(ranges, holds);
        assert forall|d: nat| ranges[0].0 <= d < ranges[0].1 implies #[trigger] f(d) == 0 by {
            assert forall|draws: Seq<usize>| !(#[trigger] after(holds, d)(draws)) by {
                assert(!holds(seq![d as usize] + draws));
            }
            lemma_no_ways(rest, after(holds, d));
        }
        lemma_sum_of_zeros(ranges[0].0, ranges[0].1, f);
    }
}

/// Whether `list` names `target` different positions below `size`.
pub open spec fn is_list(list: Seq<usize>, target: nat, size: nat) -> bool {
    &&& list.len() == target
    &&& list.no_duplicates()
    &&& forall|i: int| 0 <= i < list.len() ==> #[trigger] list[i] < size
}

/// The draws that are new, in order, until there are `target` of them with those
/// already `picked`.
pub open spec fn kept(picked: Seq<usize>, draws: Seq<usize>, target: nat) -> Seq<usize>
    decreases draws.len(),
{
    if picked.len() >= target || draws.len() == 0 {
        picked
    } else {
        kept(with_draw(picked, draws[0]), draws.drop_first(), target)
    }
}

/// `picked` and the draw `d`, where it is new.
pub open spec fn with_draw(picked: Seq<usize>, d: usize) -> Seq<usize> {
    if picked.contains(d) {
        picked
    } else {
        picked.push(d)
    }
}

/// A number of draws from `0..size`.
pub open spec fn repeated(size: nat, draws: nat) -> Seq<(nat, nat)> {
    Seq::new(draws, |i: int| (0nat, size))
}

/// In how many ways a number of draws from `0..size` completes a list of `target`
/// positions of which `k` were picked before.
pub open spec fn completions(size: nat, target: nat, k: nat, draws: nat) -> nat
    decreases draws,
{
    if draws == 0 {
        if k == target {
            1
        } else {
            0
        }
    } else if k >= target {
        size * completions(size, target, k, (draws - 1) as nat)
    } else {
        k * completions(size, target, k, (draws - 1) as nat) + completions(
            size,
            target,
            k + 1,
            (draws - 1) as nat,
        )
    }
}

proof fn lemma_kept_starts_with_picked(picked: Seq<usize>, draws: Seq<usize>, target: nat)
    ensures
        picked.len() <= kept(picked, draws, target).len(),
        kept(picked, draws, target).take(picked.len() as int) == picked,
    decreases draws.len(),
{
    if !(picked.len() >= target || draws.len() == 0) {
        let next = with_draw(picked, draws[0]);
        lemma_kept_starts_with_picked(next, draws.drop_first(), target);
        let all = kept(picked, draws, target);
        assert(all.take(picked.len() as int) =~= all.take(next.len() as int).take(
            picked.len() as int,
        ));
        assert(next.take(picked.len() as int) =~= picked);
    } else {
        assert(picked.take(picked.len() as int) =~= picked);
    }
}

proof fn lemma_sum_of_draws(picked: Seq<usize>, size: nat, v: usize, x: nat, y: nat)
    requires
        picked.no_duplicates(),
        forall|i: int| 0 <= i < picked.len() ==> #[trigger] picked[i] < size,
        !picked.contains(v),
        v < size <= usize::MAX,
    ensures
        sum(
            0,
            size,
            |d: nat|
                if picked.contains(d as usize) {
                    x
                } else if d == v {
                    y
                } else {
                    0nat
                },
        ) == picked.len() * x + y,
    decreases picked.len(),
{
    let f = |d: nat|
        if picked.contains(d as usize) {
            x
        } else if d == v {
            y
        } else {
            0nat
        };
    if picked.len() == 0 {
        lemma_sum_at(0, size, f, v as nat);
        assert(0 * x == 0) by (nonlinear_arith);
    } else {
        let init = picked.drop_last();
        let p = picked.last();
        let k = picked.len();
        assert(picked[k - 1] == p);
        assert forall|i: int| 0 <= i < init.len() implies #[trigger] init[i] < size by {
            assert(init[i] == picked[i]);
        }
        assert forall|d: usize| picked.contains(d) == (init.contains(d) || d == p) by {
            if picked.contains(d) {
                let i = choose|i: int| 0 <= i < picked.len() && picked[i] == d;
                if i < init.len() {
                    assert(init[i] == d);
                }
            }
            if init.contains(d) {
                let i = choose|i: int| 0 <= i < init.len() && init[i] == d;
                assert(picked[i] == d);
            }
        }
        assert(!init.contains(p)) by {
            if init.contains(p) {
                let i = choose|i: int| 0 <= i < init.len() && init[i] == p;
                assert(picked[i] == picked[k - 1]);
            }
        }
        let g = |d: nat|
            if init.contains(d as usize) {
                x
            } else if d == v {
                y
            } else {
                0nat
            };
        lemma_sum_of_draws(init, size, v, x, y);
        lemma_sum_differs_at(0, size, f, g, p as nat);
        assert(k * x == (k - 1) * x + x) by (nonlinear_arith);
    }
}

/// The number of ways in which draws complete a list does not depend on the list,
/// only on how much of it was picked before.
proof fn lemma_ways_to_keep(size: nat, list: Seq<usize>, k: nat, draws: nat)
    requires
        is_list(list, list.len(), size),
        k <= list.len(),
        size <= usize::MAX,
    ensures
        ways(
            repeated(size, draws),
            |d: Seq<usize>| kept(list.take(k as int), d, list.len()) == list,
        ) == completions(size, list.len(), k, draws),
    decreases draws,
{
    let target = list.len();
    let picked = list.take(k as int);
    let ranges = repeated(size, draws);
    let holds = |d: Seq<usize>| kept(picked, d, target) == list;
    if draws == 0 {
        assert(kept(picked, seq![], target) == picked);
        assert(k == target ==> picked =~= list);
    } else {
        let fewer = (draws - 1) as nat;
        let rest = ranges.drop_first();
        assert(rest =~= repeated(size, fewer));
        let f = ways_after(ranges, holds);
        let here = completions(size, target, k, fewer);
        lemma_ways_to_keep(size, list, k, fewer);
        let stay = |d: Seq<usize>| kept(picked, d, target) == list;
        if k >= target {
            assert(picked =~= list);
            assert forall|d: nat| d < size implies #[trigger] f(d) == here by {
                lemma_ways_same(rest, after(holds, d), stay);
            }
            lemma_sum_constant(size, f, here);
        } else {
            let v = list[k as int];
            let there = completions(size, target, k + 1, fewer);
            lemma_ways_to_keep(size, list, k + 1, fewer);
            assert(list.take(k as int + 1) =~= picked.push(v));
            assert(picked.no_duplicates());
            assert(!picked.contains(v)) by {
                if picked.contains(v) {
                    let i = choose|i: int| 0 <= i < picked.len() && picked[i] == v;
                    assert(list[i] == list[k as int]);
                }
            }
            let g = |d: nat|
                if picked.contains(d as usize) {
                    here
                } else if d == v {
                    there
                } else {
                    0nat
                };
            assert forall|d: nat| 0 <= d < size implies #[trigger] f(d) == g(d) by {
                let next = with_draw(picked, d as usize);
                let follow = |r: Seq<usize>| kept(next, r, target) == list;
                assert forall|r: Seq<usize>| #[trigger] within(rest, r) implies after(holds, d)(r)
                    == follow(r) by {
                    assert((seq![d as usize] + r).drop_first() =~= r);
                }
                lemma_ways_same(rest, after(holds, d), follow);
                if picked.contains(d as usize) {
                    lemma_ways_same(rest, follow, stay);
                } else if d == v {
                    lemma_ways_same(
                        rest,
                        follow,
                        |r: Seq<usize>| kept(list.take(k as int + 1), r, target) == list,
                    );
                } else {
                    assert forall|r: Seq<usize>| !(#[trigger] follow(r)) by {
                        lemma_kept_starts_with_picked(next, r, target);
                        if kept(next, r, target) == list {
                            assert(list.take(k as int + 1)[k as int] == next[k as int]);
                        }
                    }
                    lemma_no_ways(rest, follow);
                }
            }
            lemma_sum_same(0, size, f, g);
            lemma_sum_of_draws(picked, size, v, here, there);
        }
    }
}

proof fn lemma_completions_positive(size: nat, target: nat, k: nat, draws: nat)
    requires
        size > 0,
        k <= target <= k + draws,
    ensures
        completions(size, target, k, draws) > 0,
    decreases draws,
{
    if draws > 0 {
        let fewer = (draws - 1) as nat;
        if k >= target {
            lemma_completions_positive(size, target, k, fewer);
            let more = completions(size, target, k, fewer);
            assert(size * more > 0) by (nonlinear_arith)
                requires
                    size > 0,
                    more > 0,
            ;
        } else {
            lemma_completions_positive(size, target, k + 1, fewer);
            let more = completions(size, target, k, fewer);
            assert(k * more >= 0) by (nonlinear_arith);
        }
    }
}

/// `pool` after the items from position `i` on were exchanged, one after the other,
/// with those at the positions `draws`.
pub open spec fn exchanged(pool: Seq<usize>, i: nat, draws: Seq<usize>) -> Seq<usize>
    decreases draws.len(),
{
    if draws.len() == 0 {
        pool
    } else {
        exchanged(swapped(pool, i as int, draws[0] as int), i + 1, draws.drop_first())
    }
}

/// Draws for the positions from `i` up to `target`, each from its position up to
/// `size`.
pub open spec fn narrowing(i: nat, target: nat, size: nat) -> Seq<(nat, nat)> {
    Seq::new((target - i) as nat, |k: int| ((i + k) as nat, size))
}

/// A list of different numbers below `size` holds at most `size` of them.
proof fn lemma_list_fits(list: Seq<int>, size: nat)
    requires
        list.no_duplicates(),
        forall|i: int| 0 <= i < list.len() ==> 0 <= #[trigger] list[i] < size,
    ensures
        list.len() <= size,
    decreases size,
{
    if size == 0 {
        if list.len() > 0 {
            assert(0 <= list[0] < size);
        }
    } else {
        let top = size - 1;
        if list.contains(top) {
            let at = choose|i: int| 0 <= i < list.len() && list[i] == top;
            let rest = list.remove(at);
            assert forall|i: int| 0 <= i < rest.len() implies 0 <= #[trigger] rest[i] < top by {
                if i < at {
                    assert(rest[i] == list[i]);
                } else {
                    assert(rest[i] == list[i + 1]);
                }
            }
            assert(rest.no_duplicates()) by {
                assert forall|i: int, j: int|
                    0 <= i < rest.len() && 0 <= j < rest.len() && i != j implies rest[i]
                    != rest[j] by {
                    let a = if i < at {
                        i
                    } else {
                        i + 1
                    };
                    let b = if j < at {
                        j
                    } else {
                        j + 1
                    };
                    assert(rest[i] == list[a] && rest[j] == list[b]);
                }
            }
            lemma_list_fits(rest, (size - 1) as nat);
        } else {
            assert forall|i: int| 0 <= i < list.len() implies 0 <= #[trigger] list[i] < top by {
                assert(list.contains(list[i]));
            }
            lemma_list_fits(list, (size - 1) as nat);
        }
    }
}

/// A list of `size` different numbers below `size` holds all of them.
proof fn lemma_full_list_holds_all(list: Seq<int>, v: int)
    requires
        list.no_duplicates(),
        forall|i: int| 0 <= i < list.len() ==> 0 <= #[trigger] list[i] < list.len(),
        0 <= v < list.len(),
    ensures
        list.contains(v),
{
    if !list.contains(v) {
        let more = list.push(v);
        assert forall|i: int, j: int|
            0 <= i < more.len() && 0 <= j < more.len() && i != j implies more[i] != more[j] by {
            if i < list.len() {
                assert(list.contains(list[i]));
            }
            if j < list.len() {
                assert(list.contains(list[j]));
            }
        }
        lemma_list_fits(more, list.len());
    }
}

proof fn lemma_exchanged_keeps_front(pool: Seq<usize>, i: nat, draws: Seq<usize>, target: nat)
    requires
        i <= target <= pool.len(),
        within(narrowing(i, target, pool.len()), draws),
    ensures
        exchanged(pool, i, draws).len() == pool.len(),
        exchanged(pool, i, draws).take(i as int) == pool.take(i as int),
    decreases draws.len(),
{
    if draws.len() > 0 {
        let next = swapped(pool, i as int, draws[0] as int);
        lemma_narrowing_goes_on(i, target, pool.len(), draws);
        lemma_exchanged_keeps_front(next, i + 1, draws.drop_first(), target);
        let all = exchanged(pool, i, draws);
        assert(all.take(i as int) =~= all.take(i as int + 1).take(i as int));
        assert(next.take(i as int + 1).take(i as int) =~= pool.take(i as int));
    }
}

proof fn lemma_narrowing_goes_on(i: nat, target: nat, size: nat, draws: Seq<usize>)
    requires
        i < target,
        within(narrowing(i, target, size), draws),
    ensures
        i <= draws[0] < size,
        within(narrowing(i + 1, target, size), draws.drop_first()),
{
    let ranges = narrowing(i, target, size);
    let rest = draws.drop_first();
    assert(ranges[0].0 <= draws[0]);
    assert forall|k: int| 0 <= k < rest.len() implies narrowing(i + 1, target, size)[k].0
        <= #[trigger] rest[k] && rest[k] < narrowing(i + 1, target, size)[k].1 by {
        assert(rest[k] == draws[k + 1]);
        assert(ranges[k + 1].0 <= draws[k + 1] && draws[k + 1] < ranges[k + 1].1);
    }
}

proof fn lemma_swap_keeps_list(pool: Seq<usize>, i: int, j: int)
    requires
        is_list(pool, pool.len(), pool.len()),
        0 <= i < pool.len(),
        0 <= j < pool.len(),
    ensures
        is_list(swapped(pool, i, j), pool.len(), pool.len()),
{
    let next = swapped(pool, i, j);
    assert forall|k: int| 0 <= k < next.len() implies #[trigger] next[k] < pool.len() by {
        assert(pool[i] < pool.len() && pool[j] < pool.len());
        if k != i && k != j {
            assert(next[k] == pool[k]);
        }
    }
}

/// There is one way to exchange the rest of `list` into place.
proof fn lemma_ways_to_exchange(pool: Seq<usize>, i: nat, list: Seq<usize>)
    requires
        is_list(pool, pool.len(), pool.len()),
        is_list(list, list.len(), pool.len()),
        i <= list.len() <= pool.len() <= usize::MAX,
        pool.take(i as int) == list.take(i as int),
    ensures
        ways(
            narrowing(i, list.len(), pool.len()),
            |d: Seq<usize>| exchanged(pool, i, d).take(list.len() as int) == list,
        ) == 1,
    decreases list.len() - i,
{
    let target = list.len();
    let size = pool.len();
    let ranges = narrowing(i, target, size);
    let holds = |d: Seq<usize>| exchanged(pool, i, d).take(target as int) == list;
    if i == target {
        assert(exchanged(pool, i, seq![]) == pool);
        assert(list.take(i as int) =~= list);
    } else {
        let rest = ranges.drop_first();
        assert(rest =~= narrowing(i + 1, target, size));
        let f = ways_after(ranges, holds);
        let v = list[i as int];
        let positions = pool.map_values(|p: usize| p as int);
        assert forall|k: int| 0 <= k < positions.len() implies 0 <= #[trigger] positions[k]
            < size by {
            assert(pool[k] < size);
        }
        lemma_full_list_holds_all(positions, v as int);
        let at = choose|k: int| 0 <= k < positions.len() && positions[k] == v;
        assert(pool[at] == v);
        assert(i <= at) by {
            if at < i {
                assert(pool.take(i as int)[at] == pool[at]);
                assert(list.take(i as int)[at] == list[at]);
            }
        }
        assert forall|j: nat| i <= j < size implies #[trigger] f(j) == if j == at {
            1nat
        } else {
            0nat
        } by {
            let next = swapped(pool, i as int, j as int);
            let follow = |r: Seq<usize>| exchanged(next, i + 1, r).take(target as int) == list;
            assert forall|r: Seq<usize>| #[trigger] within(rest, r) implies after(holds, j)(r)
                == follow(r) by {
                assert((seq![j as usize] + r).drop_first() =~= r);
            }
            lemma_ways_same(rest, after(holds, j), follow);
            lemma_swap_keeps_list(pool, i as int, j as int);
            if j == at {
                assert(next.take(i as int + 1) =~= list.take(i as int + 1)) by {
                    assert forall|k: int| 0 <= k < i implies next[k] == list[k] by {
                        assert(pool.take(i as int)[k] == pool[k]);
                        assert(list.take(i as int)[k] == list[k]);
                    }
                }
                lemma_ways_to_exchange(next, i + 1, list);
            } else {
                assert(pool[j as int] != v) by {
                    assert(pool[at] == v && j != at);
                }
                let never = |r: Seq<usize>| false;
                assert forall|r: Seq<usize>| #[trigger] within(rest, r) implies follow(r)
                    == never(r) by {
                    lemma_exchanged_keeps_front(next, i + 1, r, target);
                    let all = exchanged(next, i + 1, r);
                    if all.take(target as int) == list {
                        assert(all.take(i as int + 1)[i as int] == next.take(i as int + 1)[i as int]);
                        assert(all.take(target as int)[i as int] == all[i as int]);
                    }
                }
                lemma_ways_same(rest, follow, never);
                lemma_no_ways(rest, never);
            }
        }
        lemma_sum_at(i, size, f, at as nat);
    }
}

/// Whether `order` holds each of the numbers below `target` once.
pub open spec fn is_order(order: Seq<int>, target: nat) -> bool {
    &&& order.len() == target
    &&& order.no_duplicates()
    &&& forall|k: int| 0 <= k < order.len() ==> 0 <= #[trigger] order[k] < target
}

/// The ranges from which the numbers for a sample are drawn: those of a partial
/// shuffle for a sample that takes a large part of the search space, else a number
/// of draws from all of it.
pub open spec fn draw_ranges(size: nat, target: nat, draws: nat) -> Seq<(nat, nat)> {
    if target * 2 >= size {
        narrowing(0, target, size)
    } else {
        repeated(size, draws)
    }
}

/// The sample that `draws` give. A shuffled one is rearranged by `order` in the end.
pub open spec fn list_from_draws(
    pool: Seq<u8>,
    n: nat,
    target: nat,
    order: Seq<int>,
    draws: Seq<usize>,
) -> Seq<Seq<char>> {
    let size = space(pool.len(), n);
    if target * 2 >= size {
        let positions = exchanged(Seq::new(size, |i: int| i as usize), 0, draws);
        order.map_values(|k: int| handles(pool, n, positions.take(target as int))[k])
    } else {
        handles(pool, n, kept(seq![], draws, target))
    }
}

/// What is drawn from the `ranges` off the stream `words`, and the words left after
/// it.
pub open spec fn drawn(words: Map<nat, u32>, ranges: Seq<(nat, nat)>, usize_bits: u32) -> (
    Seq<usize>,
    Map<nat, u32>,
)
    decreases ranges.len(),
{
    if ranges.len() == 0 {
        (seq![], words)
    } else {
        let (d, rest) = range_draw(
            words,
            ranges[0].0 as usize,
            ranges[0].1 as usize,
            usize_bits,
        );
        let (draws, last) = drawn(rest, ranges.drop_first(), usize_bits);
        (seq![d] + draws, last)
    }
}

proof fn lemma_shuffle_follows_draws(
    words: Map<nat, u32>,
    pool: Seq<usize>,
    i: nat,
    target: nat,
    usize_bits: u32,
)
    requires
        i <= target <= pool.len() <= usize::MAX,
        within(
            narrowing(i, target, pool.len()),
            drawn(words, narrowing(i, target, pool.len()), usize_bits).0,
        ),
    ensures
        ({
            let (draws, rest) = drawn(words, narrowing(i, target, pool.len()), usize_bits);
            partly_shuffled(words, pool, i, target, usize_bits) == (
                exchanged(pool, i, draws),
                rest,
            )
        }),
    decreases target - i,
{
    if i < target {
        let size = pool.len();
        let ranges = narrowing(i, target, size);
        let (j, rest) = range_draw(words, i as usize, size as usize, usize_bits);
        assert(ranges.drop_first() =~= narrowing(i + 1, target, size));
        let draws = drawn(words, ranges, usize_bits).0;
        let later = drawn(rest, narrowing(i + 1, target, size), usize_bits).0;
        assert(draws == seq![j] + later);
        assert(draws.drop_first() =~= later);
        lemma_narrowing_goes_on(i, target, size, draws);
        lemma_shuffle_follows_draws(
            rest,
            swapped(pool, i as int, j as int),
            i + 1,
            target,
            usize_bits,
        );
    }
}

proof fn lemma_rejection_follows_draws(
    words: Map<nat, u32>,
    picked: Seq<usize>,
    size: usize,
    target: nat,
    budget: nat,
    usize_bits: u32,
)
    requires
        kept(picked, drawn(words, repeated(size as nat, budget), usize_bits).0, target).len()
            >= target,
    ensures
        rejection_sample(words, picked, size, target, budget, usize_bits) == kept(
            picked,
            drawn(words, repeated(size as nat, budget), usize_bits).0,
            target,
        ),
    decreases budget,
{
    if picked.len() < target && budget > 0 {
        let ranges = repeated(size as nat, budget);
        let fewer = (budget - 1) as nat;
        assert(ranges.drop_first() =~= repeated(size as nat, fewer));
        let (d, rest) = range_draw(words, 0, size, usize_bits);
        let draws = drawn(words, ranges, usize_bits).0;
        let later = drawn(rest, repeated(size as nat, fewer), usize_bits).0;
        assert(draws == seq![d] + later);
        assert(draws.drop_first() =~= later);
        lemma_rejection_follows_draws(
            rest,
            with_draw(picked, d),
            size,
            target,
            fewer,
            usize_bits,
        );
    }
}

/// A sample is what the draws off its stream give: where each draw is from its
/// range, and the draws of a small sample are enough to fill it.
pub proof fn law_sample_follows_draws(
    words: Map<nat, u32>,
    pool: Seq<u8>,
    n: nat,
    target: nat,
    usize_bits: u32,
)
    requires
        target <= space(pool.len(), n) <= usize::MAX,
        ({
            let ranges = draw_ranges(space(pool.len(), n), target, DRAW_BUDGET as nat);
            let draws = drawn(words, ranges, usize_bits).0;
            &&& within(ranges, draws)
            &&& target * 2 < space(pool.len(), n) ==> kept(seq![], draws, target).len() >= target
        }),
    ensures
        ({
            let ranges = draw_ranges(space(pool.len(), n), target, DRAW_BUDGET as nat);
            let (draws, rest) = drawn(words, ranges, usize_bits);
            sampled_handles(words, pool, n, target, usize_bits) == list_from_draws(
                pool,
                n,
                target,
                shuffle_order(rest, target).0,
                draws,
            )
        }),
{
    let size = space(pool.len(), n);
    if target * 2 >= size {
        let all = Seq::new(size, |i: int| i as usize);
        lemma_shuffle_follows_draws(words, all, 0, target, usize_bits);
        let (draws, rest) = drawn(words, narrowing(0, target, size), usize_bits);
        assert(sampled_handles(words, pool, n, target, usize_bits) =~= list_from_draws(
            pool,
            n,
            target,
            shuffle_order(rest, target).0,
            draws,
        ));
    } else {
        lemma_rejection_follows_draws(
            words,
            seq![],
            size as usize,
            target,
            DRAW_BUDGET as nat,
            usize_bits,
        );
    }
}

/// The positions of the handles of a list.
spec fn ranks(pool: Seq<u8>, list: Seq<Seq<char>>) -> Seq<usize> {
    Seq::new(list.len(), |i: int| rank(pool, list[i]) as usize)
}

proof fn lemma_ranks(charset: Charset, length: Length, target: nat, list: Seq<Seq<char>>)
    requires
        unique_handles(charset.pool(), length.chars(), target, list),
    ensures
        is_list(
            ranks(charset.pool(), list),
            target,
            space(charset.pool().len(), length.chars()),
        ),
        handles(charset.pool(), length.chars(), ranks(charset.pool(), list)) == list,
        target <= space(charset.pool().len(), length.chars()) <= usize::MAX,
{
    let pool = charset.pool();
    let n = length.chars();
    let size = space(pool.len(), n);
    let positions = ranks(pool, list);
    law_space_sizes(charset, length);
    assert forall|i: int| 0 <= i < list.len() implies #[trigger] positions[i] < size && numeral(
        pool,
        n,
        positions[i] as nat,
    ) == list[i] by {
        assert(drawn_from(pool, n, list[i]));
        law_enumeration_is_exhaustive(pool, n, list[i]);
    }
    assert(handles(pool, n, positions) =~= list);
    assert forall|i: int, j: int|
        0 <= i < positions.len() && 0 <= j < positions.len() && i != j implies positions[i]
        != positions[j] by {
        assert(list[i] != list[j]);
    }
    let numbers = positions.map_values(|p: usize| p as int);
    assert forall|i: int| 0 <= i < numbers.len() implies 0 <= #[trigger] numbers[i] < size by {
        assert(positions[i] < size);
    }
    lemma_list_fits(numbers, size);
}

proof fn lemma_same_handles(pool: Seq<u8>, n: nat, a: Seq<usize>, b: Seq<usize>)
    requires
        proper_pool(pool),
        forall|i: int| 0 <= i < a.len() ==> #[trigger] a[i] < space(pool.len(), n),
        forall|i: int| 0 <= i < b.len() ==> #[trigger] b[i] < space(pool.len(), n),
    ensures
        handles(pool, n, a) == handles(pool, n, b) <==> a == b,
{
    if handles(pool, n, a) == handles(pool, n, b) {
        assert(handles(pool, n, a).len() == a.len() && handles(pool, n, b).len() == b.len());
        assert forall|i: int| 0 <= i < a.len() implies a[i] == b[i] by {
            assert(handles(pool, n, a)[i] == handles(pool, n, b)[i]);
            lemma_numeral_injective(pool, n, a[i] as nat, b[i] as nat);
        }
        assert(a =~= b);
    }
}

proof fn lemma_kept_in_range(picked: Seq<usize>, draws: Seq<usize>, target: nat, size: nat)
    requires
        forall|i: int| 0 <= i < picked.len() ==> #[trigger] picked[i] < size,
        forall|i: int| 0 <= i < draws.len() ==> #[trigger] draws[i] < size,
    ensures
        forall|i: int|
            0 <= i < kept(picked, draws, target).len() ==> #[trigger] kept(picked, draws, target)[i]
                < size,
    decreases draws.len(),
{
    if !(picked.len() >= target || draws.len() == 0) {
        let rest = draws.drop_first();
        assert forall|i: int| 0 <= i < rest.len() implies #[trigger] rest[i] < size by {
            assert(rest[i] == draws[i + 1]);
        }
        assert(draws[0] < size);
        let next = with_draw(picked, draws[0]);
        lemma_kept_in_range(next, rest, target, size);
        assert(kept(picked, draws, target) == kept(next, rest, target));
    } else {
        assert(kept(picked, draws, target) == picked);
    }
}

proof fn lemma_exchanged_is_list(pool: Seq<usize>, i: nat, draws: Seq<usize>, target: nat)
    requires
        is_list(pool, pool.len(), pool.len()),
        i <= target <= pool.len(),
        within(narrowing(i, target, pool.len()), draws),
    ensures
        is_list(exchanged(pool, i, draws), pool.len(), pool.len()),
    decreases draws.len(),
{
    if draws.len() > 0 {
        lemma_narrowing_goes_on(i, target, pool.len(), draws);
        lemma_swap_keeps_list(pool, i as int, draws[0] as int);
        lemma_exchanged_is_list(
            swapped(pool, i as int, draws[0] as int),
            i + 1,
            draws.drop_first(),
            target,
        );
    }
}

/// There is one way to draw each list by a shuffle, whatever it is rearranged by.
proof fn lemma_ways_to_shuffle(
    charset: Charset,
    length: Length,
    target: nat,
    order: Seq<int>,
    list: Seq<Seq<char>>,
)
    requires
        target * 2 >= space(charset.pool().len(), length.chars()),
        is_order(order, target),
        unique_handles(charset.pool(), length.chars(), target, list),
    ensures
        ways(
            narrowing(0, target, space(charset.pool().len(), length.chars())),
            |d: Seq<usize>|
                list_from_draws(charset.pool(), length.chars(), target, order, d) == list,
        ) == 1,
{
    let pool = charset.pool();
    let n = length.chars();
    let size = space(pool.len(), n);
    let ranges = narrowing(0, target, size);
    let all = Seq::new(size, |i: int| i as usize);
    lemma_pool_is_proper(charset);
    lemma_ranks(charset, length, target, list);
    let positions = ranks(pool, list);
    // The list before it is rearranged.
    let front = Seq::new(target, |m: int| positions[order.index_of(m)]);
    assert forall|m: int| 0 <= m < target implies 0 <= #[trigger] order.index_of(m) < target
        && order[order.index_of(m)] == m by {
        lemma_full_list_holds_all(order, m);
    }
    assert forall|k: int| 0 <= k < target implies front[#[trigger] order[k]] == positions[k] by {
        let m = order[k];
        assert(order[order.index_of(m)] == m);
    }
    assert(is_list(front, target, size)) by {
        assert forall|a: int, b: int|
            0 <= a < front.len() && 0 <= b < front.len() && a != b implies front[a]
            != front[b] by {
            assert(order[order.index_of(a)] == a && order[order.index_of(b)] == b);
        }
        assert forall|a: int| 0 <= a < front.len() implies #[trigger] front[a] < size by {
            assert(0 <= order.index_of(a) < target);
            assert(positions[order.index_of(a)] < size);
        }
    }
    let holds = |d: Seq<usize>| list_from_draws(pool, n, target, order, d) == list;
    let placed = |d: Seq<usize>| exchanged(all, 0, d).take(target as int) == front;
    assert forall|d: Seq<usize>| #[trigger] within(ranges, d) implies holds(d) == placed(d) by {
        lemma_exchanged_is_list(all, 0, d, target);
        let got = exchanged(all, 0, d).take(target as int);
        let made = list_from_draws(pool, n, target, order, d);
        assert(made.len() == target);
        assert forall|k: int| 0 <= k < target implies #[trigger] made[k] == numeral(
            pool,
            n,
            got[order[k]] as nat,
        ) by {
            assert(0 <= order[k] < target);
            assert(handles(pool, n, got)[order[k]] == numeral(pool, n, got[order[k]] as nat));
        }
        assert forall|k: int| 0 <= k < target implies list[k] == #[trigger] numeral(
            pool,
            n,
            positions[k] as nat,
        ) by {
            assert(handles(pool, n, positions)[k] == list[k]);
        }
        if placed(d) {
            assert forall|k: int| 0 <= k < target implies made[k] == list[k] by {
                assert(front[order[k]] == positions[k]);
                assert(list[k] == numeral(pool, n, positions[k] as nat));
            }
            assert(made =~= list);
        }
        if holds(d) {
            assert forall|m: int| 0 <= m < target implies got[m] == front[m] by {
                let k = order.index_of(m);
                assert(0 <= k < target && order[k] == m);
                assert(made[k] == list[k]);
                assert(list[k] == numeral(pool, n, positions[k] as nat));
                assert(exchanged(all, 0, d)[m] < size);
                assert(positions[k] < size);
                lemma_numeral_injective(pool, n, got[m] as nat, positions[k] as nat);
            }
            assert(got =~= front);
        }
    }
    lemma_ways_same(ranges, holds, placed);
    assert(all.take(0) =~= front.take(0));
    lemma_ways_to_exchange(all, 0, front);
}

/// The ways to draw a list by rejection sampling are as many for every list.
proof fn lemma_ways_to_reject(
    charset: Charset,
    length: Length,
    target: nat,
    order: Seq<int>,
    draws: nat,
    list: Seq<Seq<char>>,
)
    requires
        target * 2 < space(charset.pool().len(), length.chars()),
        unique_handles(charset.pool(), length.chars(), target, list),
    ensures
        ways(
            repeated(space(charset.pool().len(), length.chars()), draws),
            |d: Seq<usize>|
                list_from_draws(charset.pool(), length.chars(), target, order, d) == list,
        ) == completions(space(charset.pool().len(), length.chars()), target, 0, draws),
{
    let pool = charset.pool();
    let n = length.chars();
    let size = space(pool.len(), n);
    let ranges = repeated(size, draws);
    lemma_pool_is_proper(charset);
    lemma_ranks(charset, length, target, list);
    let positions = ranks(pool, list);
    let holds = |d: Seq<usize>| list_from_draws(pool, n, target, order, d) == list;
    let placed = |d: Seq<usize>| kept(positions.take(0), d, positions.len()) == positions;
    assert(positions.take(0) =~= seq![]);
    assert forall|d: Seq<usize>| #[trigger] within(ranges, d) implies holds(d) == placed(d) by {
        assert forall|i: int| 0 <= i < d.len() implies #[trigger] d[i] < size by {
            assert(d[i] < ranges[i].1);
        }
        lemma_kept_in_range(seq![], d, target, size);
        lemma_same_handles(pool, n, kept(seq![], d, target), positions);
    }
    lemma_ways_same(ranges, holds, placed);
    lemma_ways_to_keep(size, positions, 0, draws);
}

/// Sampling is uniform: every list of `target` different handles, in every order, is
/// drawn in as many ways as every other, by a shuffle in one way. It can be drawn
/// at all where as many numbers are drawn as it has handles.
pub proof fn law_every_list_is_equally_likely(
    charset: Charset,
    length: Length,
    target: nat,
    order: Seq<int>,
    draws: nat,
    first: Seq<Seq<char>>,
    second: Seq<Seq<char>>,
)
    requires
        is_order(order, target),
        unique_handles(charset.pool(), length.chars(), target, first),
        unique_handles(charset.pool(), length.chars(), target, second),
    ensures
        ({
            let pool = charset.pool();
            let n = length.chars();
            let size = space(pool.len(), n);
            let ranges = draw_ranges(size, target, draws);
            let to_first = ways(
                ranges,
                |d: Seq<usize>| list_from_draws(pool, n, target, order, d) == first,
            );
            let to_second = ways(
                ranges,
                |d: Seq<usize>| list_from_draws(pool, n, target, order, d) == second,
            );
            &&& to_first == to_second
            &&& target * 2 >= size ==> to_first == 1
            &&& draws >= target ==> to_first > 0
        }),
{
    let size = space(charset.pool().len(), length.chars());
    law_space_sizes(charset, length);
    if target * 2 >= size {
        lemma_ways_to_shuffle(charset, length, target, order, first);
        lemma_ways_to_shuffle(charset, length, target, order, second);
    } else {
        lemma_ways_to_reject(charset, length, target, order, draws, first);
        lemma_ways_to_reject(charset, length, target, order, draws, second);
        if draws >= target {
            lemma_completions_positive(size, target, 0, draws);
        }
    }
}

/// A sample of less than half of the search space holds the draws from all of it that
/// are new, until there are enough of them.
pub proof fn law_small_samples_keep_new_draws(
    words: Map<nat, u32>,
    pool: Seq<u8>,
    n: nat,
    target: nat,
    usize_bits: u32,
)
    requires
        target * 2 < space(pool.len(), n) <= usize::MAX,
        kept(
            seq![],
            drawn(words, repeated(space(pool.len(), n), DRAW_BUDGET as nat), usize_bits).0,
            target,
        ).len() >= target,
    ensures
        sampled_handles(words, pool, n, target, usize_bits) == handles(
            pool,
            n,
            kept(
                seq![],
                drawn(words, repeated(space(pool.len(), n), DRAW_BUDGET as nat), usize_bits).0,
                target,
            ),
        ),
{
    lemma_rejection_follows_draws(
        words,
        seq![],
        space(pool.len(), n) as usize,
        target,
        DRAW_BUDGET as nat,
        usize_bits,
    );
}

/// A sample of half of the search space or more is the beginning of its shuffled
/// positions, shuffled once more.
pub proof fn law_large_samples_are_shuffled(
    words: Map<nat, u32>,
    pool: Seq<u8>,
    n: nat,
    target: nat,
    usize_bits: u32,
)
    requires
        target <= space(pool.len(), n) <= usize::MAX,
        target * 2 >= space(pool.len(), n),
        within(
            narrowing(0, target, space(pool.len(), n)),
            drawn(words, narrowing(0, target, space(pool.len(), n)), usize_bits).0,
        ),
    ensures
        ({
            let size = space(pool.len(), n);
            let (draws, rest) = drawn(words, narrowing(0, target, size), usize_bits);
            let positions = exchanged(Seq::new(size, |i: int| i as usize), 0, draws);
            sampled_handles(words, pool, n, target, usize_bits) == shuffle_order(
                rest,
                target,
            ).0.map_values(|k: int| handles(pool, n, positions.take(target as int))[k])
        }),
{
    let size = space(pool.len(), n);
    lemma_shuffle_follows_draws(
        words,
        Seq::new(size, |i: int| i as usize),
        0,
        target,
        usize_bits,
    );
    let (draws, rest) = drawn(words, narrowing(0, target, size), usize_bits);
    let positions = exchanged(Seq::new(size, |i: int| i as usize), 0, draws);
    assert(sampled_handles(words, pool, n, target, usize_bits) =~= shuffle_order(
        rest,
        target,
    ).0.map_values(|k: int| handles(pool, n, positions.take(target as int))[k]));
}

/// Draws are used one after the other: a first draw is kept where it is new and more
/// are wanted, exchanges the item at its position, and leaves the rest to the draws
/// after it.
pub proof fn law_draws_are_used_in_order(
    picked: Seq<usize>,
    d: usize,
    rest: Seq<usize>,
    target: nat,
    pool: Seq<usize>,
    i: nat,
)
    ensures
        picked.len() >= target ==> kept(picked, rest, target) == picked,
        kept(picked, seq![], target) == picked,
        picked.len() < target && picked.contains(d) ==> kept(picked, seq![d] + rest, target)
            == kept(picked, rest, target),
        picked.len() < target && !picked.contains(d) ==> kept(picked, seq![d] + rest, target)
            == kept(picked.push(d), rest, target),
        exchanged(pool, i, seq![]) == pool,
        exchanged(pool, i, seq![d] + rest) == exchanged(
            pool.update(i as int, pool[d as int]).update(d as int, pool[i as int]),
            i + 1,
            rest,
        ),
{
    assert((seq![d] + rest).drop_first() =~= rest);
}

/// Draws come off the stream one after the other, each from its range.
pub proof fn law_draws_come_off_the_stream(
    words: Map<nat, u32>,
    lo: usize,
    hi: usize,
    ranges: Seq<(nat, nat)>,
    usize_bits: u32,
)
    ensures
        drawn(words, seq![], usize_bits) == (Seq::<usize>::empty(), words),
        ({
            let (d, rest) = range_draw(words, lo, hi, usize_bits);
            drawn(words, seq![(lo as nat, hi as nat)] + ranges, usize_bits) == (
                seq![d] + drawn(rest, ranges, usize_bits).0,
                drawn(rest, ranges, usize_bits).1,
            )
        }),
{
    let all = seq![(lo as nat, hi as nat)] + ranges;
    assert(all.drop_first() =~= ranges);
    assert(all[0] == (lo as nat, hi as nat));
}

} // verus!
