//! Lists of path numbers: selection, and ordering by cost.
use crate::binary64::Binary64;
use vstd::prelude::*;

verus! {

/// Every entry is the number of one of `n` paths.
pub open spec fn within(list: Seq<usize>, n: nat) -> bool {
    forall|i: int| 0 <= i < list.len() ==> (#[trigger] list[i]) < n
}

/// All path numbers below `n`.
pub open spec fn up_to(n: nat) -> Seq<usize> {
    Seq::new(n, |i: int| i as usize)
}

/// The entries whose flag is set, in order.
pub open spec fn kept(list: Seq<usize>, flags: Seq<bool>) -> Seq<usize>
    decreases list.len(),
{
    if list.len() == 0 {
        Seq::empty()
    } else {
        let rest: Seq<usize> = kept(list.drop_last(), flags);
        if flags[list.last() as int] {
            rest.push(list.last())
        } else {
            rest
        }
    }
}

/// First position from `i` on whose cost is above `cost`.
pub open spec fn above(list: Seq<usize>, costs: Seq<Binary64>, cost: Binary64, i: int) -> int
    decreases list.len() - i,
{
    if i < list.len() && costs[list[i] as int].key() <= cost.key() {
        above(list, costs, cost, i + 1)
    } else {
        i
    }
}

/// The entries by rising cost; equal ones keep their order.
pub open spec fn ordered(list: Seq<usize>, costs: Seq<Binary64>) -> Seq<usize>
    decreases list.len(),
{
    if list.len() == 0 {
        Seq::empty()
    } else {
        let rest: Seq<usize> = ordered(list.drop_last(), costs);
        rest.insert(above(rest, costs, costs[list.last() as int], 0), list.last())
    }
}

/// The first entry of least cost.
pub open spec fn cheapest(list: Seq<usize>, costs: Seq<Binary64>) -> Option<usize>
    decreases list.len(),
{
    if list.len() == 0 {
        None
    } else {
        match cheapest(list.drop_last(), costs) {
            None => Some(list.last()),
            Some(best) => if costs[list.last() as int].key() < costs[best as int].key() {
                Some(list.last())
            } else {
                Some(best)
            },
        }
    }
}

pub open spec fn first_of(list: Seq<usize>) -> Option<usize> {
    if list.len() == 0 {
        None
    } else {
        Some(list[0])
    }
}

pub proof fn lemma_above(list: Seq<usize>, costs: Seq<Binary64>, cost: Binary64, i: int)
    requires
        0 <= i <= list.len(),
    ensures
        i <= above(list, costs, cost, i) <= list.len(),
        forall|j: int|
            i <= j < above(list, costs, cost, i) ==> costs[(#[trigger] list[j]) as int].key()
                <= cost.key(),
        above(list, costs, cost, i) < list.len() ==> cost.key() < costs[list[above(
            list,
            costs,
            cost,
            i,
        )] as int].key(),
    decreases list.len() - i,
{
    if i < list.len() && costs[list[i] as int].key() <= cost.key() {
        lemma_above(list, costs, cost, i + 1);
    }
}

pub proof fn lemma_kept(list: Seq<usize>, flags: Seq<bool>, n: nat)
    requires
        within(list, n),
    ensures
        within(kept(list, flags), n),
        kept(list, flags).len() <= list.len(),
        forall|x: usize| kept(list, flags).contains(x) <==> list.contains(x) && flags[x as int],
    decreases list.len(),
{
    if list.len() > 0 {
        let rest: Seq<usize> = kept(list.drop_last(), flags);
        lemma_kept(list.drop_last(), flags, n);
        assert forall|x: usize|
            kept(list, flags).contains(x) <==> list.contains(x) && flags[x as int] by {
            assert(list.contains(x) <==> list.drop_last().contains(x) || x == list.last()) by {
                if list.contains(x) {
                    let i: int = choose|i: int| 0 <= i < list.len() && list[i] == x;
                    if i < list.len() - 1 {
                        assert(list.drop_last()[i] == x);
                    }
                }
                if list.drop_last().contains(x) {
                    let i: int = choose|i: int|
                        0 <= i < list.drop_last().len() && list.drop_last()[i] == x;
                    assert(list[i] == x);
                }
            }
            assert(rest.push(list.last()).contains(x) <==> rest.contains(x) || x == list.last())
                by {
                if rest.contains(x) {
                    let i: int = choose|i: int| 0 <= i < rest.len() && rest[i] == x;
                    assert(rest.push(list.last())[i] == x);
                }
                assert(rest.push(list.last())[rest.len() as int] == list.last());
            }
        }
    }
}

/// Ordering rearranges the list so that costs do not fall.
pub proof fn ordered_is_sorted(list: Seq<usize>, costs: Seq<Binary64>)
    ensures
        ordered(list, costs).len() == list.len(),
        ordered(list, costs).to_multiset() == list.to_multiset(),
        forall|i: int, j: int|
            0 <= i < j < list.len() ==> costs[(#[trigger] ordered(list, costs)[i]) as int].key()
                <= costs[(#[trigger] ordered(list, costs)[j]) as int].key(),
    decreases list.len(),
{
    if list.len() > 0 {
        let rest: Seq<usize> = ordered(list.drop_last(), costs);
        ordered_is_sorted(list.drop_last(), costs);
        let x: usize = list.last();
        let at: int = above(rest, costs, costs[x as int], 0);
        lemma_above(rest, costs, costs[x as int], 0);
        let all: Seq<usize> = rest.insert(at, x);
        assert(all.len() == rest.len() + 1);
        assert forall|i: int, j: int| 0 <= i < j < all.len() implies costs[(
        #[trigger] all[i]) as int].key() <= costs[(#[trigger] all[j]) as int].key() by {
            let a: int = if i < at {
                i
            } else {
                i - 1
            };
            let b: int = if j < at {
                j
            } else {
                j - 1
            };
            if i != at {
                assert(all[i] == rest[a]);
            }
            if j != at {
                assert(all[j] == rest[b]);
            }
            if i == at {
                if b > at {
                    assert(costs[rest[at] as int].key() <= costs[rest[b] as int].key());
                }
            }
        }
        broadcast use vstd::seq_lib::group_to_multiset_ensures;

        assert(list.drop_last().push(x) =~= list);
        assert(all.to_multiset() =~= rest.to_multiset().insert(x)) by {
            assert(all.remove(at) =~= rest);
            vstd::seq_lib::to_multiset_remove(all, at);
            all.to_multiset_ensures();
            assert(all[at] == x);
            assert(all.contains(x));
        }
    } else {
        assert(ordered(list, costs) =~= list);
    }
}

pub proof fn lemma_ordered_within(list: Seq<usize>, costs: Seq<Binary64>, n: nat)
    requires
        within(list, n),
    ensures
        within(ordered(list, costs), n),
        ordered(list, costs).len() == list.len(),
    decreases list.len(),
{
    if list.len() > 0 {
        let rest: Seq<usize> = ordered(list.drop_last(), costs);
        lemma_ordered_within(list.drop_last(), costs, n);
        lemma_above(rest, costs, costs[list.last() as int], 0);
    }
}

pub proof fn lemma_cheapest(list: Seq<usize>, costs: Seq<Binary64>, n: nat)
    requires
        within(list, n),
    ensures
        list.len() > 0 <==> cheapest(list, costs) is Some,
        match cheapest(list, costs) {
            Some(best) => best < n && list.contains(best) && forall|i: int|
                0 <= i < list.len() ==> costs[best as int].key() <= costs[(
                #[trigger] list[i]) as int].key(),
            None => true,
        },
    decreases list.len(),
{
    if list.len() > 0 {
        lemma_cheapest(list.drop_last(), costs, n);
        assert(list.contains(list.last()));
        match cheapest(list.drop_last(), costs) {
            Some(best) => {
                let i: int = choose|i: int|
                    0 <= i < list.drop_last().len() && list.drop_last()[i] == best;
                assert(list[i] == best);
                assert(list.contains(best));
                assert forall|j: int| 0 <= j < list.len() implies costs[cheapest(
                    list,
                    costs,
                )->0 as int].key() <= costs[(#[trigger] list[j]) as int].key() by {
                    if j < list.len() - 1 {
                        assert(list.drop_last()[j] == list[j]);
                    }
                }
            },
            None => {
                assert(list.len() == 1);
            },
        }
    }
}

pub fn all_below(n: usize) -> (r: Vec<usize>)
    ensures
        r@ == up_to(n as nat),
        within(r@, n as nat),
{
    let mut r: Vec<usize> = Vec::new();
    let mut i: usize = 0;
    while i < n
        invariant
            i <= n,
            r@.len() == i,
            forall|j: int| 0 <= j < i ==> r@[j] == j,
        decreases n - i,
    {
        r.push(i);
        i = i + 1;
    }
    assert(r@ =~= up_to(n as nat));
    r
}

pub fn keep(list: &Vec<usize>, flags: &Vec<bool>) -> (r: Vec<usize>)
    requires
        within(list@, flags@.len()),
    ensures
        r@ == kept(list@, flags@),
        within(r@, flags@.len()),
{
    let mut r: Vec<usize> = Vec::new();
    let mut i: usize = 0;
    assert(list@.take(0) =~= Seq::empty());
    while i < list.len()
        invariant
            i <= list@.len(),
            within(list@, flags@.len()),
            r@ == kept(list@.take(i as int), flags@),
        decreases list@.len() - i,
    {
        assert(list@.take(i + 1).drop_last() =~= list@.take(i as int));
        assert(list@[i as int] < flags@.len());
        if flags[list[i]] {
            r.push(list[i]);
        }
        i = i + 1;
    }
    assert(list@.take(i as int) =~= list@);
    proof {
        lemma_kept(list@, flags@, flags@.len());
    }
    r
}

pub fn order(list: &Vec<usize>, costs: &Vec<Binary64>) -> (r: Vec<usize>)
    requires
        within(list@, costs@.len()),
    ensures
        r@ == ordered(list@, costs@),
        within(r@, costs@.len()),
{
    let mut r: Vec<usize> = Vec::new();
    let mut i: usize = 0;
    assert(list@.take(0) =~= Seq::empty());
    while i < list.len()
        invariant
            i <= list@.len(),
            within(list@, costs@.len()),
            within(r@, costs@.len()),
            r@.len() == i,
            r@ == ordered(list@.take(i as int), costs@),
        decreases list@.len() - i,
    {
        let ghost part: Seq<usize> = list@.take(i + 1);
        assert(part.drop_last() =~= list@.take(i as int));
        let x: usize = list[i];
        assert(list@[i as int] < costs@.len());
        let cost: Binary64 = costs[x];
        let mut at: usize = 0;
        proof {
            lemma_above(r@, costs@, cost, 0);
        }
        while at < r.len() && !cost.precedes(costs[r[at]])
            invariant
                at <= r@.len(),
                within(r@, costs@.len()),
                above(r@, costs@, cost, at as int) == above(r@, costs@, cost, 0),
            decreases r@.len() - at,
        {
            at = at + 1;
        }
        proof {
            lemma_ordered_within(part, costs@, costs@.len());
        }
        r.insert(at, x);
        i = i + 1;
    }
    assert(list@.take(i as int) =~= list@);
    r
}

pub fn cheapest_of(list: &Vec<usize>, costs: &Vec<Binary64>) -> (r: Option<usize>)
    requires
        within(list@, costs@.len()),
    ensures
        r == cheapest(list@, costs@),
        match r {
            Some(best) => best < costs@.len(),
            None => true,
        },
{
    let mut best: Option<usize> = None;
    let mut i: usize = 0;
    assert(list@.take(0) =~= Seq::empty());
    while i < list.len()
        invariant
            i <= list@.len(),
            within(list@, costs@.len()),
            best == cheapest(list@.take(i as int), costs@),
            match best {
                Some(b) => b < costs@.len(),
                None => true,
            },
        decreases list@.len() - i,
    {
        assert(list@.take(i + 1).drop_last() =~= list@.take(i as int));
        let x: usize = list[i];
        assert(list@[i as int] < costs@.len());
        match best {
            None => {
                best = Some(x);
            },
            Some(b) => {
                if costs[x].precedes(costs[b]) {
                    best = Some(x);
                }
            },
        }
        i = i + 1;
    }
    assert(list@.take(i as int) =~= list@);
    best
}

pub fn holds(list: &Vec<usize>, x: usize) -> (r: bool)
    ensures
        r == list@.contains(x),
{
    let mut i: usize = 0;
    while i < list.len()
        invariant
            i <= list@.len(),
            forall|j: int| 0 <= j < i ==> list@[j] != x,
        decreases list@.len() - i,
    {
        if list[i] == x {
            return true;
        }
        i = i + 1;
    }
    false
}

pub fn holds_key(list: &Vec<u128>, x: u128) -> (r: bool)
    ensures
        r == list@.contains(x),
{
    let mut i: usize = 0;
    while i < list.len()
        invariant
            i <= list@.len(),
            forall|j: int| 0 <= j < i ==> list@[j] != x,
        decreases list@.len() - i,
    {
        if list[i] == x {
            return true;
        }
        i = i + 1;
    }
    false
}

pub fn first(list: &Vec<usize>) -> (r: Option<usize>)
    ensures
        r == first_of(list@),
{
    if list.len() == 0 {
        None
    } else {
        Some(list[0])
    }
}

/// Whether entries stand in an order, each before all that follow it.
pub open spec fn pairwise(list: Seq<usize>, before: spec_fn(usize, usize) -> bool) -> bool {
    forall|i: int, j: int| #![trigger list[i], list[j]]
        0 <= i < j < list.len() ==> before(list[i], list[j])
}

/// Whether one entry is cheaper than another, or as cheap and before it.
pub open spec fn cheaper(
    costs: Seq<Binary64>,
    before: spec_fn(usize, usize) -> bool,
) -> spec_fn(usize, usize) -> bool {
    |x: usize, y: usize|
        costs[x as int].key() < costs[y as int].key() || (costs[x as int].key()
            == costs[y as int].key() && before(x, y))
}

/// What is kept keeps its order.
pub proof fn lemma_kept_pairwise(
    list: Seq<usize>,
    flags: Seq<bool>,
    before: spec_fn(usize, usize) -> bool,
)
    requires
        pairwise(list, before),
    ensures
        pairwise(kept(list, flags), before),
        forall|x: usize| #[trigger] kept(list, flags).contains(x) ==> list.contains(x)
            && flags[x as int],
    decreases list.len(),
{
    if list.len() > 0 {
        let rest: Seq<usize> = list.drop_last();
        let x: usize = list.last();
        let some: Seq<usize> = kept(rest, flags);
        assert(pairwise(rest, before)) by {
            assert forall|i: int, j: int| #![trigger rest[i], rest[j]]
                0 <= i < j < rest.len() implies before(rest[i], rest[j]) by {
                assert(rest[i] == list[i] && rest[j] == list[j]);
            }
        }
        lemma_kept_pairwise(rest, flags, before);
        let all: Seq<usize> = kept(list, flags);
        assert forall|y: usize| #[trigger] all.contains(y) implies list.contains(y) && flags[y as int] by {
            let k: int = choose|k: int| 0 <= k < all.len() && all[k] == y;
            if k < some.len() {
                assert(some[k] == y);
                assert(some.contains(y));
                assert(rest.contains(y));
            let m: int = choose|m: int| 0 <= m < rest.len() && rest[m] == y;
                assert(list[m] == y);
            } else {
                assert(list[list.len() - 1] == y);
            }
        }
        assert forall|i: int, j: int| #![trigger all[i], all[j]]
            0 <= i < j < all.len() implies before(all[i], all[j]) by {
            assert(all[i] == some[i]);
            if j < some.len() {
                assert(all[j] == some[j]);
            } else {
                assert(some.contains(some[i]));
                let m: int = choose|m: int| 0 <= m < rest.len() && rest[m] == some[i];
                assert(list[m] == some[i] && list[list.len() - 1] == x);
            }
        }
    }
}

/// Entries by rising cost stand by cost, and equal ones as they stood.
pub proof fn lemma_ordered_pairwise(
    list: Seq<usize>,
    costs: Seq<Binary64>,
    before: spec_fn(usize, usize) -> bool,
)
    requires
        pairwise(list, before),
    ensures
        pairwise(ordered(list, costs), cheaper(costs, before)),
        forall|x: usize| #[trigger] ordered(list, costs).contains(x) ==> list.contains(x),
    decreases list.len(),
{
    if list.len() > 0 {
        let rest: Seq<usize> = list.drop_last();
        let x: usize = list.last();
        let cost: Binary64 = costs[x as int];
        assert(pairwise(rest, before)) by {
            assert forall|i: int, j: int| #![trigger rest[i], rest[j]]
                0 <= i < j < rest.len() implies before(rest[i], rest[j]) by {
                assert(rest[i] == list[i] && rest[j] == list[j]);
            }
        }
        lemma_ordered_pairwise(rest, costs, before);
        let some: Seq<usize> = ordered(rest, costs);
        let at: int = above(some, costs, cost, 0);
        lemma_above(some, costs, cost, 0);
        let all: Seq<usize> = some.insert(at, x);
        assert(all == ordered(list, costs));
        let order: spec_fn(usize, usize) -> bool = cheaper(costs, before);
        assert forall|y: usize| some.contains(y) implies #[trigger] before(y, x) && list.contains(
            y,
        ) by {
            assert(rest.contains(y));
            let m: int = choose|m: int| 0 <= m < rest.len() && rest[m] == y;
            assert(list[m] == y && list[list.len() - 1] == x);
        }
        assert forall|y: usize| #[trigger] all.contains(y) implies list.contains(y) by {
            let k: int = choose|k: int| 0 <= k < all.len() && all[k] == y;
            if k < at {
                assert(some[k] == y);
                assert(some.contains(y));
                assert(before(y, x));
            } else if k == at {
                assert(list[list.len() - 1] == y);
            } else {
                assert(some[k - 1] == y);
                assert(some.contains(y));
                assert(before(y, x));
            }
        }
        assert forall|i: int, j: int| #![trigger all[i], all[j]]
            0 <= i < j < all.len() implies order(all[i], all[j]) by {
            if i < at {
                assert(all[i] == some[i]);
                assert(some.contains(some[i]));
                if j < at {
                    assert(all[j] == some[j]);
                } else if j == at {
                    assert(all[j] == x);
                    assert(before(some[i], x));
                } else {
                    assert(all[j] == some[j - 1]);
                }
            } else if i == at {
                assert(all[i] == x && all[j] == some[j - 1]);
                if j - 1 > at {
                    assert(order(some[at], some[j - 1]));
                }
            } else {
                assert(all[i] == some[i - 1] && all[j] == some[j - 1]);
            }
        }
    }
}

/// Of several entries of least cost the first is taken: all before it cost more.
pub proof fn the_first_of_the_cheapest_is_taken(list: Seq<usize>, costs: Seq<Binary64>) -> (at: int)
    requires
        list.len() > 0,
    ensures
        0 <= at < list.len(),
        cheapest(list, costs) == Some(list[at]),
        forall|i: int|
            0 <= i < at ==> costs[list[at] as int].key() < costs[(#[trigger] list[i]) as int].key(),
        forall|i: int|
            at <= i < list.len() ==> costs[list[at] as int].key() <= costs[(
            #[trigger] list[i]) as int].key(),
    decreases list.len(),
{
    let rest: Seq<usize> = list.drop_last();
    let n: int = list.len() as int;
    if rest.len() == 0 {
        0
    } else {
        let k: int = the_first_of_the_cheapest_is_taken(rest, costs);
        assert(rest[k] == list[k]);
        assert forall|i: int| 0 <= i < rest.len() implies #[trigger] list[i] == rest[i] by {
        }
        if costs[list[n - 1] as int].key() < costs[list[k] as int].key() {
            n - 1
        } else {
            k
        }
    }
}

} // verus!
