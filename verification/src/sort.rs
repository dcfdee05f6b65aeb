//! Stable sorting.

use vstd::prelude::*;

verus! {

/// Things with a rank, by which they are sorted. Several may share one.
pub trait Ranked: Sized {
    /// Is the rank of `self` not above that of `other`?
    spec fn at_most(self, other: Self) -> bool;

    /// Of two ranks one is not above the other.
    proof fn at_most_total(a: Self, b: Self)
        ensures
            a.at_most(b) || b.at_most(a),
    ;

    /// The comparison of ranks chains.
    proof fn at_most_chains(a: Self, b: Self, c: Self)
        requires
            a.at_most(b),
            b.at_most(c),
        ensures
            a.at_most(c),
    ;

    /// Compares two ranks.
    fn is_at_most(&self, other: &Self) -> (yes: bool)
        ensures
            yes == self.at_most(*other),
    ;
}

/// Each of the positions below `n`, once.
pub open spec fn is_arrangement(order: Seq<int>, n: nat) -> bool {
    &&& order.len() == n
    &&& forall|i: int| 0 <= i < n ==> 0 <= #[trigger] order[i] < n
    &&& forall|i: int, j: int| 0 <= i < j < n ==> #[trigger] order[i] != #[trigger] order[j]
    &&& forall|p: int| 0 <= p < n ==> #[trigger] order.contains(p)
}

/// Does the thing at position `a` come before the one at `b`? One of lower rank does; of two of
/// the same rank the one that stands in front does.
pub open spec fn comes_before<T: Ranked>(items: Seq<T>, a: int, b: int) -> bool {
    items[a].at_most(items[b]) && (items[b].at_most(items[a]) ==> a < b)
}

/// Does `order` list the positions of the items in the order in which they come?
pub open spec fn sorts<T: Ranked>(order: Seq<int>, items: Seq<T>) -> bool {
    &&& is_arrangement(order, items.len())
    &&& forall|i: int, j: int|
        0 <= i < j < items.len() ==> comes_before(items, #[trigger] order[i], #[trigger] order[j])
}

/// The items at the positions that `order` lists.
pub open spec fn arranged<T>(order: Seq<int>, items: Seq<T>) -> Seq<T> {
    Seq::new(order.len(), |i: int| items[order[i]])
}

/// Is `sorted` made of the items, by rank, with those of the same rank in their old order?
pub open spec fn is_stable_sort<T: Ranked>(items: Seq<T>, sorted: Seq<T>) -> bool {
    exists|order: Seq<int>| #[trigger] sorts(order, items) && sorted == arranged(order, items)
}

/// Takes the position at `from` out of a list and puts it back in at `to`.
spec fn moved<A>(s: Seq<A>, from: int, to: int) -> Seq<A> {
    s.remove(from).insert(to, s[from])
}

proof fn lemma_moved_index<A>(s: Seq<A>, from: int, to: int, k: int)
    requires
        0 <= to <= from < s.len(),
        0 <= k < s.len(),
    ensures
        moved(s, from, to).len() == s.len(),
        moved(s, from, to)[k] == s[if k < to {
            k
        } else if k == to {
            from
        } else if k <= from {
            k - 1
        } else {
            k
        }],
{
}

/// Moving one entry makes an arrangement of an arrangement.
proof fn lemma_moved_arrangement(order: Seq<int>, n: nat, from: int, to: int)
    requires
        is_arrangement(order, n),
        0 <= to <= from < n,
    ensures
        is_arrangement(moved(order, from, to), n),
{
    let after = moved(order, from, to);
    assert forall|p: int| 0 <= p < n implies #[trigger] after.contains(p) by {
        assert(order.contains(p));
        let at = choose|i: int| 0 <= i < order.len() && order[i] == p;
        let there = if at < to {
            at
        } else if at < from {
            at + 1
        } else if at == from {
            to
        } else {
            at
        };
        lemma_moved_index(order, from, to, there);
        assert(after[there] == p);
    }
}

/// Sorts by rank and keeps the order of things of the same rank.
pub fn sort<T: Ranked>(items: &mut Vec<T>)
    ensures
        is_stable_sort(old(items)@, final(items)@),
{
    let ghost given = items@;
    let n: usize = items.len();
    let ghost mut order: Seq<int> = Seq::new(n as nat, |i: int| i);
    proof {
        assert forall|p: int| 0 <= p < n implies #[trigger] order.contains(p) by {
            assert(order[p] == p);
        }
        assert(items@ =~= arranged(order, given));
    }
    let mut i: usize = 0;
    while i < n
        invariant
            i <= n,
            n == given.len(),
            items@ == arranged(order, given),
            is_arrangement(order, n as nat),
            forall|k: int| i <= k < n ==> #[trigger] order[k] == k,
            forall|k: int| 0 <= k < i ==> #[trigger] order[k] < i,
            forall|a: int, b: int|
                0 <= a < b < i ==> comes_before(given, #[trigger] order[a], #[trigger] order[b]),
        decreases n - i,
    {
        let mut to: usize = i;
        while to > 0 && !items[to - 1].is_at_most(&items[i])
            invariant
                to <= i < n,
                items@.len() == n,
                forall|k: int| to <= k < i ==> !(#[trigger] items@[k]).at_most(items@[i as int]),
            decreases to,
        {
            to -= 1;
        }
        let ghost before = order;
        let ghost placed = items@;
        let item = items.remove(i);
        items.insert(to, item);
        proof {
            order = moved(order, i as int, to as int);
            lemma_moved_arrangement(before, n as nat, i as int, to as int);
            assert forall|k: int| 0 <= k < n implies #[trigger] items@[k] == arranged(
                order,
                given,
            )[k] by {
                lemma_moved_index(before, i as int, to as int, k);
                lemma_moved_index(placed, i as int, to as int, k);
            }
            assert(items@ =~= arranged(order, given));
            assert forall|k: int| i + 1 <= k < n implies #[trigger] order[k] == k by {
                lemma_moved_index(before, i as int, to as int, k);
            }
            assert forall|k: int| 0 <= k < i + 1 implies #[trigger] order[k] < i + 1 by {
                lemma_moved_index(before, i as int, to as int, k);
            }
            assert forall|a: int, b: int| 0 <= a < b < i + 1 implies comes_before(
                given,
                #[trigger] order[a],
                #[trigger] order[b],
            ) by {
                lemma_moved_index(before, i as int, to as int, a);
                lemma_moved_index(before, i as int, to as int, b);
                lemma_place_fits(given, before, placed, i as int, to as int, a, b);
            }
        }
        i += 1;
    }
    assert(sorts(order, given));
}

/// With an item put behind the last one in front of it that is not above it, the items up to
/// there are in order.
proof fn lemma_place_fits<T: Ranked>(
    given: Seq<T>,
    order: Seq<int>,
    placed: Seq<T>,
    i: int,
    to: int,
    a: int,
    b: int,
)
    requires
        is_arrangement(order, given.len()),
        placed == arranged(order, given),
        0 <= to <= i < given.len(),
        order[i] == i,
        forall|k: int| 0 <= k < i ==> #[trigger] order[k] < i,
        forall|x: int, y: int|
            0 <= x < y < i ==> comes_before(given, #[trigger] order[x], #[trigger] order[y]),
        forall|k: int| to <= k < i ==> !(#[trigger] placed[k]).at_most(placed[i]),
        to > 0 ==> placed[to - 1].at_most(placed[i]),
        0 <= a < b <= i,
    ensures
        comes_before(given, moved(order, i, to)[a], moved(order, i, to)[b]),
{
    lemma_moved_index(order, i, to, a);
    lemma_moved_index(order, i, to, b);
    if b == to {
        assert(order[a] < i);
        if a < to - 1 {
            assert(comes_before(given, order[a], order[to - 1]));
            T::at_most_chains(given[order[a]], given[order[to - 1]], given[order[i]]);
        }
        assert(placed[to - 1] == given[order[to - 1]]);
        assert(placed[i] == given[order[i]]);
    } else if a == to {
        let k = b - 1;
        assert(placed[k] == given[order[k]]);
        assert(placed[i] == given[order[i]]);
        assert(!placed[k].at_most(placed[i]));
        T::at_most_total(given[order[i]], given[order[k]]);
    } else {
        let x = if a < to {
            a
        } else {
            a - 1
        };
        let y = if b < to {
            b
        } else {
            b - 1
        };
        assert(comes_before(given, order[x], order[y]));
    }
}

/// There is only one way to sort: two stable sorts of the same items are the same.
pub proof fn stable_sorts_agree<T: Ranked>(items: Seq<T>, one: Seq<T>, other: Seq<T>)
    requires
        is_stable_sort(items, one),
        is_stable_sort(items, other),
    ensures
        one == other,
{
    let p = choose|order: Seq<int>| #[trigger] sorts(order, items) && one == arranged(order, items);
    let q = choose|order: Seq<int>| #[trigger] sorts(order, items) && other == arranged(order, items);
    lemma_same_order(items, p, q, items.len());
    assert(p =~= q);
}

proof fn lemma_same_order<T: Ranked>(items: Seq<T>, p: Seq<int>, q: Seq<int>, n: nat)
    requires
        sorts(p, items),
        sorts(q, items),
        n <= items.len(),
    ensures
        forall|k: int| 0 <= k < n ==> #[trigger] p[k] == q[k],
    decreases n,
{
    if n > 0 {
        lemma_same_order(items, p, q, (n - 1) as nat);
        let k = n - 1;
        if p[k] != q[k] {
            assert(q.contains(p[k]));
            let i = choose|i: int| 0 <= i < q.len() && q[i] == p[k];
            if i < k {
                assert(p[i] == q[i]);
            }
            assert(comes_before(items, q[k], q[i]));
            assert(p.contains(q[k]));
            let j = choose|j: int| 0 <= j < p.len() && p[j] == q[k];
            if j < k {
                assert(p[j] == q[j]);
            }
            assert(comes_before(items, p[k], p[j]));
        }
    }
}

/// A stable sort ranks nothing above what stands behind it, and neither loses nor adds anything.
pub proof fn stable_sort_keeps_everything<T: Ranked>(items: Seq<T>, sorted: Seq<T>)
    requires
        is_stable_sort(items, sorted),
    ensures
        sorted.len() == items.len(),
        forall|i: int, j: int|
            0 <= i < j < sorted.len() ==> (#[trigger] sorted[i]).at_most(#[trigger] sorted[j]),
        forall|k: int| 0 <= k < items.len() ==> sorted.contains(#[trigger] items[k]),
        forall|k: int| 0 <= k < sorted.len() ==> items.contains(#[trigger] sorted[k]),
{
    let order = choose|order: Seq<int>| #[trigger]
        sorts(order, items) && sorted == arranged(order, items);
    assert forall|i: int, j: int| 0 <= i < j < sorted.len() implies (
    #[trigger] sorted[i]).at_most(#[trigger] sorted[j]) by {
        assert(comes_before(items, order[i], order[j]));
    }
    assert forall|k: int| 0 <= k < items.len() implies sorted.contains(#[trigger] items[k]) by {
        assert(order.contains(k));
        let at = choose|i: int| 0 <= i < order.len() && order[i] == k;
        assert(sorted[at] == items[k]);
    }
    assert forall|k: int| 0 <= k < sorted.len() implies items.contains(#[trigger] sorted[k]) by {
        assert(items[order[k]] == sorted[k]);
    }
}

} // verus!
