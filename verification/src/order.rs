//! Stable ordering by integer keys.
//!
//! Sorting is done on a list of keys and yields the order in which the
//! positions of that list have to be visited: ascending by key, and among
//! equal keys in the order in which they stood.

use vstd::prelude::*;

verus! {

/// Where a new entry with key `k` goes in `order`: behind every entry whose
/// key is not greater, found by walking back from the end.
pub open spec fn slot(keys: Seq<u128>, order: Seq<usize>, k: u128) -> int
    decreases order.len(),
{
    if order.len() == 0 {
        0
    } else if keys[order.last() as int] <= k {
        order.len() as int
    } else {
        slot(keys, order.drop_last(), k)
    }
}

/// The positions of `keys`, ascending by key; equal keys keep their order.
pub open spec fn stable_order(keys: Seq<u128>) -> Seq<usize>
    decreases keys.len(),
{
    if keys.len() == 0 {
        Seq::empty()
    } else {
        let before = stable_order(keys.drop_last());
        before.insert(slot(keys, before, keys.last()), (keys.len() - 1) as usize)
    }
}

/// `items` taken in the given order.
pub open spec fn pick<T>(items: Seq<T>, order: Seq<usize>) -> Seq<T> {
    Seq::new(order.len(), |i: int| items[order[i] as int])
}

/// `items` sorted stably by the key that stands at the same position.
pub open spec fn sorted_by<T>(items: Seq<T>, keys: Seq<u128>) -> Seq<T> {
    pick(items, stable_order(keys))
}

/// Entry `a` comes strictly before entry `b`: by key, then by position.
pub open spec fn precedes(keys: Seq<u128>, a: usize, b: usize) -> bool {
    keys[a as int] < keys[b as int] || (keys[a as int] == keys[b as int] && a < b)
}

/// `order` lists positions of `keys` in strictly ascending order of
/// (key, position).
pub open spec fn ascending(keys: Seq<u128>, order: Seq<usize>) -> bool {
    &&& forall|i: int| 0 <= i < order.len() ==> (#[trigger] order[i]) < keys.len()
    &&& forall|i: int, j: int|
        0 <= i < j < order.len() ==> precedes(keys, #[trigger] order[i], #[trigger] order[j])
}

/// Position `e` occurs in `order`.
pub open spec fn visits(order: Seq<usize>, e: int) -> bool {
    exists|i: int| 0 <= i < order.len() && #[trigger] order[i] == e
}

proof fn lemma_slot_bounds(keys: Seq<u128>, order: Seq<usize>, k: u128)
    ensures
        0 <= slot(keys, order, k) <= order.len(),
        forall|j: int|
            slot(keys, order, k) <= j < order.len() ==> keys[#[trigger] order[j] as int] > k,
        slot(keys, order, k) > 0 ==> keys[order[slot(keys, order, k) - 1] as int] <= k,
    decreases order.len(),
{
    if order.len() > 0 && keys[order.last() as int] > k {
        let front = order.drop_last();
        lemma_slot_bounds(keys, front, k);
        assert forall|j: int| slot(keys, order, k) <= j < order.len() implies keys[#[trigger] order[j] as int]
            > k by {
            if j < front.len() {
                assert(front[j] == order[j]);
            }
        }
        if slot(keys, order, k) > 0 {
            assert(front[slot(keys, order, k) - 1] == order[slot(keys, order, k) - 1]);
        }
    }
}

/// The stable order visits every position exactly once, ascending by key,
/// and positions with equal keys in the order in which they stood.
pub proof fn lemma_stable_order(keys: Seq<u128>)
    requires
        keys.len() <= usize::MAX,
    ensures
        stable_order(keys).len() == keys.len(),
        ascending(keys, stable_order(keys)),
        forall|e: int| 0 <= e < keys.len() ==> #[trigger] visits(stable_order(keys), e),
    decreases keys.len(),
{
    if keys.len() > 0 {
        let shorter = keys.drop_last();
        let before = stable_order(shorter);
        let k = keys.last();
        let last = (keys.len() - 1) as usize;
        let s = slot(keys, before, k);
        let after = before.insert(s, last);
        lemma_stable_order(shorter);
        lemma_slot_bounds(keys, before, k);
        assert(after == stable_order(keys));
        assert forall|i: int| 0 <= i < before.len() implies keys[#[trigger] before[i] as int]
            == shorter[before[i] as int] && before[i] < last by {}
        assert forall|i: int, j: int| 0 <= i < j < after.len() implies precedes(
            keys,
            #[trigger] after[i],
            #[trigger] after[j],
        ) by {
            let bi = if i < s { i } else { i - 1 };
            let bj = if j < s { j } else { j - 1 };
            if i == s {
                assert(after[j] == before[bj]);
            } else if j == s {
                assert(after[i] == before[bi]);
                if s > 0 && bi < s - 1 {
                    assert(precedes(shorter, before[bi], before[s - 1]));
                }
            } else {
                assert(after[i] == before[bi]);
                assert(after[j] == before[bj]);
                assert(precedes(shorter, before[bi], before[bj]));
            }
        }
        assert forall|e: int| 0 <= e < keys.len() implies #[trigger] visits(after, e) by {
            if e == last {
                assert(after[s] == e);
            } else {
                assert(visits(before, e));
                let i0 = choose|i: int| 0 <= i < before.len() && #[trigger] before[i] == e;
                if i0 < s {
                    assert(after[i0] == e);
                } else {
                    assert(after[i0 + 1] == e);
                }
            }
        }
    }
}

/// The keys of a stably sorted sequence never decrease.
pub proof fn lemma_sorted_keys(keys: Seq<u128>, i: int, j: int)
    requires
        0 <= i <= j < keys.len() <= usize::MAX,
    ensures
        stable_order(keys).len() == keys.len(),
        stable_order(keys)[i] < keys.len(),
        stable_order(keys)[j] < keys.len(),
        keys[stable_order(keys)[i] as int] <= keys[stable_order(keys)[j] as int],
{
    lemma_stable_order(keys);
    if i < j {
        assert(precedes(keys, stable_order(keys)[i], stable_order(keys)[j]));
    }
}

/// No key is smaller than one in front of it.
pub open spec fn nondecreasing(keys: Seq<u128>) -> bool {
    forall|i: int, j: int| 0 <= i <= j < keys.len() ==> keys[i] <= keys[j]
}

/// What is in order already stays where it is.
pub proof fn lemma_sorted_stays<T>(items: Seq<T>, keys: Seq<u128>)
    requires
        nondecreasing(keys),
        keys.len() <= usize::MAX,
        items.len() == keys.len(),
    ensures
        stable_order(keys) == Seq::new(keys.len(), |i: int| i as usize),
        sorted_by(items, keys) == items,
    decreases keys.len(),
{
    if keys.len() > 0 {
        let shorter = keys.drop_last();
        assert forall|i: int, j: int| 0 <= i <= j < shorter.len() implies shorter[i]
            <= shorter[j] by {
            assert(shorter[i] == keys[i] && shorter[j] == keys[j]);
        }
        lemma_sorted_stays(items.drop_last(), shorter);
        let before = stable_order(shorter);
        if before.len() > 0 {
            assert(before.last() == (before.len() - 1) as usize);
            assert(keys[before.len() - 1] <= keys[keys.len() - 1]);
        }
        assert(slot(keys, before, keys.last()) == before.len());
        assert(stable_order(keys) =~= Seq::new(keys.len(), |i: int| i as usize));
    } else {
        assert(stable_order(keys) =~= Seq::new(keys.len(), |i: int| i as usize));
    }
    assert(sorted_by(items, keys) =~= items);
}

/// `order` lists each position from `lo` up to, not including, `hi`.
pub open spec fn covers(order: Seq<usize>, lo: int, hi: int) -> bool {
    &&& order.len() == hi - lo
    &&& forall|i: int| 0 <= i < order.len() ==> lo <= #[trigger] order[i] < hi
    &&& forall|e: int| lo <= e < hi ==> #[trigger] visits(order, e)
}

/// Each entry of `order` comes strictly before the entries behind it.
pub open spec fn ordered(keys: Seq<u128>, order: Seq<usize>) -> bool {
    forall|i: int, j: int|
        0 <= i < j < order.len() ==> precedes(keys, #[trigger] order[i], #[trigger] order[j])
}

proof fn lemma_same_front(keys: Seq<u128>, a: Seq<usize>, b: Seq<usize>, n: int, i: int)
    requires
        covers(a, 0, n),
        covers(b, 0, n),
        ordered(keys, a),
        ordered(keys, b),
        0 <= i <= n,
    ensures
        forall|k: int| 0 <= k < i ==> a[k] == b[k],
    decreases i,
{
    if i > 0 {
        lemma_same_front(keys, a, b, n, i - 1);
        let x = a[i - 1];
        let y = b[i - 1];
        if x != y {
            assert(visits(a, y as int));
            let j = choose|j: int| 0 <= j < a.len() && #[trigger] a[j] == y as int;
            assert(visits(b, x as int));
            let h = choose|h: int| 0 <= h < b.len() && #[trigger] b[h] == x as int;
            if j < i - 1 {
                assert(precedes(keys, b[j], b[i - 1]));
            } else {
                assert(precedes(keys, a[i - 1], a[j]));
            }
            if h < i - 1 {
                assert(precedes(keys, a[h], a[i - 1]));
            } else {
                assert(precedes(keys, b[i - 1], b[h]));
            }
        }
    }
}

/// There is one stable order only: a list of all positions in which each
/// comes strictly before those behind it is the stable order.
pub proof fn lemma_order_unique(keys: Seq<u128>, order: Seq<usize>)
    requires
        keys.len() <= usize::MAX,
        covers(order, 0, keys.len() as int),
        ordered(keys, order),
    ensures
        order == stable_order(keys),
{
    lemma_stable_order(keys);
    let other = stable_order(keys);
    lemma_same_front(keys, order, other, keys.len() as int, keys.len() as int);
    assert(order =~= other);
}

proof fn lemma_visits_push(order: Seq<usize>, x: usize, e: int)
    ensures
        visits(order, e) ==> visits(order.push(x), e),
        visits(order.push(x), x as int),
{
    let grown = order.push(x);
    assert(grown[order.len() as int] == x);
    if visits(order, e) {
        let i = choose|i: int| 0 <= i < order.len() && #[trigger] order[i] == e;
        assert(grown[i] == e);
    }
}

/// The entries of `out` come before `x`, and `x` before the entry `next`
/// that follows it where it was taken from: then they come before `next`.
proof fn lemma_before_next(keys: Seq<u128>, out: Seq<usize>, x: usize, next: usize)
    requires
        forall|k: int| 0 <= k < out.len() ==> precedes(keys, #[trigger] out[k], x),
        precedes(keys, x, next),
    ensures
        forall|k: int| 0 <= k < out.push(x).len() ==> precedes(keys, #[trigger] out.push(x)[k], next),
{
    let grown = out.push(x);
    assert forall|k: int| 0 <= k < grown.len() implies precedes(keys, #[trigger] grown[k], next) by {
        if k < out.len() {
            assert(grown[k] == out[k]);
            assert(precedes(keys, out[k], x));
        }
    }
}

/// Merges two stable orders of neighbouring stretches of positions into a
/// stable order of both.
fn merge(
    keys: &Vec<u128>,
    a: &Vec<usize>,
    b: &Vec<usize>,
    Ghost(lo): Ghost<int>,
    Ghost(mid): Ghost<int>,
    Ghost(hi): Ghost<int>,
) -> (out: Vec<usize>)
    requires
        0 <= lo <= mid <= hi <= keys.len(),
        covers(a@, lo, mid),
        covers(b@, mid, hi),
        ordered(keys@, a@),
        ordered(keys@, b@),
    ensures
        covers(out@, lo, hi),
        ordered(keys@, out@),
{
    let mut out: Vec<usize> = Vec::new();
    let mut i: usize = 0;
    let mut j: usize = 0;
    while i < a.len() || j < b.len()
        invariant
            0 <= lo <= mid <= hi <= keys.len(),
            covers(a@, lo, mid),
            covers(b@, mid, hi),
            ordered(keys@, a@),
            ordered(keys@, b@),
            i <= a.len(),
            j <= b.len(),
            out.len() == i + j,
            ordered(keys@, out@),
            forall|k: int| 0 <= k < out.len() ==> lo <= #[trigger] out@[k] < hi,
            i < a.len() ==> forall|k: int|
                0 <= k < out.len() ==> precedes(keys@, #[trigger] out@[k], a@[i as int]),
            j < b.len() ==> forall|k: int|
                0 <= k < out.len() ==> precedes(keys@, #[trigger] out@[k], b@[j as int]),
            forall|k: int| 0 <= k < i ==> visits(out@, #[trigger] a@[k] as int),
            forall|k: int| 0 <= k < j ==> visits(out@, #[trigger] b@[k] as int),
        decreases a.len() - i + b.len() - j,
    {
        let ghost before = out@;
        let from_a = if j >= b.len() {
            true
        } else if i >= a.len() {
            false
        } else {
            keys[a[i]] <= keys[b[j]]
        };
        if from_a {
            let x = a[i];
            proof {
                if j < b.len() {
                    assert(a@[i as int] < mid <= b@[j as int]);
                    lemma_before_next(keys@, before, x, b@[j as int]);
                }
                if i + 1 < a.len() {
                    assert(precedes(keys@, a@[i as int], a@[i + 1]));
                    lemma_before_next(keys@, before, x, a@[i + 1]);
                }
            }
            out.push(x);
            i += 1;
        } else {
            let x = b[j];
            proof {
                if i < a.len() {
                    lemma_before_next(keys@, before, x, a@[i as int]);
                }
                if j + 1 < b.len() {
                    assert(precedes(keys@, b@[j as int], b@[j + 1]));
                    lemma_before_next(keys@, before, x, b@[j + 1]);
                }
            }
            out.push(x);
            j += 1;
        }
        proof {
            let x = out@[out.len() - 1];
            assert(out@ == before.push(x));
            assert forall|p: int, q: int| 0 <= p < q < out.len() implies precedes(
                keys@,
                #[trigger] out@[p],
                #[trigger] out@[q],
            ) by {
                if q < before.len() {
                    assert(out@[p] == before[p] && out@[q] == before[q]);
                } else {
                    assert(out@[p] == before[p]);
                }
            }
            assert forall|k: int| 0 <= k < i implies visits(out@, #[trigger] a@[k] as int) by {
                lemma_visits_push(before, x, a@[k] as int);
            }
            assert forall|k: int| 0 <= k < j implies visits(out@, #[trigger] b@[k] as int) by {
                lemma_visits_push(before, x, b@[k] as int);
            }
        }
    }
    proof {
        assert forall|e: int| lo <= e < hi implies #[trigger] visits(out@, e) by {
            if e < mid {
                assert(visits(a@, e));
                let k = choose|k: int| 0 <= k < a.len() && #[trigger] a@[k] == e;
                assert(visits(out@, a@[k] as int));
            } else {
                assert(visits(b@, e));
                let k = choose|k: int| 0 <= k < b.len() && #[trigger] b@[k] == e;
                assert(visits(out@, b@[k] as int));
            }
        }
    }
    out
}

/// Puts the positions from `lo` up to `hi` into their stable order.
fn sort_range(keys: &Vec<u128>, lo: usize, hi: usize) -> (out: Vec<usize>)
    requires
        lo <= hi <= keys.len(),
    ensures
        covers(out@, lo as int, hi as int),
        ordered(keys@, out@),
    decreases hi - lo,
{
    let mut out: Vec<usize> = Vec::new();
    if hi - lo == 0 {
        return out;
    }
    if hi - lo == 1 {
        out.push(lo);
        proof {
            assert(out@[0] == lo);
            assert forall|e: int| lo <= e < hi implies #[trigger] visits(out@, e) by {
                assert(out@[0] == e);
            }
        }
        return out;
    }
    let mid = lo + (hi - lo) / 2;
    let a = sort_range(keys, lo, mid);
    let b = sort_range(keys, mid, hi);
    merge(keys, &a, &b, Ghost(lo as int), Ghost(mid as int), Ghost(hi as int))
}

/// Computes the stable order of `keys`.
pub fn stable_order_of(keys: &Vec<u128>) -> (order: Vec<usize>)
    ensures
        order@ == stable_order(keys@),
{
    let order = sort_range(keys, 0, keys.len());
    proof {
        lemma_order_unique(keys@, order@);
    }
    order
}

/// Copies `items` out in the given order.
pub fn arrange<T: Copy>(items: &Vec<T>, order: &Vec<usize>) -> (out: Vec<T>)
    requires
        forall|i: int| 0 <= i < order.len() ==> (#[trigger] order@[i]) < items.len(),
    ensures
        out@ == pick(items@, order@),
{
    let mut out: Vec<T> = Vec::new();
    let mut i: usize = 0;
    while i < order.len()
        invariant
            i <= order.len(),
            forall|j: int| 0 <= j < order.len() ==> (#[trigger] order@[j]) < items.len(),
            out@ == pick(items@, order@.take(i as int)),
        decreases order.len() - i,
    {
        out.push(items[order[i]]);
        proof {
            assert(out@ =~= pick(items@, order@.take(i + 1)));
        }
        i += 1;
    }
    proof {
        assert(order@.take(i as int) == order@);
    }
    out
}

/// Sorts `items` stably by the key that stands at the same position.
pub fn sort_by_keys<T: Copy>(items: &Vec<T>, keys: &Vec<u128>) -> (out: Vec<T>)
    requires
        keys.len() == items.len(),
    ensures
        out@ == sorted_by(items@, keys@),
        out.len() == items.len(),
{
    let order = stable_order_of(keys);
    proof {
        lemma_stable_order(keys@);
    }
    arrange(items, &order)
}

} // verus!
