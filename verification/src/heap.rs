//! Heapsort: build a max-heap, then repeatedly move its root behind the heap.

use vstd::prelude::*;
use crate::sort::{Event, faithful, keys_cover, key_at, sorted_by, swapped, emit_compare, swap_emit,
    lemma_swapped_multiset, lemma_swapped_range_multiset, lemma_multiset_contains,
    lemma_range_multiset_compose};

verus! {

/// Index of the parent of heap node `c`.
#[verifier::opaque]
pub open spec fn parent(c: int) -> int {
    (c - 1) / 2
}

/// Every node whose parent lies at `start` or later (and inside `0..size`)
/// has a key no greater than its parent's.
pub open spec fn heap_from(keys: Seq<u64>, s: Seq<usize>, start: int, size: int) -> bool {
    forall|c: int|
        1 <= c < size && start <= #[trigger] parent(c) ==> key_at(keys, s, parent(c)) >= key_at(keys, s, c)
}

/// Position `c` lies in the subtree rooted at `r`.
pub open spec fn descends(c: int, r: int) -> bool
    decreases c,
{
    if c <= r {
        c == r
    } else if c < 1 {
        false
    } else {
        proof {
            lemma_parent(c);
        }
        descends(parent(c), r)
    }
}

/// Heap order inside the subtree rooted at `root` (positions below `size`),
/// except possibly between `hole` and its children.
pub open spec fn subtree_heap_except(keys: Seq<u64>, s: Seq<usize>, root: int, hole: int, size: int) -> bool {
    forall|c: int|
        1 <= c < size && descends(#[trigger] parent(c), root) && parent(c) != hole
            ==> key_at(keys, s, parent(c)) >= key_at(keys, s, c)
}

/// Heap order inside the subtree rooted at `root` (positions below `size`).
pub open spec fn subtree_heap(keys: Seq<u64>, s: Seq<usize>, root: int, size: int) -> bool {
    forall|c: int|
        1 <= c < size && descends(#[trigger] parent(c), root)
            ==> key_at(keys, s, parent(c)) >= key_at(keys, s, c)
}

/// While sifting the subtree of `root`: heap order everywhere in it except
/// between `cur` and its children, which may be larger than `cur` but no
/// larger than `cur`'s own parent.
pub open spec fn heap_hole(keys: Seq<u64>, s: Seq<usize>, root: int, cur: int, size: int) -> bool {
    &&& subtree_heap_except(keys, s, root, cur, size)
    &&& cur != root ==> (forall|c: int|
        1 <= c < size && #[trigger] parent(c) == cur ==> key_at(keys, s, parent(cur)) >= key_at(keys, s, c))
}

/// Every key before `mid` is at most every key from `mid` on.
pub open spec fn split_ordered(keys: Seq<u64>, s: Seq<usize>, mid: int, n: int) -> bool {
    forall|a: int, b: int| 0 <= a < mid <= b < n ==> #[trigger] key_at(keys, s, a) <= #[trigger] key_at(keys, s, b)
}

pub proof fn lemma_parent(c: int)
    requires
        c >= 1,
    ensures
        0 <= parent(c) < c,
        c == 2 * parent(c) + 1 || c == 2 * parent(c) + 2,
{
    reveal(parent);
}

pub proof fn lemma_children(p: int)
    requires
        p >= 0,
    ensures
        parent(2 * p + 1) == p,
        parent(2 * p + 2) == p,
{
    reveal(parent);
}

/// Every position lies in the subtree of position 0.
pub proof fn lemma_descends_zero(c: int)
    requires
        c >= 0,
    ensures
        descends(c, 0),
    decreases c,
{
    if c > 0 {
        lemma_parent(c);
        lemma_descends_zero(parent(c));
    }
}

/// In a heap, the root holds a largest key.
pub proof fn lemma_heap_root_max(keys: Seq<u64>, s: Seq<usize>, size: int, i: int)
    requires
        heap_from(keys, s, 0, size),
        0 <= i < size,
    ensures
        key_at(keys, s, i) <= key_at(keys, s, 0),
    decreases i,
{
    if i > 0 {
        lemma_parent(i);
        lemma_heap_root_max(keys, s, size, parent(i));
    }
}

/// Once `cur` is at least as large as its children, the hole is closed.
proof fn lemma_sift_done(keys: Seq<u64>, s: Seq<usize>, root: int, cur: int, size: int)
    requires
        0 <= root <= cur < size,
        heap_hole(keys, s, root, cur, size),
        2 * cur + 1 < size ==> key_at(keys, s, cur) >= key_at(keys, s, 2 * cur + 1),
        2 * cur + 2 < size ==> key_at(keys, s, cur) >= key_at(keys, s, 2 * cur + 2),
    ensures
        subtree_heap(keys, s, root, size),
{
    assert forall|c: int| 1 <= c < size && descends(#[trigger] parent(c), root) implies
        key_at(keys, s, parent(c)) >= key_at(keys, s, c) by {
        if parent(c) == cur {
            lemma_parent(c);
        }
    }
}

/// Swapping `cur` with its larger child moves the hole down to that child.
proof fn lemma_sift_swap(keys: Seq<u64>, s: Seq<usize>, root: int, cur: int, largest: int, size: int)
    requires
        0 <= root <= cur,
        largest == 2 * cur + 1 || largest == 2 * cur + 2,
        largest < size <= s.len(),
        descends(cur, root),
        heap_hole(keys, s, root, cur, size),
        key_at(keys, s, largest) >= key_at(keys, s, cur),
        2 * cur + 1 < size ==> key_at(keys, s, largest) >= key_at(keys, s, 2 * cur + 1),
        2 * cur + 2 < size ==> key_at(keys, s, largest) >= key_at(keys, s, 2 * cur + 2),
    ensures
        heap_hole(keys, swapped(s, cur, largest), root, largest, size),
        parent(largest) == cur,
        descends(largest, root),
{
    let t = swapped(s, cur, largest);
    lemma_children(cur);
    lemma_parent(largest);
    assert(descends(largest, root));
    assert forall|c: int| 1 <= c < size && descends(#[trigger] parent(c), root) && parent(c) != largest implies
        key_at(keys, t, parent(c)) >= key_at(keys, t, c) by {
        let p = parent(c);
        lemma_parent(c);
        if p == cur {
        } else if c == cur {
            assert(cur != root);
            assert(key_at(keys, s, parent(cur)) >= key_at(keys, s, largest));
        } else {
            assert(key_at(keys, s, p) >= key_at(keys, s, c));
        }
    }
    assert forall|c: int| 1 <= c < size && #[trigger] parent(c) == largest implies
        key_at(keys, t, parent(largest)) >= key_at(keys, t, c) by {
        lemma_parent(c);
        assert(key_at(keys, s, largest) >= key_at(keys, s, c));
    }
}

/// Moving the root of the heap `0..end+1` to position `end` extends the
/// sorted suffix by one and leaves a heap below the root of `0..end`.
proof fn lemma_extract(keys: Seq<u64>, s: Seq<usize>, end: int, n: int)
    requires
        0 < end < n <= s.len(),
        heap_from(keys, s, 0, end + 1),
        sorted_by(keys, s, end + 1, n),
        split_ordered(keys, s, end + 1, n),
    ensures
        heap_from(keys, swapped(s, 0, end), 1, end),
        sorted_by(keys, swapped(s, 0, end), end, n),
        split_ordered(keys, swapped(s, 0, end), end, n),
{
    let t = swapped(s, 0, end);
    assert forall|i: int| 0 <= i < end + 1 implies #[trigger] key_at(keys, s, i) <= key_at(keys, s, 0) by {
        lemma_heap_root_max(keys, s, end + 1, i);
    }
    assert forall|c: int| 1 <= c < end && 1 <= #[trigger] parent(c) implies
        key_at(keys, t, parent(c)) >= key_at(keys, t, c) by {
        lemma_parent(c);
        assert(key_at(keys, s, parent(c)) >= key_at(keys, s, c));
    }
    assert forall|a: int, b: int| end <= a <= b < n implies #[trigger] key_at(keys, t, a) <= #[trigger] key_at(keys, t, b) by {
        if a == end {
            if b > end {
                assert(key_at(keys, s, 0) <= key_at(keys, s, b));
            }
        } else {
            assert(key_at(keys, s, a) <= key_at(keys, s, b));
        }
    }
    assert forall|a: int, b: int| 0 <= a < end <= b < n implies #[trigger] key_at(keys, t, a) <= #[trigger] key_at(keys, t, b) by {
        if b == end {
            if a == 0 {
                assert(key_at(keys, s, end) <= key_at(keys, s, 0));
            } else {
                assert(key_at(keys, s, a) <= key_at(keys, s, 0));
            }
        } else {
            if a == 0 {
                assert(key_at(keys, s, end) <= key_at(keys, s, b));
            } else {
                assert(key_at(keys, s, a) <= key_at(keys, s, b));
            }
        }
    }
}

/// Rearranging the prefix `0..end` keeps it below the suffix.
proof fn lemma_prefix_rearranged(keys: Seq<u64>, s1: Seq<usize>, s2: Seq<usize>, end: int, n: int)
    requires
        0 <= end <= n <= s1.len(),
        s1.len() == s2.len(),
        forall|k: int| end <= k < n ==> s1[k] == s2[k],
        s2.subrange(0, end).to_multiset() == s1.subrange(0, end).to_multiset(),
        sorted_by(keys, s1, end, n),
        split_ordered(keys, s1, end, n),
    ensures
        sorted_by(keys, s2, end, n),
        split_ordered(keys, s2, end, n),
{
    lemma_multiset_contains(s2.subrange(0, end), s1.subrange(0, end));
    assert forall|a: int, b: int| end <= a <= b < n implies #[trigger] key_at(keys, s2, a) <= #[trigger] key_at(keys, s2, b) by {
        assert(key_at(keys, s1, a) <= key_at(keys, s1, b));
    }
    assert forall|a: int, b: int| 0 <= a < end <= b < n implies #[trigger] key_at(keys, s2, a) <= #[trigger] key_at(keys, s2, b) by {
        let sub = s1.subrange(0, end);
        let x = s2.subrange(0, end)[a];
        assert(sub.contains(x));
        let m = choose|m: int| 0 <= m < sub.len() && #[trigger] sub[m] == x;
        assert(key_at(keys, s1, m) <= key_at(keys, s1, b));
    }
}

/// Sifting the cell at `cur` down inside `0..size` of `s`: compare the left
/// child with `cur`, then the right child (if any) with the larger so far,
/// and swap `cur` with the largest child until `cur` is the largest.
pub open spec fn sift_model(keys: Seq<u64>, s: Seq<usize>, cur: int, size: int) -> (Seq<Event>, Seq<usize>)
    decreases size - cur,
{
    if cur < 0 || 2 * cur + 1 >= size {
        (Seq::empty(), s)
    } else {
        let left = 2 * cur + 1;
        let right = left + 1;
        let first = if key_at(keys, s, left) > key_at(keys, s, cur) { left } else { cur };
        let e1 = seq![Event::Cmp { a: left as usize, b: cur as usize }];
        let e2 = if right < size { seq![Event::Cmp { a: right as usize, b: first as usize }] } else { Seq::empty() };
        let largest = if right < size && key_at(keys, s, right) > key_at(keys, s, first) { right } else { first };
        if largest == cur {
            (e1 + e2, s)
        } else {
            let (e, t) = sift_model(keys, swapped(s, cur, largest), largest, size);
            (e1 + e2 + seq![Event::Swap { a: cur as usize, b: largest as usize }] + e, t)
        }
    }
}

/// Heap construction: sift down the nodes `start - 1`, ..., `0` of `0..n`.
pub open spec fn heap_build(keys: Seq<u64>, s: Seq<usize>, start: nat, n: int) -> (Seq<Event>, Seq<usize>)
    decreases start,
{
    if start == 0 {
        (Seq::empty(), s)
    } else {
        let (e, t) = sift_model(keys, s, start - 1, n);
        let (e2, t2) = heap_build(keys, t, (start - 1) as nat, n);
        (e + e2, t2)
    }
}

/// Extraction: swap the root behind the heap `0..end` and sift the new root
/// down, until one cell is left.
pub open spec fn heap_extract(keys: Seq<u64>, s: Seq<usize>, end: nat) -> (Seq<Event>, Seq<usize>)
    decreases end,
{
    if end <= 1 {
        (Seq::empty(), s)
    } else {
        let last = end - 1;
        let (e, t) = sift_model(keys, swapped(s, 0, last), 0, last);
        let (e2, t2) = heap_extract(keys, t, last as nat);
        (seq![Event::Swap { a: 0, b: last as usize }] + e + e2, t2)
    }
}

/// The events heapsort records for arrangement `s`.
pub open spec fn heap_trace(keys: Seq<u64>, s: Seq<usize>) -> Seq<Event> {
    let (e, t) = heap_build(keys, s, s.len() / 2, s.len() as int);
    e + heap_extract(keys, t, s.len()).0
}

/// Move the cell at `root` down until neither child of it has a larger key.
pub fn sift_down(arr: &mut Vec<usize>, root: usize, size: usize, keys: &[u64], events: &mut Vec<Event>, Ghost(base): Ghost<Seq<usize>>)
    requires
        root < size <= old(arr).len(),
        subtree_heap_except(keys@, old(arr)@, root as int, root as int, size as int),
        faithful(base, old(events)@, old(arr)@),
        keys_cover(keys@, old(arr)@),
    ensures
        final(arr).len() == old(arr).len(),
        subtree_heap(keys@, final(arr)@, root as int, size as int),
        faithful(base, final(events)@, final(arr)@),
        forall|k: int| 0 <= k < final(arr).len() && !(root <= k < size) ==> final(arr)@[k] == old(arr)@[k],
        forall|k: int| 0 <= k < final(arr).len() && !descends(k, root as int) ==> final(arr)@[k] == old(arr)@[k],
        forall|i: int| old(events)@.len() <= i < final(events)@.len() && (#[trigger] final(events)@[i] is Swap)
            ==> descends(final(events)@[i]->Swap_a as int, root as int)
                && parent(final(events)@[i]->Swap_b as int) == final(events)@[i]->Swap_a,
        final(arr)@.subrange(root as int, size as int).to_multiset() == old(arr)@.subrange(root as int, size as int).to_multiset(),
        keys_cover(keys@, final(arr)@),
        final(events)@.len() >= old(events)@.len(),
        forall|i: int| 0 <= i < old(events)@.len() ==> final(events)@[i] == old(events)@[i],
        forall|i: int| old(events)@.len() <= i < final(events)@.len() ==> !(final(events)@[i] is Write),
        final(events)@ == old(events)@ + sift_model(keys@, old(arr)@, root as int, size as int).0,
        final(arr)@ == sift_model(keys@, old(arr)@, root as int, size as int).1,
{
    let ghost a0 = arr@;
    let ghost e0 = events@;
    let n = arr.len();
    let mut cur = root;
    assert(heap_hole(keys@, arr@, root as int, cur as int, size as int));
    assert(events@.subrange(0, 0) =~= Seq::<Event>::empty());
    loop
        invariant_except_break
            events@ + sift_model(keys@, arr@, cur as int, size as int).0 == e0 + sift_model(keys@, a0, root as int, size as int).0,
            sift_model(keys@, arr@, cur as int, size as int).1 == sift_model(keys@, a0, root as int, size as int).1,
            arr.len() == n,
            root <= cur < size <= n,
            descends(cur as int, root as int),
            heap_hole(keys@, arr@, root as int, cur as int, size as int),
            faithful(base, events@, arr@),
            forall|k: int| 0 <= k < n && !(root <= k < size) ==> arr@[k] == a0[k],
            forall|k: int| 0 <= k < n && !descends(k, root as int) ==> arr@[k] == a0[k],
            forall|i: int| old(events)@.len() <= i < events@.len() && (#[trigger] events@[i] is Swap)
                ==> descends(events@[i]->Swap_a as int, root as int)
                    && parent(events@[i]->Swap_b as int) == events@[i]->Swap_a,
            arr@.subrange(root as int, size as int).to_multiset() == a0.subrange(root as int, size as int).to_multiset(),
            keys_cover(keys@, arr@),
            events@.len() >= old(events)@.len(),
            forall|k: int| 0 <= k < old(events)@.len() ==> events@[k] == old(events)@[k],
            forall|k: int| old(events)@.len() <= k < events@.len() ==> !(events@[k] is Write),
        ensures
            arr.len() == n,
            subtree_heap(keys@, arr@, root as int, size as int),
            faithful(base, events@, arr@),
            forall|k: int| 0 <= k < n && !(root <= k < size) ==> arr@[k] == a0[k],
            forall|k: int| 0 <= k < n && !descends(k, root as int) ==> arr@[k] == a0[k],
            forall|i: int| old(events)@.len() <= i < events@.len() && (#[trigger] events@[i] is Swap)
                ==> descends(events@[i]->Swap_a as int, root as int)
                    && parent(events@[i]->Swap_b as int) == events@[i]->Swap_a,
            arr@.subrange(root as int, size as int).to_multiset() == a0.subrange(root as int, size as int).to_multiset(),
            keys_cover(keys@, arr@),
            events@.len() >= old(events)@.len(),
            forall|k: int| 0 <= k < old(events)@.len() ==> events@[k] == old(events)@[k],
            forall|k: int| old(events)@.len() <= k < events@.len() ==> !(events@[k] is Write),
            events@ == e0 + sift_model(keys@, a0, root as int, size as int).0,
            arr@ == sift_model(keys@, a0, root as int, size as int).1,
        decreases size - cur,
    {
        let ghost ec = events@;
        let ghost sc = arr@;
        if cur >= size / 2 {
            // `cur` has no child inside the heap.
            proof {
                lemma_sift_done(keys@, arr@, root as int, cur as int, size as int);
                assert(events@ =~= ec + sift_model(keys@, sc, cur as int, size as int).0);
            }
            break;
        }
        let left = cur * 2 + 1;
        let right = left + 1;
        let mut largest = cur;
        emit_compare(events, left, cur, Ghost(base), Ghost(arr@));
        if keys[arr[left]] > keys[arr[largest]] {
            largest = left;
        }
        if right < size {
            emit_compare(events, right, largest, Ghost(base), Ghost(arr@));
            if keys[arr[right]] > keys[arr[largest]] {
                largest = right;
            }
        }
        if largest == cur {
            proof {
                lemma_sift_done(keys@, arr@, root as int, cur as int, size as int);
                assert(events@ =~= ec + sift_model(keys@, sc, cur as int, size as int).0);
            }
            break;
        }
        proof {
            lemma_sift_swap(keys@, arr@, root as int, cur as int, largest as int, size as int);
            lemma_swapped_range_multiset(arr@, cur as int, largest as int, root as int, size as int);
        }
        swap_emit(arr, cur, largest, events, Ghost(base));
        assert(ec + sift_model(keys@, sc, cur as int, size as int).0
            =~= events@ + sift_model(keys@, arr@, largest as int, size as int).0);
        cur = largest;
    }
}

/// Sort the whole array with heapsort.
pub fn heap(arr: &mut Vec<usize>, keys: &[u64], events: &mut Vec<Event>, Ghost(base): Ghost<Seq<usize>>)
    requires
        faithful(base, old(events)@, old(arr)@),
        keys_cover(keys@, old(arr)@),
    ensures
        faithful(base, final(events)@, final(arr)@),
        final(arr)@.to_multiset() == old(arr)@.to_multiset(),
        keys_cover(keys@, final(arr)@),
        sorted_by(keys@, final(arr)@, 0, final(arr)@.len() as int),
        final(events)@.len() >= old(events)@.len(),
        forall|i: int| 0 <= i < old(events)@.len() ==> final(events)@[i] == old(events)@[i],
        forall|i: int| old(events)@.len() <= i < final(events)@.len() ==> !(final(events)@[i] is Write),
        final(events)@ == old(events)@ + heap_trace(keys@, old(arr)@),
{
    let n = arr.len();
    let mut start = n / 2;
    let ghost built = heap_build(keys@, arr@, (n / 2) as nat, n as int);
    assert forall|c: int| 1 <= c < n && start <= #[trigger] parent(c) implies
        key_at(keys@, arr@, parent(c)) >= key_at(keys@, arr@, c) by {
        lemma_parent(c);
    }
    while start > 0
        invariant
            arr.len() == n,
            start <= n / 2,
            heap_from(keys@, arr@, start as int, n as int),
            faithful(base, events@, arr@),
            arr@.to_multiset() == old(arr)@.to_multiset(),
            keys_cover(keys@, arr@),
            events@.len() >= old(events)@.len(),
            forall|k: int| 0 <= k < old(events)@.len() ==> events@[k] == old(events)@[k],
            forall|k: int| old(events)@.len() <= k < events@.len() ==> !(events@[k] is Write),
            events@ + heap_build(keys@, arr@, start as nat, n as int).0 == old(events)@ + built.0,
            heap_build(keys@, arr@, start as nat, n as int).1 == built.1,
        decreases start,
    {
        let ghost es = events@;
        let ghost ss = arr@;
        start -= 1;
        let ghost prev = arr@;
        assert forall|c: int| 1 <= c < n && descends(#[trigger] parent(c), start as int) && parent(c) != start implies
            key_at(keys@, arr@, parent(c)) >= key_at(keys@, arr@, c) by {
            assert(parent(c) >= start + 1);
        }
        sift_down(arr, start, n, keys, events, Ghost(base));
        assert forall|c: int| 1 <= c < n && start <= #[trigger] parent(c) implies
            key_at(keys@, arr@, parent(c)) >= key_at(keys@, arr@, c) by {
            lemma_parent(c);
            if !descends(parent(c), start as int) {
                assert(!descends(c, start as int));
                assert(parent(c) != start);
                assert(key_at(keys@, prev, parent(c)) >= key_at(keys@, prev, c));
            }
        }
        assert(es + heap_build(keys@, ss, (start + 1) as nat, n as int).0
            =~= events@ + heap_build(keys@, arr@, start as nat, n as int).0);
        proof {
            lemma_range_multiset_compose(arr@, prev, 0, start as int, n as int, n as int);
            assert(arr@.subrange(0, n as int) =~= arr@);
            assert(prev.subrange(0, n as int) =~= prev);
        }
    }
    let mut end = n;
    assert(arr@ == built.1);
    assert(events@ == old(events)@ + built.0);
    while end > 1
        invariant
            events@ + heap_extract(keys@, arr@, end as nat).0 == old(events)@ + heap_trace(keys@, old(arr)@),
            arr.len() == n,
            end <= n,
            n > 0 ==> end >= 1,
            heap_from(keys@, arr@, 0, end as int),
            sorted_by(keys@, arr@, end as int, n as int),
            split_ordered(keys@, arr@, end as int, n as int),
            faithful(base, events@, arr@),
            arr@.to_multiset() == old(arr)@.to_multiset(),
            keys_cover(keys@, arr@),
            events@.len() >= old(events)@.len(),
            forall|k: int| 0 <= k < old(events)@.len() ==> events@[k] == old(events)@[k],
            forall|k: int| old(events)@.len() <= k < events@.len() ==> !(events@[k] is Write),
        decreases end,
    {
        let ghost ee = events@;
        let ghost se = arr@;
        end -= 1;
        proof {
            lemma_extract(keys@, arr@, end as int, n as int);
            lemma_swapped_multiset(arr@, 0, end as int);
        }
        swap_emit(arr, 0, end, events, Ghost(base));
        let ghost a1 = arr@;
        assert forall|c: int| 1 <= c < end && descends(#[trigger] parent(c), 0) && parent(c) != 0 implies
            key_at(keys@, a1, parent(c)) >= key_at(keys@, a1, c) by {
            lemma_parent(c);
        }
        sift_down(arr, 0, end, keys, events, Ghost(base));
        assert forall|c: int| 1 <= c < end && 0 <= #[trigger] parent(c) implies
            key_at(keys@, arr@, parent(c)) >= key_at(keys@, arr@, c) by {
            lemma_parent(c);
            lemma_descends_zero(parent(c));
        }
        proof {
            lemma_range_multiset_compose(arr@, a1, 0, 0, end as int, n as int);
            assert(arr@.subrange(0, n as int) =~= arr@);
            assert(a1.subrange(0, n as int) =~= a1);
            lemma_prefix_rearranged(keys@, a1, arr@, end as int, n as int);
        }
        assert(ee + heap_extract(keys@, se, (end + 1) as nat).0
            =~= events@ + heap_extract(keys@, arr@, end as nat).0);
    }
    assert forall|a: int, b: int| 0 <= a <= b < n implies #[trigger] key_at(keys@, arr@, a) <= #[trigger] key_at(keys@, arr@, b) by {
        if a < end && b < end {
            assert(a == b);
        } else if a < end {
            assert(key_at(keys@, arr@, a) <= key_at(keys@, arr@, b));
        }
    }
}

} // verus!
