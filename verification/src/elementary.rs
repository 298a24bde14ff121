//! The quadratic in-place sorts: bubble, insertion and selection sort.

use vstd::prelude::*;
use crate::sort::{Event, faithful, keys_cover, key_at, sorted_by, swapped, emit_compare, swap_emit,
    lemma_swapped_multiset, removes_inversion, swaps_remove_inversions, lemma_swaps_push, replay};

verus! {

/// One bubble step at position `j` of `s`: compare `j` with `j + 1` and swap
/// them when out of order. Returns the events and the arrangement after them.
pub open spec fn bubble_step(keys: Seq<u64>, s: Seq<usize>, j: int) -> (Seq<Event>, Seq<usize>) {
    let compare = Event::Cmp { a: j as usize, b: (j + 1) as usize };
    if key_at(keys, s, j) > key_at(keys, s, j + 1) {
        (seq![compare, Event::Swap { a: j as usize, b: (j + 1) as usize }], swapped(s, j, j + 1))
    } else {
        (seq![compare], s)
    }
}

/// The first `j` steps of a bubble pass over `s`.
pub open spec fn bubble_steps(keys: Seq<u64>, s: Seq<usize>, j: nat) -> (Seq<Event>, Seq<usize>)
    decreases j,
{
    if j == 0 {
        (Seq::empty(), s)
    } else {
        let (e, t) = bubble_steps(keys, s, (j - 1) as nat);
        let (e2, t2) = bubble_step(keys, t, j - 1);
        (e + e2, t2)
    }
}

/// Bubble passes over the unsorted prefix `0..end`, shrinking it by one per
/// pass until one cell is left.
pub open spec fn bubble_passes(keys: Seq<u64>, s: Seq<usize>, end: nat) -> (Seq<Event>, Seq<usize>)
    decreases end,
{
    if end <= 1 {
        (Seq::empty(), s)
    } else {
        let (e, t) = bubble_steps(keys, s, (end - 1) as nat);
        let (e2, t2) = bubble_passes(keys, t, (end - 1) as nat);
        (e + e2, t2)
    }
}

/// The events bubble sort records for arrangement `s`.
pub open spec fn bubble_trace(keys: Seq<u64>, s: Seq<usize>) -> Seq<Event> {
    bubble_passes(keys, s, s.len()).0
}

/// The comparisons among `events`, in order.
pub open spec fn compares(events: Seq<Event>) -> Seq<Event>
    decreases events.len(),
{
    if events.len() == 0 {
        Seq::empty()
    } else if events.last() is Cmp {
        compares(events.drop_last()).push(events.last())
    } else {
        compares(events.drop_last())
    }
}

/// One bubble pass over `0..j + 1`: compare `(0, 1)`, `(1, 2)`, ..., `(j - 1, j)`.
pub open spec fn pass_compares(j: nat) -> Seq<Event> {
    Seq::new(j, |t: int| Event::Cmp { a: t as usize, b: (t + 1) as usize })
}

/// The comparisons of bubble sort over `n` cells: passes over `0..n`,
/// `0..n - 1`, ..., `0..2`.
pub open spec fn bubble_schedule(n: nat) -> Seq<Event>
    decreases n,
{
    if n <= 1 {
        Seq::empty()
    } else {
        pass_compares((n - 1) as nat) + bubble_schedule((n - 1) as nat)
    }
}

proof fn lemma_compares_add(a: Seq<Event>, b: Seq<Event>)
    ensures
        compares(a + b) == compares(a) + compares(b),
    decreases b.len(),
{
    if b.len() == 0 {
        assert(a + b =~= a);
        assert(compares(a) + compares(b) =~= compares(a));
    } else {
        let init = b.drop_last();
        lemma_compares_add(a, init);
        assert((a + b).drop_last() =~= a + init);
        assert((a + b).last() == b.last());
        if b.last() is Cmp {
            assert(compares(a) + compares(init).push(b.last()) =~= (compares(a) + compares(init)).push(b.last()));
        }
    }
}

proof fn lemma_steps_compares(keys: Seq<u64>, s: Seq<usize>, j: nat)
    ensures
        compares(bubble_steps(keys, s, j).0) == pass_compares(j),
    decreases j,
{
    if j == 0 {
        assert(pass_compares(0) =~= Seq::<Event>::empty());
    } else {
        lemma_steps_compares(keys, s, (j - 1) as nat);
        let (e, t) = bubble_steps(keys, s, (j - 1) as nat);
        let e2 = bubble_step(keys, t, j - 1).0;
        lemma_compares_add(e, e2);
        let c = Event::Cmp { a: (j - 1) as usize, b: j as usize };
        let sw = Event::Swap { a: (j - 1) as usize, b: j as usize };
        assert(seq![c].drop_last() =~= Seq::<Event>::empty());
        assert(seq![c].last() == c);
        assert(compares(Seq::<Event>::empty()) == Seq::<Event>::empty());
        assert(Seq::<Event>::empty().push(c) =~= seq![c]);
        assert(compares(seq![c]) =~= seq![c]);
        assert(seq![c, sw].drop_last() =~= seq![c]);
        assert(seq![c, sw].last() == sw);
        assert(compares(seq![c, sw]) =~= seq![c]);
        assert(compares(e2) =~= seq![c]);
        assert(pass_compares(j) =~= pass_compares((j - 1) as nat) + seq![c]);
    }
}

proof fn lemma_passes_compares(keys: Seq<u64>, s: Seq<usize>, end: nat)
    ensures
        compares(bubble_passes(keys, s, end).0) == bubble_schedule(end),
    decreases end,
{
    if end > 1 {
        let (e, t) = bubble_steps(keys, s, (end - 1) as nat);
        lemma_steps_compares(keys, s, (end - 1) as nat);
        lemma_passes_compares(keys, t, (end - 1) as nat);
        lemma_compares_add(e, bubble_passes(keys, t, (end - 1) as nat).0);
    }
}

proof fn lemma_schedule_len(n: nat)
    ensures
        bubble_schedule(n).len() == n * (n - 1) / 2,
    decreases n,
{
    if n > 1 {
        lemma_schedule_len((n - 1) as nat);
        assert((n - 1) + (n - 1) * (n - 2) / 2 == n * (n - 1) / 2) by (nonlinear_arith)
            requires
                n >= 2,
        ;
    } else {
        assert(n * (n - 1) == 0) by (nonlinear_arith)
            requires
                n <= 1,
        ;
    }
}

/// Bubble sort makes every pass in full, whatever the cells and keys: over
/// `n` cells it compares `(0, 1)`, ..., `(n - 2, n - 1)`, then `(0, 1)`, ...,
/// `(n - 3, n - 2)`, and so on, `n (n - 1) / 2` comparisons in all.
pub proof fn lemma_bubble_compares(keys: Seq<u64>, s: Seq<usize>)
    ensures
        compares(bubble_trace(keys, s)) == bubble_schedule(s.len()),
        compares(bubble_trace(keys, s)).len() == s.len() * (s.len() - 1) / 2,
        s.len() >= 2 ==> compares(bubble_trace(keys, s)).subrange(0, s.len() - 1) == pass_compares((s.len() - 1) as nat),
{
    lemma_passes_compares(keys, s, s.len());
    lemma_schedule_len(s.len());
    if s.len() >= 2 {
        let p = pass_compares((s.len() - 1) as nat);
        assert(bubble_schedule(s.len()).subrange(0, s.len() - 1) =~= p);
    }
}

/// Two runs of bubble sort over the same number of cells make the same
/// comparisons, in the same order, whatever the arrangements and keys.
pub proof fn lemma_bubble_compares_fixed(keys1: Seq<u64>, s1: Seq<usize>, keys2: Seq<u64>, s2: Seq<usize>)
    requires
        s1.len() == s2.len(),
    ensures
        compares(bubble_trace(keys1, s1)) == compares(bubble_trace(keys2, s2)),
{
    lemma_bubble_compares(keys1, s1);
    lemma_bubble_compares(keys2, s2);
}

/// Repeatedly bubble the largest remaining cell to the end of the unsorted
/// prefix.
pub fn bubble(arr: &mut Vec<usize>, keys: &[u64], events: &mut Vec<Event>, Ghost(base): Ghost<Seq<usize>>)
    requires
        faithful(base, old(events)@, old(arr)@),
        keys_cover(keys@, old(arr)@),
    ensures
        faithful(base, final(events)@, final(arr)@),
        final(arr)@.to_multiset() == old(arr)@.to_multiset(),
        keys_cover(keys@, final(arr)@),
        sorted_by(keys@, final(arr)@, 0, final(arr)@.len() as int),
        final(events)@.len() >= old(events)@.len(),
        forall|i: int| 0 <= i < old(events)@.len() ==> final(events)@[i] == old(events)@[i],
        forall|i: int| old(events)@.len() <= i < final(events)@.len() ==> !(final(events)@[i] is Write),
        swaps_remove_inversions(keys@, base, final(events)@, old(events)@.len() as int, true),
        old(arr).len() <= 1 ==> final(events)@ == old(events)@,
        final(events)@ == old(events)@ + bubble_trace(keys@, old(arr)@),
{
    let n = arr.len();
    let mut end = n;
    while end > 1
        invariant
            arr.len() == n,
            end <= n,
            faithful(base, events@, arr@),
            arr@.to_multiset() == old(arr)@.to_multiset(),
            keys_cover(keys@, arr@),
            sorted_by(keys@, arr@, end as int, n as int),
            forall|a: int, b: int| 0 <= a < end <= b < n ==> #[trigger] key_at(keys@, arr@, a) <= #[trigger] key_at(keys@, arr@, b),
            events@.len() >= old(events)@.len(),
            forall|i: int| 0 <= i < old(events)@.len() ==> events@[i] == old(events)@[i],
            forall|i: int| old(events)@.len() <= i < events@.len() ==> !(events@[i] is Write),
            swaps_remove_inversions(keys@, base, events@, old(events)@.len() as int, true),
            n <= 1 ==> events@ == old(events)@,
            events@ + bubble_passes(keys@, arr@, end as nat).0 == old(events)@ + bubble_trace(keys@, old(arr)@),
        decreases end,
    {
        let i = end - 1;
        let mut j: usize = 0;
        let ghost s0 = arr@;
        let ghost e0 = events@;
        assert(events@ =~= e0 + bubble_steps(keys@, s0, 0).0);
        while j < i
            invariant
                arr.len() == n,
                end <= n,
                i == end - 1,
                j <= i,
                faithful(base, events@, arr@),
                arr@.to_multiset() == old(arr)@.to_multiset(),
                keys_cover(keys@, arr@),
                sorted_by(keys@, arr@, end as int, n as int),
                forall|a: int, b: int| 0 <= a < end <= b < n ==> #[trigger] key_at(keys@, arr@, a) <= #[trigger] key_at(keys@, arr@, b),
                forall|t: int| 0 <= t <= j ==> #[trigger] key_at(keys@, arr@, t) <= key_at(keys@, arr@, j as int),
                events@.len() >= old(events)@.len(),
                forall|i: int| 0 <= i < old(events)@.len() ==> events@[i] == old(events)@[i],
                forall|i: int| old(events)@.len() <= i < events@.len() ==> !(events@[i] is Write),
                swaps_remove_inversions(keys@, base, events@, old(events)@.len() as int, true),
                events@ == e0 + bubble_steps(keys@, s0, j as nat).0,
                arr@ == bubble_steps(keys@, s0, j as nat).1,
            decreases i - j,
        {
            let ghost ej = events@;
            proof {
                lemma_swaps_push(keys@, base, events@, old(events)@.len() as int, true, Event::Cmp { a: j, b: (j + 1) as usize });
            }
            emit_compare(events, j, j + 1, Ghost(base), Ghost(arr@));
            if keys[arr[j]] > keys[arr[j + 1]] {
                let ghost prev = arr@;
                proof {
                    lemma_swapped_multiset(arr@, j as int, (j + 1) as int);
                }
                proof {
                    lemma_swaps_push(keys@, base, events@, old(events)@.len() as int, true, Event::Swap { a: j, b: (j + 1) as usize });
                }
                swap_emit(arr, j, j + 1, events, Ghost(base));
                assert forall|a: int, b: int| end <= a <= b < n implies #[trigger] key_at(keys@, arr@, a) <= #[trigger] key_at(keys@, arr@, b) by {
                    assert(key_at(keys@, prev, a) <= key_at(keys@, prev, b));
                }
                assert forall|a: int, b: int| 0 <= a < end <= b < n implies #[trigger] key_at(keys@, arr@, a) <= #[trigger] key_at(keys@, arr@, b) by {
                    if a == j {
                        assert(key_at(keys@, prev, j + 1) <= key_at(keys@, prev, b));
                    } else if a == j + 1 {
                        assert(key_at(keys@, prev, j as int) <= key_at(keys@, prev, b));
                    } else {
                        assert(key_at(keys@, prev, a) <= key_at(keys@, prev, b));
                    }
                }
                assert forall|t: int| 0 <= t <= j + 1 implies #[trigger] key_at(keys@, arr@, t) <= key_at(keys@, arr@, j + 1) by {
                    if t < j {
                        assert(key_at(keys@, prev, t) <= key_at(keys@, prev, j as int));
                    }
                }
            } else {
                assert forall|t: int| 0 <= t <= j + 1 implies #[trigger] key_at(keys@, arr@, t) <= key_at(keys@, arr@, j + 1) by {
                    if t <= j {
                        assert(key_at(keys@, arr@, t) <= key_at(keys@, arr@, j as int));
                    }
                }
            }
            assert(events@ =~= e0 + bubble_steps(keys@, s0, (j + 1) as nat).0);
            j += 1;
        }
        assert(e0 + bubble_passes(keys@, s0, end as nat).0 =~= events@ + bubble_passes(keys@, arr@, (end - 1) as nat).0);
        assert forall|a: int, b: int| 0 <= a < end - 1 <= b < n implies #[trigger] key_at(keys@, arr@, a) <= #[trigger] key_at(keys@, arr@, b) by {
            if b == end - 1 {
                assert(key_at(keys@, arr@, a) <= key_at(keys@, arr@, i as int));
            }
        }
        assert forall|a: int, b: int| end - 1 <= a <= b < n implies #[trigger] key_at(keys@, arr@, a) <= #[trigger] key_at(keys@, arr@, b) by {
            if a == end - 1 && b > a {
                assert(key_at(keys@, arr@, a) <= key_at(keys@, arr@, b));
            }
        }
        end -= 1;
    }
    assert forall|a: int, b: int| 0 <= a <= b < n implies #[trigger] key_at(keys@, arr@, a) <= #[trigger] key_at(keys@, arr@, b) by {
        if a < end && b < end {
            assert(a == b);
        }
    }
}

/// Sink the cell at `j` of `s` towards the front: compare it with its left
/// neighbour and swap while that neighbour's key is larger.
pub open spec fn insertion_sink(keys: Seq<u64>, s: Seq<usize>, j: nat) -> (Seq<Event>, Seq<usize>)
    decreases j,
{
    if j == 0 {
        (Seq::empty(), s)
    } else {
        let compare = Event::Cmp { a: (j - 1) as usize, b: j as usize };
        if key_at(keys, s, j - 1) > key_at(keys, s, j as int) {
            let (e, t) = insertion_sink(keys, swapped(s, j - 1, j as int), (j - 1) as nat);
            (seq![compare, Event::Swap { a: (j - 1) as usize, b: j as usize }] + e, t)
        } else {
            (seq![compare], s)
        }
    }
}

/// Sink the cells at `i`, `i + 1`, ..., `n - 1` in turn.
pub open spec fn insertion_from(keys: Seq<u64>, s: Seq<usize>, i: nat, n: nat) -> (Seq<Event>, Seq<usize>)
    decreases n - i,
{
    if i >= n {
        (Seq::empty(), s)
    } else {
        let (e, t) = insertion_sink(keys, s, i);
        let (e2, t2) = insertion_from(keys, t, i + 1, n);
        (e + e2, t2)
    }
}

/// The events insertion sort records for arrangement `s`.
pub open spec fn insertion_trace(keys: Seq<u64>, s: Seq<usize>) -> Seq<Event> {
    insertion_from(keys, s, 1, s.len()).0
}

/// Grow a sorted prefix by sinking each new cell into place with adjacent
/// swaps.
pub fn insertion(arr: &mut Vec<usize>, keys: &[u64], events: &mut Vec<Event>, Ghost(base): Ghost<Seq<usize>>)
    requires
        faithful(base, old(events)@, old(arr)@),
        keys_cover(keys@, old(arr)@),
    ensures
        faithful(base, final(events)@, final(arr)@),
        final(arr)@.to_multiset() == old(arr)@.to_multiset(),
        keys_cover(keys@, final(arr)@),
        sorted_by(keys@, final(arr)@, 0, final(arr)@.len() as int),
        final(events)@.len() >= old(events)@.len(),
        forall|i: int| 0 <= i < old(events)@.len() ==> final(events)@[i] == old(events)@[i],
        forall|i: int| old(events)@.len() <= i < final(events)@.len() ==> !(final(events)@[i] is Write),
        swaps_remove_inversions(keys@, base, final(events)@, old(events)@.len() as int, true),
        old(arr).len() <= 1 ==> final(events)@ == old(events)@,
        final(events)@ == old(events)@ + insertion_trace(keys@, old(arr)@),
{
    let n = arr.len();
    let mut i: usize = 1;
    while i < n
        invariant
            arr.len() == n,
            1 <= i,
            i <= n || n == 0,
            faithful(base, events@, arr@),
            arr@.to_multiset() == old(arr)@.to_multiset(),
            keys_cover(keys@, arr@),
            sorted_by(keys@, arr@, 0, if i <= n { i as int } else { n as int }),
            events@.len() >= old(events)@.len(),
            forall|k: int| 0 <= k < old(events)@.len() ==> events@[k] == old(events)@[k],
            forall|k: int| old(events)@.len() <= k < events@.len() ==> !(events@[k] is Write),
            swaps_remove_inversions(keys@, base, events@, old(events)@.len() as int, true),
            n <= 1 ==> events@ == old(events)@,
            events@ + insertion_from(keys@, arr@, i as nat, n as nat).0 == old(events)@ + insertion_trace(keys@, old(arr)@),
        decreases n - i,
    {
        let mut j = i;
        let ghost s0 = arr@;
        let ghost e0 = events@;
        while j > 0
            invariant_except_break
                events@ + insertion_sink(keys@, arr@, j as nat).0 == e0 + insertion_sink(keys@, s0, i as nat).0,
                insertion_sink(keys@, arr@, j as nat).1 == insertion_sink(keys@, s0, i as nat).1,
            invariant
                arr.len() == n,
                1 <= i < n,
                j <= i,
                faithful(base, events@, arr@),
                arr@.to_multiset() == old(arr)@.to_multiset(),
                keys_cover(keys@, arr@),
                sorted_by(keys@, arr@, 0, j as int),
                sorted_by(keys@, arr@, j as int, i + 1),
                forall|a: int, b: int| 0 <= a < j < b <= i ==> #[trigger] key_at(keys@, arr@, a) <= #[trigger] key_at(keys@, arr@, b),
                events@.len() >= old(events)@.len(),
                forall|k: int| 0 <= k < old(events)@.len() ==> events@[k] == old(events)@[k],
                forall|k: int| old(events)@.len() <= k < events@.len() ==> !(events@[k] is Write),
                swaps_remove_inversions(keys@, base, events@, old(events)@.len() as int, true),
            ensures
                events@ == e0 + insertion_sink(keys@, s0, i as nat).0,
                arr@ == insertion_sink(keys@, s0, i as nat).1,
                arr.len() == n,
                faithful(base, events@, arr@),
                arr@.to_multiset() == old(arr)@.to_multiset(),
                keys_cover(keys@, arr@),
                sorted_by(keys@, arr@, 0, i + 1),
                events@.len() >= old(events)@.len(),
                forall|k: int| 0 <= k < old(events)@.len() ==> events@[k] == old(events)@[k],
                forall|k: int| old(events)@.len() <= k < events@.len() ==> !(events@[k] is Write),
                swaps_remove_inversions(keys@, base, events@, old(events)@.len() as int, true),
            decreases j,
        {
            proof {
                lemma_swaps_push(keys@, base, events@, old(events)@.len() as int, true, Event::Cmp { a: (j - 1) as usize, b: j });
            }
            let ghost ej = events@;
            emit_compare(events, j - 1, j, Ghost(base), Ghost(arr@));
            if keys[arr[j - 1]] > keys[arr[j]] {
                let ghost prev = arr@;
                proof {
                    lemma_swapped_multiset(arr@, (j - 1) as int, j as int);
                }
                proof {
                    lemma_swaps_push(keys@, base, events@, old(events)@.len() as int, true, Event::Swap { a: (j - 1) as usize, b: j });
                }
                swap_emit(arr, j - 1, j, events, Ghost(base));
                assert forall|a: int, b: int| 0 <= a <= b < j - 1 implies #[trigger] key_at(keys@, arr@, a) <= #[trigger] key_at(keys@, arr@, b) by {
                    assert(key_at(keys@, prev, a) <= key_at(keys@, prev, b));
                }
                assert forall|a: int, b: int| j - 1 <= a <= b < i + 1 implies #[trigger] key_at(keys@, arr@, a) <= #[trigger] key_at(keys@, arr@, b) by {
                    if a == j - 1 {
                        if b == j - 1 {
                        } else if b == j {
                        } else {
                            assert(key_at(keys@, prev, j as int) <= key_at(keys@, prev, b));
                        }
                    } else if a == j {
                        if b > j {
                            assert(key_at(keys@, prev, j - 1) <= key_at(keys@, prev, b));
                        }
                    } else {
                        assert(key_at(keys@, prev, a) <= key_at(keys@, prev, b));
                    }
                }
                assert forall|a: int, b: int| 0 <= a < j - 1 < b <= i implies #[trigger] key_at(keys@, arr@, a) <= #[trigger] key_at(keys@, arr@, b) by {
                    if b == j {
                        assert(key_at(keys@, prev, a) <= key_at(keys@, prev, j - 1));
                    } else {
                        assert(key_at(keys@, prev, a) <= key_at(keys@, prev, b));
                    }
                }
                assert(ej + insertion_sink(keys@, prev, j as nat).0 =~= events@ + insertion_sink(keys@, arr@, (j - 1) as nat).0);
                j -= 1;
            } else {
                assert(events@ =~= ej + insertion_sink(keys@, arr@, j as nat).0);
                assert forall|a: int, b: int| 0 <= a <= b < i + 1 implies #[trigger] key_at(keys@, arr@, a) <= #[trigger] key_at(keys@, arr@, b) by {
                    if a < j && b >= j {
                        if b == j {
                            assert(key_at(keys@, arr@, a) <= key_at(keys@, arr@, j - 1));
                        }
                    }
                }
                break;
            }
        }
        assert(e0 + insertion_from(keys@, s0, i as nat, n as nat).0 =~= events@ + insertion_from(keys@, arr@, (i + 1) as nat, n as nat).0);
        i += 1;
    }
}

/// Scan positions `j..n` of `s` for a smaller key than the current minimum
/// at `min`, comparing each with it. Returns the comparisons and the
/// position of the minimum found.
pub open spec fn selection_scan(keys: Seq<u64>, s: Seq<usize>, min: int, j: int, n: int) -> (Seq<Event>, int)
    decreases n - j,
{
    if j >= n {
        (Seq::empty(), min)
    } else {
        let next_min = if key_at(keys, s, j) < key_at(keys, s, min) { j } else { min };
        let (e, m) = selection_scan(keys, s, next_min, j + 1, n);
        (seq![Event::Cmp { a: min as usize, b: j as usize }] + e, m)
    }
}

/// Select the minimum of `i..n` and swap it to `i`, for `i` up to `last`.
pub open spec fn selection_from(keys: Seq<u64>, s: Seq<usize>, i: nat, last: nat) -> (Seq<Event>, Seq<usize>)
    decreases last - i,
{
    if i >= last {
        (Seq::empty(), s)
    } else {
        let (e, m) = selection_scan(keys, s, i as int, (i + 1) as int, s.len() as int);
        let (e2, t) = if m != i {
            (seq![Event::Swap { a: i as usize, b: m as usize }], swapped(s, i as int, m))
        } else {
            (Seq::empty(), s)
        };
        let (e3, t3) = selection_from(keys, t, i + 1, last);
        (e + e2 + e3, t3)
    }
}

/// The events selection sort records for arrangement `s`.
pub open spec fn selection_trace(keys: Seq<u64>, s: Seq<usize>) -> Seq<Event> {
    selection_from(keys, s, 0, if s.len() > 0 { (s.len() - 1) as nat } else { 0 }).0
}

/// Repeatedly select the smallest remaining cell and swap it to the front of
/// the unsorted suffix.
pub fn selection(arr: &mut Vec<usize>, keys: &[u64], events: &mut Vec<Event>, Ghost(base): Ghost<Seq<usize>>)
    requires
        faithful(base, old(events)@, old(arr)@),
        keys_cover(keys@, old(arr)@),
    ensures
        faithful(base, final(events)@, final(arr)@),
        final(arr)@.to_multiset() == old(arr)@.to_multiset(),
        keys_cover(keys@, final(arr)@),
        sorted_by(keys@, final(arr)@, 0, final(arr)@.len() as int),
        final(events)@.len() >= old(events)@.len(),
        forall|i: int| 0 <= i < old(events)@.len() ==> final(events)@[i] == old(events)@[i],
        forall|i: int| old(events)@.len() <= i < final(events)@.len() ==> !(final(events)@[i] is Write),
        swaps_remove_inversions(keys@, base, final(events)@, old(events)@.len() as int, false),
        old(arr).len() <= 1 ==> final(events)@ == old(events)@,
        final(events)@ == old(events)@ + selection_trace(keys@, old(arr)@),
{
    let n = arr.len();
    let last = if n > 0 { n - 1 } else { 0 };
    let mut i: usize = 0;
    while i < last
        invariant
            arr.len() == n,
            last == if n > 0 { n - 1 } else { 0 },
            i <= last,
            faithful(base, events@, arr@),
            arr@.to_multiset() == old(arr)@.to_multiset(),
            keys_cover(keys@, arr@),
            sorted_by(keys@, arr@, 0, i as int),
            forall|a: int, b: int| 0 <= a < i <= b < n ==> #[trigger] key_at(keys@, arr@, a) <= #[trigger] key_at(keys@, arr@, b),
            events@.len() >= old(events)@.len(),
            forall|k: int| 0 <= k < old(events)@.len() ==> events@[k] == old(events)@[k],
            forall|k: int| old(events)@.len() <= k < events@.len() ==> !(events@[k] is Write),
            swaps_remove_inversions(keys@, base, events@, old(events)@.len() as int, false),
            n <= 1 ==> events@ == old(events)@,
            events@ + selection_from(keys@, arr@, i as nat, last as nat).0 == old(events)@ + selection_trace(keys@, old(arr)@),
        decreases last - i,
    {
        let mut min = i;
        let mut j = i + 1;
        let ghost e0 = events@;
        let ghost s0 = arr@;
        while j < n
            invariant
                arr.len() == n,
                i < last,
                last == n - 1,
                i <= min < j <= n,
                min != i ==> key_at(keys@, arr@, min as int) < key_at(keys@, arr@, i as int),
                faithful(base, events@, arr@),
                forall|t: int| i <= t < j ==> key_at(keys@, arr@, min as int) <= #[trigger] key_at(keys@, arr@, t),
                keys_cover(keys@, arr@),
                events@.len() >= old(events)@.len(),
                forall|k: int| 0 <= k < old(events)@.len() ==> events@[k] == old(events)@[k],
                forall|k: int| old(events)@.len() <= k < events@.len() ==> !(events@[k] is Write),
                swaps_remove_inversions(keys@, base, events@, old(events)@.len() as int, false),
                arr@ == s0,
                n == s0.len(),
                events@ + selection_scan(keys@, s0, min as int, j as int, n as int).0
                    == e0 + selection_scan(keys@, s0, i as int, i + 1, n as int).0,
                selection_scan(keys@, s0, min as int, j as int, n as int).1
                    == selection_scan(keys@, s0, i as int, i + 1, n as int).1,
            decreases n - j,
        {
            let ghost ej = events@;
            let ghost mj = min as int;
            proof {
                lemma_swaps_push(keys@, base, events@, old(events)@.len() as int, false, Event::Cmp { a: min, b: j });
            }
            emit_compare(events, min, j, Ghost(base), Ghost(arr@));
            if keys[arr[j]] < keys[arr[min]] {
                min = j;
            }
            assert(ej + selection_scan(keys@, s0, mj, j as int, n as int).0
                =~= events@ + selection_scan(keys@, s0, min as int, j + 1, n as int).0);
            j += 1;
        }
        let ghost prev = arr@;
        let ghost e1 = events@;
        assert(forall|t: int| i <= t < n ==> key_at(keys@, prev, min as int) <= #[trigger] key_at(keys@, prev, t));
        if min != i {
            proof {
                lemma_swapped_multiset(arr@, i as int, min as int);
            }
            proof {
                lemma_swaps_push(keys@, base, events@, old(events)@.len() as int, false, Event::Swap { a: i, b: min });
            }
            swap_emit(arr, i, min, events, Ghost(base));
        }
        assert forall|a: int, b: int| 0 <= a <= b < i + 1 implies #[trigger] key_at(keys@, arr@, a) <= #[trigger] key_at(keys@, arr@, b) by {
            if b == i {
                if a < i {
                    assert(key_at(keys@, prev, a) <= key_at(keys@, prev, min as int));
                }
            } else {
                assert(key_at(keys@, prev, a) <= key_at(keys@, prev, b));
            }
        }
        assert forall|a: int, b: int| 0 <= a < i + 1 <= b < n implies #[trigger] key_at(keys@, arr@, a) <= #[trigger] key_at(keys@, arr@, b) by {
            if a == i {
                if b == min {
                    assert(key_at(keys@, prev, min as int) <= key_at(keys@, prev, i as int));
                } else {
                    assert(key_at(keys@, prev, min as int) <= key_at(keys@, prev, b));
                }
            } else {
                if b == min {
                    assert(key_at(keys@, prev, a) <= key_at(keys@, prev, i as int));
                } else {
                    assert(key_at(keys@, prev, a) <= key_at(keys@, prev, b));
                }
            }
        }
        assert(e1 == e0 + selection_scan(keys@, s0, i as int, i + 1, n as int).0);
        assert(selection_scan(keys@, s0, i as int, i + 1, n as int).1 == min);
        assert(e0 + selection_from(keys@, s0, i as nat, last as nat).0
            =~= events@ + selection_from(keys@, arr@, (i + 1) as nat, last as nat).0);
        i += 1;
    }
    assert forall|a: int, b: int| 0 <= a <= b < n implies #[trigger] key_at(keys@, arr@, a) <= #[trigger] key_at(keys@, arr@, b) by {
        if b >= i && a < i {
        } else if a >= i {
            assert(a == b);
        }
    }
}

} // verus!
