//! Quicksort with the Lomuto partition scheme.

use vstd::prelude::*;
use crate::sort::{Event, faithful, keys_cover, key_at, sorted_by, swapped, emit_compare, swap_emit,
    lemma_swapped_range_multiset, lemma_multiset_contains, lemma_range_multiset_compose};

verus! {

/// The Lomuto scan over positions `j..hi` of `s` with pivot key `pk`:
/// each cell is compared with the pivot at `hi` and, when smaller, swapped
/// to the boundary `i`, which then advances. Returns the events, the
/// arrangement and the final boundary.
pub open spec fn partition_scan(keys: Seq<u64>, s: Seq<usize>, pk: u64, i: int, j: int, hi: int) -> (Seq<Event>, Seq<usize>, int)
    decreases hi - j,
{
    if j >= hi {
        (Seq::empty(), s, i)
    } else {
        let compare = Event::Cmp { a: j as usize, b: hi as usize };
        if key_at(keys, s, j) < pk {
            let (e, t, b) = partition_scan(keys, swapped(s, i, j), pk, i + 1, j + 1, hi);
            (seq![compare, Event::Swap { a: i as usize, b: j as usize }] + e, t, b)
        } else {
            let (e, t, b) = partition_scan(keys, s, pk, i, j + 1, hi);
            (seq![compare] + e, t, b)
        }
    }
}

/// Quicksort of positions `lo..=hi` of `s`: partition around the cell at
/// `hi`, move the pivot to the boundary, then sort the part before and the
/// part after it. Returns the events and the arrangement after them.
pub open spec fn quick_model(keys: Seq<u64>, s: Seq<usize>, lo: int, hi: int) -> (Seq<Event>, Seq<usize>)
    decreases hi - lo,
{
    if !(0 <= lo <= hi < s.len()) {
        (Seq::empty(), s)
    } else {
        let (e1, t1, b) = partition_scan(keys, s, key_at(keys, s, hi), lo, lo, hi);
        // The boundary always lies in `lo..=hi`.
        let i = if b < lo { lo } else if b > hi { hi } else { b };
        let (e2, t2) = if i != hi {
            (seq![Event::Swap { a: i as usize, b: hi as usize }], swapped(t1, i, hi))
        } else {
            (Seq::empty(), t1)
        };
        let (e3, t3) = if i > lo { quick_model(keys, t2, lo, i - 1) } else { (Seq::empty(), t2) };
        let (e4, t4) = if i + 1 < hi { quick_model(keys, t3, i + 1, hi) } else { (Seq::empty(), t3) };
        (e1 + e2 + e3 + e4, t4)
    }
}

/// One level of `quick_model`, given the results of its parts.
proof fn lemma_quick_compose(
    keys: Seq<u64>, a0: Seq<usize>, lo: int, hi: int, i: int,
    e0: Seq<Event>, e1: Seq<Event>, ev1: Seq<Event>, ev2: Seq<Event>, ev3: Seq<Event>,
    t1: Seq<usize>, a1: Seq<usize>, a2: Seq<usize>, a3: Seq<usize>,
)
    requires
        0 <= lo <= i <= hi < a0.len(),
        e1 == e0 + partition_scan(keys, a0, key_at(keys, a0, hi), lo, lo, hi).0,
        t1 == partition_scan(keys, a0, key_at(keys, a0, hi), lo, lo, hi).1,
        i == partition_scan(keys, a0, key_at(keys, a0, hi), lo, lo, hi).2,
        ev1 == e1 + (if i != hi { seq![Event::Swap { a: i as usize, b: hi as usize }] } else { Seq::<Event>::empty() }),
        a1 == (if i != hi { swapped(t1, i, hi) } else { t1 }),
        ev2 == ev1 + (if i > lo { quick_model(keys, a1, lo, i - 1).0 } else { Seq::<Event>::empty() }),
        a2 == (if i > lo { quick_model(keys, a1, lo, i - 1).1 } else { a1 }),
        ev3 == ev2 + (if i + 1 < hi { quick_model(keys, a2, i + 1, hi).0 } else { Seq::<Event>::empty() }),
        a3 == (if i + 1 < hi { quick_model(keys, a2, i + 1, hi).1 } else { a2 }),
    ensures
        ev3 == e0 + quick_model(keys, a0, lo, hi).0,
        a3 == quick_model(keys, a0, lo, hi).1,
{
    assert(ev3 =~= e0 + quick_model(keys, a0, lo, hi).0);
}

/// Sort positions `lo..=hi`, partitioning around the last cell of the range.
#[verifier::rlimit(40)]
pub fn quick(arr: &mut Vec<usize>, lo: usize, hi: usize, keys: &[u64], events: &mut Vec<Event>, Ghost(base): Ghost<Seq<usize>>)
    requires
        lo <= hi < old(arr).len(),
        faithful(base, old(events)@, old(arr)@),
        keys_cover(keys@, old(arr)@),
    ensures
        final(arr).len() == old(arr).len(),
        faithful(base, final(events)@, final(arr)@),
        forall|k: int| 0 <= k < final(arr).len() && !(lo <= k <= hi) ==> final(arr)@[k] == old(arr)@[k],
        final(arr)@.subrange(lo as int, hi + 1).to_multiset() == old(arr)@.subrange(lo as int, hi + 1).to_multiset(),
        keys_cover(keys@, final(arr)@),
        sorted_by(keys@, final(arr)@, lo as int, hi + 1),
        final(events)@.len() >= old(events)@.len(),
        forall|i: int| 0 <= i < old(events)@.len() ==> final(events)@[i] == old(events)@[i],
        forall|i: int| old(events)@.len() <= i < final(events)@.len() ==> !(final(events)@[i] is Write),
        final(events)@ == old(events)@ + quick_model(keys@, old(arr)@, lo as int, hi as int).0,
        final(arr)@ == quick_model(keys@, old(arr)@, lo as int, hi as int).1,
    decreases hi - lo,
{
    let ghost a0 = arr@;
    let n = arr.len();
    let pivot = arr[hi];
    let pk = keys[pivot];
    let mut i = lo;
    let mut j = lo;
    let ghost e0 = events@;
    while j < hi
        invariant
            events@ + partition_scan(keys@, arr@, pk, i as int, j as int, hi as int).0
                == e0 + partition_scan(keys@, a0, pk, lo as int, lo as int, hi as int).0,
            partition_scan(keys@, arr@, pk, i as int, j as int, hi as int).1
                == partition_scan(keys@, a0, pk, lo as int, lo as int, hi as int).1,
            partition_scan(keys@, arr@, pk, i as int, j as int, hi as int).2
                == partition_scan(keys@, a0, pk, lo as int, lo as int, hi as int).2,
            arr.len() == n,
            lo <= i <= j <= hi < n,
            arr@[hi as int] == pivot,
            pk == keys@[pivot as int],
            faithful(base, events@, arr@),
            keys_cover(keys@, arr@),
            forall|k: int| 0 <= k < n && !(lo <= k <= hi) ==> arr@[k] == a0[k],
            arr@.subrange(lo as int, hi + 1).to_multiset() == a0.subrange(lo as int, hi + 1).to_multiset(),
            forall|t: int| lo <= t < i ==> #[trigger] key_at(keys@, arr@, t) < pk,
            forall|t: int| i <= t < j ==> #[trigger] key_at(keys@, arr@, t) >= pk,
            events@.len() >= old(events)@.len(),
            forall|k: int| 0 <= k < old(events)@.len() ==> events@[k] == old(events)@[k],
            forall|k: int| old(events)@.len() <= k < events@.len() ==> !(events@[k] is Write),
        decreases hi - j,
    {
        let ghost ej = events@;
        let ghost sj = arr@;
        let ghost ij = i as int;
        emit_compare(events, j, hi, Ghost(base), Ghost(arr@));
        if keys[arr[j]] < pk {
            let ghost prev = arr@;
            proof {
                lemma_swapped_range_multiset(arr@, i as int, j as int, lo as int, hi + 1);
            }
            swap_emit(arr, i, j, events, Ghost(base));
            assert forall|t: int| lo <= t < i + 1 implies #[trigger] key_at(keys@, arr@, t) < pk by {
                if t < i {
                    assert(key_at(keys@, prev, t) < pk);
                }
            }
            assert forall|t: int| i + 1 <= t < j + 1 implies #[trigger] key_at(keys@, arr@, t) >= pk by {
                if t < j {
                    assert(key_at(keys@, prev, t) >= pk);
                } else {
                    assert(key_at(keys@, prev, i as int) >= pk);
                }
            }
            i += 1;
        }
        assert(ej + partition_scan(keys@, sj, pk, ij, j as int, hi as int).0
            =~= events@ + partition_scan(keys@, arr@, pk, i as int, j + 1, hi as int).0);
        j += 1;
    }
    let ghost e1 = events@;
    let ghost t1 = arr@;
    assert(e1 == e0 + partition_scan(keys@, a0, pk, lo as int, lo as int, hi as int).0);
    if i != hi {
        let ghost prev = arr@;
        proof {
            lemma_swapped_range_multiset(arr@, i as int, hi as int, lo as int, hi + 1);
        }
        swap_emit(arr, i, hi, events, Ghost(base));
        assert(key_at(keys@, prev, i as int) >= pk);
        assert forall|t: int| lo <= t < i implies #[trigger] key_at(keys@, arr@, t) < pk by {
            assert(key_at(keys@, prev, t) < pk);
        }
        assert forall|t: int| i < t <= hi implies #[trigger] key_at(keys@, arr@, t) >= pk by {
            if t < hi {
                assert(key_at(keys@, prev, t) >= pk);
            }
        }
    }
    assert(arr@[i as int] == pivot);
    assert(key_at(keys@, arr@, i as int) == pk);

    let ghost a1 = arr@;
    let ghost ev1 = events@;
    if i > lo {
        quick(arr, lo, i - 1, keys, events, Ghost(base));
        proof {
            lemma_range_multiset_compose(arr@, a1, lo as int, lo as int, i as int, hi + 1);
            lemma_multiset_contains(arr@.subrange(lo as int, i as int), a1.subrange(lo as int, i as int));
        }
        assert forall|t: int| lo <= t < i implies #[trigger] key_at(keys@, arr@, t) < pk by {
            let x = arr@.subrange(lo as int, i as int)[t - lo];
            assert(a1.subrange(lo as int, i as int).contains(x));
            let sub = a1.subrange(lo as int, i as int);
            let m = choose|m: int| 0 <= m < sub.len() && #[trigger] sub[m] == x;
            assert(key_at(keys@, a1, lo + m) < pk);
        }
    }
    let ghost a2 = arr@;
    let ghost ev2 = events@;
    assert(sorted_by(keys@, a2, lo as int, i as int));
    assert forall|t: int| i < t <= hi implies #[trigger] key_at(keys@, a2, t) >= pk by {
        assert(key_at(keys@, a1, t) >= pk);
    }
    if i + 1 < hi {
        quick(arr, i + 1, hi, keys, events, Ghost(base));
        proof {
            lemma_range_multiset_compose(arr@, a2, lo as int, i + 1, hi + 1, hi + 1);
            lemma_multiset_contains(arr@.subrange(i + 1, hi + 1), a2.subrange(i + 1, hi + 1));
        }
        assert forall|t: int| i < t <= hi implies #[trigger] key_at(keys@, arr@, t) >= pk by {
            let x = arr@.subrange(i + 1, hi + 1)[t - i - 1];
            assert(a2.subrange(i + 1, hi + 1).contains(x));
            let sub = a2.subrange(i + 1, hi + 1);
            let m = choose|m: int| 0 <= m < sub.len() && #[trigger] sub[m] == x;
            assert(key_at(keys@, a2, i + 1 + m) >= pk);
        }
    }
    assert(key_at(keys@, arr@, i as int) == pk);
    assert forall|a: int, b: int| lo <= a <= b < hi + 1 implies #[trigger] key_at(keys@, arr@, a) <= #[trigger] key_at(keys@, arr@, b) by {
        if a < i && b < i {
            assert(key_at(keys@, a2, a) <= key_at(keys@, a2, b));
        } else if a > i && b > i {
            if i + 1 < hi {
                assert(key_at(keys@, arr@, a) <= key_at(keys@, arr@, b));
            }
        }
    }
    proof {
        lemma_range_multiset_compose(arr@, a0, lo as int, lo as int, hi + 1, hi + 1);
        assert(pk == key_at(keys@, a0, hi as int));
        assert(ev1 =~= e1 + (if i != hi { seq![Event::Swap { a: i, b: hi }] } else { Seq::<Event>::empty() }));
        assert(ev2 =~= ev1 + (if i > lo { quick_model(keys@, a1, lo as int, i - 1).0 } else { Seq::<Event>::empty() }));
        assert(events@ =~= ev2 + (if i + 1 < hi { quick_model(keys@, a2, i + 1, hi as int).0 } else { Seq::<Event>::empty() }));
        lemma_quick_compose(keys@, a0, lo as int, hi as int, i as int, e0, e1, ev1, ev2, events@, t1, a1, a2, arr@);
    }
}

} // verus!
