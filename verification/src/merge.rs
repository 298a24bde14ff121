//! Top-down mergesort through an auxiliary buffer.

use vstd::prelude::*;
use crate::sort::{Event, faithful, keys_cover, key_at, sorted_by, emit_compare, emit_write,
    lemma_range_multiset_compose};

verus! {

/// Every entry of `s` occurs in `base`.
pub open spec fn values_from(base: Seq<usize>, s: Seq<usize>) -> bool {
    forall|k: int| 0 <= k < s.len() ==> base.contains(#[trigger] s[k])
}

/// Multiset step used while merging: appending the same value on both sides.
proof fn lemma_merge_step(aux: Seq<usize>, lo: int, k: int, v: usize, left: Seq<usize>, right: Seq<usize>)
    requires
        0 <= lo <= k < aux.len(),
        aux.subrange(lo, k).to_multiset() == left.to_multiset().add(right.to_multiset()),
    ensures
        aux.update(k, v).subrange(lo, k + 1).to_multiset() == left.push(v).to_multiset().add(right.to_multiset()),
        aux.update(k, v).subrange(lo, k + 1).to_multiset() == left.to_multiset().add(right.push(v).to_multiset()),
{
    broadcast use vstd::seq_lib::group_to_multiset_ensures;
    broadcast use vstd::multiset::group_multiset_axioms;

    assert(aux.update(k, v).subrange(lo, k + 1) =~= aux.subrange(lo, k).push(v));
    assert(aux.update(k, v).subrange(lo, k + 1).to_multiset() =~= left.push(v).to_multiset().add(right.to_multiset()));
    assert(aux.update(k, v).subrange(lo, k + 1).to_multiset() =~= left.to_multiset().add(right.push(v).to_multiset()));
}

/// Merging the sorted runs `i..mid` and `j..hi` of `m` into the buffer from
/// position `k` on: compare the heads while both runs last, taking the left
/// head only when its key is smaller, then take what is left of either run.
/// Returns the events and the merged values in order.
pub open spec fn merge_scan(keys: Seq<u64>, m: Seq<usize>, i: int, mid: int, j: int, hi: int, k: int) -> (Seq<Event>, Seq<usize>)
    decreases mid - i, hi - j,
{
    if i < mid && j < hi {
        let compare = Event::Cmp { a: i as usize, b: j as usize };
        if key_at(keys, m, i) < key_at(keys, m, j) {
            let (e, r) = merge_scan(keys, m, i + 1, mid, j, hi, k + 1);
            (seq![compare, Event::Write { idx: k as usize, value: m[i] }] + e, seq![m[i]] + r)
        } else {
            let (e, r) = merge_scan(keys, m, i, mid, j + 1, hi, k + 1);
            (seq![compare, Event::Write { idx: k as usize, value: m[j] }] + e, seq![m[j]] + r)
        }
    } else if i < mid {
        let (e, r) = merge_scan(keys, m, i + 1, mid, j, hi, k + 1);
        (seq![Event::Write { idx: k as usize, value: m[i] }] + e, seq![m[i]] + r)
    } else if j < hi {
        let (e, r) = merge_scan(keys, m, i, mid, j + 1, hi, k + 1);
        (seq![Event::Write { idx: k as usize, value: m[j] }] + e, seq![m[j]] + r)
    } else {
        (Seq::empty(), Seq::empty())
    }
}

/// Writing the merged `run` back to positions `lo..`.
pub open spec fn copy_events(run: Seq<usize>, lo: int) -> Seq<Event> {
    Seq::new(run.len(), |t: int| Event::Write { idx: (lo + t) as usize, value: run[t] })
}

/// `s` with positions `lo..hi` replaced by `run`.
pub open spec fn splice(s: Seq<usize>, lo: int, hi: int, run: Seq<usize>) -> Seq<usize> {
    Seq::new(s.len(), |t: int| if lo <= t < hi { run[t - lo] } else { s[t] })
}

/// Mergesort of positions `lo..hi` of `s`: sort both halves, merge them into
/// the buffer, and copy the merged run back. Returns the events and the
/// arrangement after them.
pub open spec fn merge_model(keys: Seq<u64>, s: Seq<usize>, lo: int, hi: int) -> (Seq<Event>, Seq<usize>)
    decreases hi - lo,
{
    if !(0 <= lo && hi <= s.len() && hi - lo >= 2) {
        (Seq::empty(), s)
    } else {
        let mid = lo + (hi - lo) / 2;
        let (e1, s1) = merge_model(keys, s, lo, mid);
        let (e2, s2) = merge_model(keys, s1, mid, hi);
        let (e3, run) = merge_scan(keys, s2, lo, mid, mid, hi, lo);
        (e1 + e2 + e3 + copy_events(run, lo), splice(s2, lo, hi, run))
    }
}

/// One level of `merge_model`, given the results of its parts.
proof fn lemma_merge_compose(
    keys: Seq<u64>, a0: Seq<usize>, lo: int, hi: int,
    e0: Seq<Event>, e1: Seq<Event>, e2: Seq<Event>, e3: Seq<Event>, e4: Seq<Event>,
    a1: Seq<usize>, m: Seq<usize>, fin: Seq<usize>,
)
    requires
        0 <= lo,
        hi <= a0.len(),
        hi - lo >= 2,
        e1 == e0 + merge_model(keys, a0, lo, lo + (hi - lo) / 2).0,
        a1 == merge_model(keys, a0, lo, lo + (hi - lo) / 2).1,
        a1.len() == a0.len(),
        e2 == e1 + merge_model(keys, a1, lo + (hi - lo) / 2, hi).0,
        m == merge_model(keys, a1, lo + (hi - lo) / 2, hi).1,
        e3 == e2 + merge_scan(keys, m, lo, lo + (hi - lo) / 2, lo + (hi - lo) / 2, hi, lo).0,
        e4 == e3 + copy_events(merge_scan(keys, m, lo, lo + (hi - lo) / 2, lo + (hi - lo) / 2, hi, lo).1, lo),
        fin == splice(m, lo, hi, merge_scan(keys, m, lo, lo + (hi - lo) / 2, lo + (hi - lo) / 2, hi, lo).1),
    ensures
        e4 == e0 + merge_model(keys, a0, lo, hi).0,
        fin == merge_model(keys, a0, lo, hi).1,
{
    assert(e4 =~= e0 + merge_model(keys, a0, lo, hi).0);
}

/// Merge the sorted runs `lo..mid` and `mid..hi` through `aux` and copy the
/// result back.
#[verifier::rlimit(40)]
fn merge_runs(arr: &mut Vec<usize>, aux: &mut Vec<usize>, lo: usize, mid: usize, hi: usize, keys: &[u64], events: &mut Vec<Event>, Ghost(base): Ghost<Seq<usize>>)
    requires
        lo < mid < hi <= old(arr).len(),
        hi <= old(aux).len(),
        sorted_by(keys@, old(arr)@, lo as int, mid as int),
        sorted_by(keys@, old(arr)@, mid as int, hi as int),
        faithful(base, old(events)@, old(arr)@),
        keys_cover(keys@, old(arr)@),
        values_from(base, old(arr)@),
    ensures
        final(arr).len() == old(arr).len(),
        final(aux).len() == old(aux).len(),
        faithful(base, final(events)@, final(arr)@),
        final(arr)@ == splice(old(arr)@, lo as int, hi as int,
            merge_scan(keys@, old(arr)@, lo as int, mid as int, mid as int, hi as int, lo as int).1),
        final(events)@ == old(events)@ + merge_scan(keys@, old(arr)@, lo as int, mid as int, mid as int, hi as int, lo as int).0
            + copy_events(merge_scan(keys@, old(arr)@, lo as int, mid as int, mid as int, hi as int, lo as int).1, lo as int),
        final(arr)@.subrange(lo as int, hi as int).to_multiset() == old(arr)@.subrange(lo as int, hi as int).to_multiset(),
        keys_cover(keys@, final(arr)@),
        values_from(base, final(arr)@),
        sorted_by(keys@, final(arr)@, lo as int, hi as int),
        forall|i: int| old(events)@.len() <= i < final(events)@.len() ==> !(final(events)@[i] is Swap),
{
    let n = arr.len();
    let naux = aux.len();
    let ghost m = arr@;
    let ghost e2 = events@;
    let ghost scan0 = merge_scan(keys@, m, lo as int, mid as int, mid as int, hi as int, lo as int);
    proof {
        assert(m.subrange(lo as int, hi as int) =~= m.subrange(lo as int, mid as int) + m.subrange(mid as int, hi as int));
    }
    // Two-way merge into the auxiliary buffer.
    let ghost mut vis = m;
    let mut i = lo;
    let mut j = mid;
    let mut k = lo;
    proof {
        assert(aux@.subrange(lo as int, lo as int) =~= Seq::<usize>::empty());
        assert(m.subrange(lo as int, lo as int) =~= Seq::<usize>::empty());
        assert(m.subrange(mid as int, mid as int) =~= Seq::<usize>::empty());
        broadcast use vstd::seq_lib::group_to_multiset_ensures;
        broadcast use vstd::multiset::group_multiset_axioms;
        assert(Seq::<usize>::empty().to_multiset().add(Seq::<usize>::empty().to_multiset()) =~= Seq::<usize>::empty().to_multiset());
    }
    while i < mid && j < hi
        invariant
            arr@ == m,
            arr.len() == n,
            aux.len() == naux,
            hi <= naux,
            lo <= i <= mid < hi <= n,
            mid <= j <= hi,
            k == i + j - mid,
            sorted_by(keys@, m, lo as int, mid as int),
            sorted_by(keys@, m, mid as int, hi as int),
            keys_cover(keys@, m),
            values_from(base, m),
            vis.len() == n,
            forall|t: int| lo <= t < k ==> #[trigger] vis[t] == aux@[t],
            forall|t: int| 0 <= t < n && !(lo <= t < k) ==> #[trigger] vis[t] == m[t],
            faithful(base, events@, vis),
            events@ + merge_scan(keys@, m, i as int, mid as int, j as int, hi as int, k as int).0 == e2 + scan0.0,
            aux@.subrange(lo as int, k as int) + merge_scan(keys@, m, i as int, mid as int, j as int, hi as int, k as int).1 == scan0.1,
            aux@.subrange(lo as int, k as int).to_multiset()
                == m.subrange(lo as int, i as int).to_multiset().add(m.subrange(mid as int, j as int).to_multiset()),
            sorted_by(keys@, aux@, lo as int, k as int),
            k > lo && i < mid ==> key_at(keys@, aux@, k - 1) <= key_at(keys@, m, i as int),
            k > lo && j < hi ==> key_at(keys@, aux@, k - 1) <= key_at(keys@, m, j as int),
            forall|t: int| lo <= t < k ==> base.contains(#[trigger] aux@[t]),
            events@.len() >= old(events)@.len(),
            forall|q: int| 0 <= q < old(events)@.len() ==> events@[q] == old(events)@[q],
            forall|q: int| old(events)@.len() <= q < events@.len() ==> !(events@[q] is Swap),
        decreases hi - k,
    {
        let ghost eb = events@;
        let ghost ib = i as int;
        let ghost jb = j as int;
        let ghost kb = k as int;
        emit_compare(events, i, j, Ghost(base), Ghost(vis));
        let ghost aux_prev = aux@;
        if keys[arr[i]] < keys[arr[j]] {
            let v = arr[i];
            proof {
                lemma_merge_step(aux@, lo as int, k as int, v, m.subrange(lo as int, i as int), m.subrange(mid as int, j as int));
                assert(m.subrange(lo as int, i as int).push(v) =~= m.subrange(lo as int, i + 1));
            }
            aux.set(k, v);
            emit_write(events, k, v, Ghost(base), Ghost(vis));
            proof {
                vis = vis.update(k as int, v);
            }
            assert forall|a: int, b: int| lo <= a <= b < k + 1 implies #[trigger] key_at(keys@, aux@, a) <= #[trigger] key_at(keys@, aux@, b) by {
                if b == k && a < k {
                    assert(key_at(keys@, aux_prev, a) <= key_at(keys@, aux_prev, k - 1));
                } else if b < k {
                    assert(key_at(keys@, aux_prev, a) <= key_at(keys@, aux_prev, b));
                }
            }
            assert(i + 1 < mid ==> key_at(keys@, m, i as int) <= key_at(keys@, m, i + 1));
            i += 1;
        } else {
            let v = arr[j];
            proof {
                lemma_merge_step(aux@, lo as int, k as int, v, m.subrange(lo as int, i as int), m.subrange(mid as int, j as int));
                assert(m.subrange(mid as int, j as int).push(v) =~= m.subrange(mid as int, j + 1));
            }
            aux.set(k, v);
            emit_write(events, k, v, Ghost(base), Ghost(vis));
            proof {
                vis = vis.update(k as int, v);
            }
            assert forall|a: int, b: int| lo <= a <= b < k + 1 implies #[trigger] key_at(keys@, aux@, a) <= #[trigger] key_at(keys@, aux@, b) by {
                if b == k && a < k {
                    assert(key_at(keys@, aux_prev, a) <= key_at(keys@, aux_prev, k - 1));
                } else if b < k {
                    assert(key_at(keys@, aux_prev, a) <= key_at(keys@, aux_prev, b));
                }
            }
            assert(j + 1 < hi ==> key_at(keys@, m, j as int) <= key_at(keys@, m, j + 1));
            j += 1;
        }
        k += 1;
        assert(eb + merge_scan(keys@, m, ib, mid as int, jb, hi as int, kb).0
            =~= events@ + merge_scan(keys@, m, i as int, mid as int, j as int, hi as int, k as int).0);
        assert(aux_prev.subrange(lo as int, kb) + merge_scan(keys@, m, ib, mid as int, jb, hi as int, kb).1
            =~= aux@.subrange(lo as int, k as int) + merge_scan(keys@, m, i as int, mid as int, j as int, hi as int, k as int).1);
    }
    while i < mid
        invariant
            arr@ == m,
            arr.len() == n,
            aux.len() == naux,
            hi <= naux,
            lo <= i <= mid < hi <= n,
            mid <= j <= hi,
            i < mid ==> j == hi,
            k == i + j - mid,
            sorted_by(keys@, m, lo as int, mid as int),
            keys_cover(keys@, m),
            values_from(base, m),
            vis.len() == n,
            forall|t: int| lo <= t < k ==> #[trigger] vis[t] == aux@[t],
            forall|t: int| 0 <= t < n && !(lo <= t < k) ==> #[trigger] vis[t] == m[t],
            faithful(base, events@, vis),
            events@ + merge_scan(keys@, m, i as int, mid as int, j as int, hi as int, k as int).0 == e2 + scan0.0,
            aux@.subrange(lo as int, k as int) + merge_scan(keys@, m, i as int, mid as int, j as int, hi as int, k as int).1 == scan0.1,
            aux@.subrange(lo as int, k as int).to_multiset()
                == m.subrange(lo as int, i as int).to_multiset().add(m.subrange(mid as int, j as int).to_multiset()),
            sorted_by(keys@, aux@, lo as int, k as int),
            k > lo && i < mid ==> key_at(keys@, aux@, k - 1) <= key_at(keys@, m, i as int),
            k > lo && j < hi ==> key_at(keys@, aux@, k - 1) <= key_at(keys@, m, j as int),
            forall|t: int| lo <= t < k ==> base.contains(#[trigger] aux@[t]),
            events@.len() >= old(events)@.len(),
            forall|q: int| 0 <= q < old(events)@.len() ==> events@[q] == old(events)@[q],
            forall|q: int| old(events)@.len() <= q < events@.len() ==> !(events@[q] is Swap),
        decreases mid - i,
    {
        let ghost eb = events@;
        let ghost ib = i as int;
        let ghost jb = j as int;
        let ghost kb = k as int;
        let ghost aux_prev = aux@;
        let v = arr[i];
        proof {
            lemma_merge_step(aux@, lo as int, k as int, v, m.subrange(lo as int, i as int), m.subrange(mid as int, j as int));
            assert(m.subrange(lo as int, i as int).push(v) =~= m.subrange(lo as int, i + 1));
        }
        aux.set(k, v);
        emit_write(events, k, v, Ghost(base), Ghost(vis));
        proof {
            vis = vis.update(k as int, v);
        }
        assert forall|a: int, b: int| lo <= a <= b < k + 1 implies #[trigger] key_at(keys@, aux@, a) <= #[trigger] key_at(keys@, aux@, b) by {
            if b == k && a < k {
                assert(key_at(keys@, aux_prev, a) <= key_at(keys@, aux_prev, k - 1));
            } else if b < k {
                assert(key_at(keys@, aux_prev, a) <= key_at(keys@, aux_prev, b));
            }
        }
        assert(i + 1 < mid ==> key_at(keys@, m, i as int) <= key_at(keys@, m, i + 1));
        i += 1;
        k += 1;
        assert(eb + merge_scan(keys@, m, ib, mid as int, jb, hi as int, kb).0
            =~= events@ + merge_scan(keys@, m, i as int, mid as int, j as int, hi as int, k as int).0);
        assert(aux_prev.subrange(lo as int, kb) + merge_scan(keys@, m, ib, mid as int, jb, hi as int, kb).1
            =~= aux@.subrange(lo as int, k as int) + merge_scan(keys@, m, i as int, mid as int, j as int, hi as int, k as int).1);
    }
    while j < hi
        invariant
            arr@ == m,
            arr.len() == n,
            aux.len() == naux,
            hi <= naux,
            lo < mid <= hi <= n,
            i == mid,
            mid <= j <= hi,
            k == i + j - mid,
            sorted_by(keys@, m, mid as int, hi as int),
            keys_cover(keys@, m),
            values_from(base, m),
            vis.len() == n,
            forall|t: int| lo <= t < k ==> #[trigger] vis[t] == aux@[t],
            forall|t: int| 0 <= t < n && !(lo <= t < k) ==> #[trigger] vis[t] == m[t],
            faithful(base, events@, vis),
            events@ + merge_scan(keys@, m, i as int, mid as int, j as int, hi as int, k as int).0 == e2 + scan0.0,
            aux@.subrange(lo as int, k as int) + merge_scan(keys@, m, i as int, mid as int, j as int, hi as int, k as int).1 == scan0.1,
            aux@.subrange(lo as int, k as int).to_multiset()
                == m.subrange(lo as int, i as int).to_multiset().add(m.subrange(mid as int, j as int).to_multiset()),
            sorted_by(keys@, aux@, lo as int, k as int),
            k > lo && j < hi ==> key_at(keys@, aux@, k - 1) <= key_at(keys@, m, j as int),
            forall|t: int| lo <= t < k ==> base.contains(#[trigger] aux@[t]),
            events@.len() >= old(events)@.len(),
            forall|q: int| 0 <= q < old(events)@.len() ==> events@[q] == old(events)@[q],
            forall|q: int| old(events)@.len() <= q < events@.len() ==> !(events@[q] is Swap),
        decreases hi - j,
    {
        let ghost eb = events@;
        let ghost ib = i as int;
        let ghost jb = j as int;
        let ghost kb = k as int;
        let ghost aux_prev = aux@;
        let v = arr[j];
        proof {
            lemma_merge_step(aux@, lo as int, k as int, v, m.subrange(lo as int, i as int), m.subrange(mid as int, j as int));
            assert(m.subrange(mid as int, j as int).push(v) =~= m.subrange(mid as int, j + 1));
        }
        aux.set(k, v);
        emit_write(events, k, v, Ghost(base), Ghost(vis));
        proof {
            vis = vis.update(k as int, v);
        }
        assert forall|a: int, b: int| lo <= a <= b < k + 1 implies #[trigger] key_at(keys@, aux@, a) <= #[trigger] key_at(keys@, aux@, b) by {
            if b == k && a < k {
                assert(key_at(keys@, aux_prev, a) <= key_at(keys@, aux_prev, k - 1));
            } else if b < k {
                assert(key_at(keys@, aux_prev, a) <= key_at(keys@, aux_prev, b));
            }
        }
        assert(j + 1 < hi ==> key_at(keys@, m, j as int) <= key_at(keys@, m, j + 1));
        j += 1;
        k += 1;
        assert(eb + merge_scan(keys@, m, ib, mid as int, jb, hi as int, kb).0
            =~= events@ + merge_scan(keys@, m, i as int, mid as int, j as int, hi as int, k as int).0);
        assert(aux_prev.subrange(lo as int, kb) + merge_scan(keys@, m, ib, mid as int, jb, hi as int, kb).1
            =~= aux@.subrange(lo as int, k as int) + merge_scan(keys@, m, i as int, mid as int, j as int, hi as int, k as int).1);
    }
    proof {
        broadcast use vstd::seq_lib::group_to_multiset_ensures;
        assert(m.subrange(lo as int, hi as int) =~= m.subrange(lo as int, mid as int) + m.subrange(mid as int, hi as int));
        vstd::seq_lib::lemma_multiset_commutative(m.subrange(lo as int, mid as int), m.subrange(mid as int, hi as int));
    }

    // Copy the merged run back into `arr`.
    let ghost e3 = events@;
    let ghost run = scan0.1;
    assert(e3 =~= e2 + scan0.0);
    assert(aux@.subrange(lo as int, hi as int) =~= run);
    let mut idx = lo;
    while idx < hi
        invariant
            aux@.subrange(lo as int, hi as int) == run,
            events@ == e3 + copy_events(run, lo as int).take(idx - lo),
            arr.len() == n,
            aux.len() == naux,
            hi <= naux,
            lo <= idx <= hi <= n,
            vis.len() == n,
            forall|t: int| lo <= t < hi ==> #[trigger] vis[t] == aux@[t],
            forall|t: int| 0 <= t < n && !(lo <= t < hi) ==> #[trigger] vis[t] == m[t],
            forall|t: int| lo <= t < idx ==> #[trigger] arr@[t] == aux@[t],
            forall|t: int| 0 <= t < n && !(lo <= t < idx) ==> #[trigger] arr@[t] == m[t],
            faithful(base, events@, vis),
            forall|t: int| lo <= t < hi ==> base.contains(#[trigger] aux@[t]),
            events@.len() >= old(events)@.len(),
            forall|q: int| 0 <= q < old(events)@.len() ==> events@[q] == old(events)@[q],
            forall|q: int| old(events)@.len() <= q < events@.len() ==> !(events@[q] is Swap),
        decreases hi - idx,
    {
        let value = aux[idx];
        arr.set(idx, value);
        let ghost ec = events@;
        emit_write(events, idx, value, Ghost(base), Ghost(vis));
        assert(vis.update(idx as int, value) =~= vis);
        assert(run[idx - lo] == value);
        assert(events@ =~= e3 + copy_events(run, lo as int).take(idx + 1 - lo));
        idx += 1;
    }
    assert(arr@ =~= vis);
    assert(copy_events(run, lo as int).take(hi - lo) =~= copy_events(run, lo as int));
    assert(arr@ =~= splice(m, lo as int, hi as int, run));
    assert(arr@.subrange(lo as int, hi as int) =~= aux@.subrange(lo as int, hi as int));
    assert forall|a: int, b: int| lo <= a <= b < hi implies #[trigger] key_at(keys@, arr@, a) <= #[trigger] key_at(keys@, arr@, b) by {
        assert(key_at(keys@, aux@, a) <= key_at(keys@, aux@, b));
    }
    assert forall|t: int| 0 <= t < n implies #[trigger] arr@[t] < keys@.len() && base.contains(arr@[t]) by {
        if lo <= t < hi {
            let sub = m.subrange(lo as int, hi as int);
            crate::sort::lemma_multiset_contains(aux@.subrange(lo as int, hi as int), sub);
            assert(sub.contains(aux@.subrange(lo as int, hi as int)[t - lo]));
            let q = choose|q: int| 0 <= q < sub.len() && #[trigger] sub[q] == arr@[t];
            assert(m[lo + q] == arr@[t]);
        }
    }
    assert(arr@.subrange(lo as int, hi as int).to_multiset() == m.subrange(lo as int, hi as int).to_multiset());
}

/// Sort positions `lo..hi`; `aux` is scratch space of the same length.
pub fn merge(arr: &mut Vec<usize>, aux: &mut Vec<usize>, lo: usize, hi: usize, keys: &[u64], events: &mut Vec<Event>, Ghost(base): Ghost<Seq<usize>>)
    requires
        lo <= hi <= old(arr).len(),
        hi <= old(aux).len(),
        faithful(base, old(events)@, old(arr)@),
        keys_cover(keys@, old(arr)@),
        values_from(base, old(arr)@),
    ensures
        final(arr).len() == old(arr).len(),
        final(aux).len() == old(aux).len(),
        faithful(base, final(events)@, final(arr)@),
        forall|k: int| 0 <= k < final(arr).len() && !(lo <= k < hi) ==> final(arr)@[k] == old(arr)@[k],
        final(arr)@.subrange(lo as int, hi as int).to_multiset() == old(arr)@.subrange(lo as int, hi as int).to_multiset(),
        keys_cover(keys@, final(arr)@),
        values_from(base, final(arr)@),
        sorted_by(keys@, final(arr)@, lo as int, hi as int),
        final(events)@.len() >= old(events)@.len(),
        forall|i: int| 0 <= i < old(events)@.len() ==> final(events)@[i] == old(events)@[i],
        forall|i: int| old(events)@.len() <= i < final(events)@.len() ==> !(final(events)@[i] is Swap),
        final(events)@ == old(events)@ + merge_model(keys@, old(arr)@, lo as int, hi as int).0,
        final(arr)@ == merge_model(keys@, old(arr)@, lo as int, hi as int).1,
    decreases hi - lo,
{
    if hi - lo < 2 {
        assert(events@ =~= old(events)@ + merge_model(keys@, old(arr)@, lo as int, hi as int).0);
        return;
    }
    let ghost e0 = events@;
    let n = arr.len();
    let ghost a0 = arr@;
    let mid = lo + (hi - lo) / 2;
    merge(arr, aux, lo, mid, keys, events, Ghost(base));
    let ghost a1 = arr@;
    let ghost e1 = events@;
    merge(arr, aux, mid, hi, keys, events, Ghost(base));
    let ghost m = arr@;
    let ghost e2 = events@;
    proof {
        assert(sorted_by(keys@, a1, lo as int, mid as int));
        assert forall|a: int, b: int| lo <= a <= b < mid implies #[trigger] key_at(keys@, m, a) <= #[trigger] key_at(keys@, m, b) by {
            assert(key_at(keys@, a1, a) <= key_at(keys@, a1, b));
        }
        lemma_range_multiset_compose(a1, a0, lo as int, lo as int, mid as int, hi as int);
        lemma_range_multiset_compose(m, a1, lo as int, mid as int, hi as int, hi as int);
    }
    let ghost scan0 = merge_scan(keys@, m, lo as int, mid as int, mid as int, hi as int, lo as int);
    merge_runs(arr, aux, lo, mid, hi, keys, events, Ghost(base));
    proof {
        let e3 = e2 + scan0.0;
        assert(events@ =~= e3 + copy_events(scan0.1, lo as int));
        lemma_merge_compose(keys@, a0, lo as int, hi as int, e0, e1, e2, e3, events@, a1, m, arr@);
    }
}

} // verus!
