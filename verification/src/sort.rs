//! Sorting algorithms recorded as a sequence of atomic events.
//!
//! Each algorithm runs to completion over a working array while emitting
//! `Event`s (comparisons, swaps, single-element writes). The recorded event
//! list can be replayed frame-by-frame to animate the exact operations.

use vstd::prelude::*;
use crate::elementary::{bubble, insertion, selection, bubble_trace, insertion_trace, selection_trace, compares,
    bubble_schedule, lemma_bubble_compares};
use crate::quick::{quick, quick_model};
use crate::heap::{heap, heap_trace};
use crate::merge::{merge, merge_model};

verus! {

/// A single atomic operation performed by a sorting algorithm.
///
/// `a`/`b`/`idx` are positions in the linear cell array
/// (`idx = row * cols + col`).
#[derive(Clone, Copy, Debug, PartialEq, Eq, Structural)]
pub enum Event {
    /// Compare the keys of the cells currently at positions `a` and `b`.
    Cmp { a: usize, b: usize },
    /// Swap the cells at positions `a` and `b`.
    Swap { a: usize, b: usize },
    /// Write `value` (a cell id) into position `idx`.
    Write { idx: usize, value: usize },
}

/// `s` with the entries at `a` and `b` exchanged.
pub open spec fn swapped(s: Seq<usize>, a: int, b: int) -> Seq<usize> {
    s.update(a, s[b]).update(b, s[a])
}

/// The effect of one event on an arrangement. Every event produced by this
/// crate addresses positions inside the arrangement; an out-of-range event
/// leaves it unchanged.
pub open spec fn apply_event(s: Seq<usize>, e: Event) -> Seq<usize> {
    match e {
        Event::Cmp { .. } => s,
        Event::Swap { a, b } => if a < s.len() && b < s.len() {
            swapped(s, a as int, b as int)
        } else {
            s
        },
        Event::Write { idx, value } => if idx < s.len() {
            s.update(idx as int, value)
        } else {
            s
        },
    }
}

/// The arrangement reached by applying `events` in order to `s`.
pub open spec fn replay(s: Seq<usize>, events: Seq<Event>) -> Seq<usize>
    decreases events.len(),
{
    if events.len() == 0 {
        s
    } else {
        apply_event(replay(s, events.drop_last()), events.last())
    }
}

/// The event only addresses positions below `n`.
pub open spec fn event_in_bounds(e: Event, n: nat) -> bool {
    match e {
        Event::Cmp { a, b } => a < n && b < n,
        Event::Swap { a, b } => a < n && b < n,
        Event::Write { idx, .. } => idx < n,
    }
}

/// A write event only writes a value that occurs in `base`.
pub open spec fn writes_value_of(e: Event, base: Seq<usize>) -> bool {
    match e {
        Event::Write { value, .. } => base.contains(value),
        _ => true,
    }
}

/// `events`, replayed over `base`, reproduce `arr`; every event addresses a
/// position of the arrangement and writes only values taken from `base`.
pub open spec fn faithful(base: Seq<usize>, events: Seq<Event>, arr: Seq<usize>) -> bool {
    &&& replay(base, events) == arr
    &&& base.len() == arr.len()
    &&& forall|i: int| 0 <= i < events.len() ==> event_in_bounds(#[trigger] events[i], arr.len())
    &&& forall|i: int| 0 <= i < events.len() ==> writes_value_of(#[trigger] events[i], base)
}

/// The sort key of the cell at position `i`.
pub open spec fn key_at(keys: Seq<u64>, s: Seq<usize>, i: int) -> u64 {
    keys[s[i] as int]
}

/// Every cell of `s` has a key.
pub open spec fn keys_cover(keys: Seq<u64>, s: Seq<usize>) -> bool {
    forall|i: int| 0 <= i < s.len() ==> #[trigger] s[i] < keys.len()
}

/// Positions `lo..hi` of `s` are in non-decreasing key order.
pub open spec fn sorted_by(keys: Seq<u64>, s: Seq<usize>, lo: int, hi: int) -> bool {
    forall|i: int, j: int|
        lo <= i <= j < hi ==> #[trigger] key_at(keys, s, i) <= #[trigger] key_at(keys, s, j)
}

/// Replaying one more event applies it to the arrangement reached so far.
pub proof fn lemma_replay_push(base: Seq<usize>, events: Seq<Event>, e: Event)
    ensures
        replay(base, events.push(e)) == apply_event(replay(base, events), e),
{
    assert(events.push(e).drop_last() =~= events);
}

/// Exchanging two entries keeps the multiset of entries.
pub proof fn lemma_swapped_multiset(s: Seq<usize>, a: int, b: int)
    requires
        0 <= a < s.len(),
        0 <= b < s.len(),
    ensures
        swapped(s, a, b).to_multiset() == s.to_multiset(),
{
    broadcast use vstd::seq_lib::group_to_multiset_ensures;
    broadcast use vstd::multiset::group_multiset_axioms;
    broadcast use vstd::multiset::group_multiset_properties;

    let s1 = s.update(a, s[b]);
    assert(s1.to_multiset() == s.to_multiset().insert(s[b]).remove(s[a]));
    assert(s1.update(b, s[a]).to_multiset() == s1.to_multiset().insert(s[a]).remove(s1[b]));
    assert(s.to_multiset().count(s[a]) > 0) by {
        assert(s.contains(s[a]));
    }
    if a == b {
        assert(swapped(s, a, b) =~= s);
    } else {
        assert(swapped(s, a, b).to_multiset() =~= s.to_multiset());
    }
}

/// Exchanging two entries inside `lo..hi` keeps the multiset of that range.
pub proof fn lemma_swapped_range_multiset(s: Seq<usize>, a: int, b: int, lo: int, hi: int)
    requires
        0 <= lo <= a < hi <= s.len(),
        lo <= b < hi,
    ensures
        swapped(s, a, b).subrange(lo, hi).to_multiset() == s.subrange(lo, hi).to_multiset(),
{
    let sub = s.subrange(lo, hi);
    assert(swapped(s, a, b).subrange(lo, hi) =~= swapped(sub, a - lo, b - lo));
    lemma_swapped_multiset(sub, a - lo, b - lo);
}

/// Every entry of a rearrangement of `s2` is an entry of `s2`.
pub proof fn lemma_multiset_contains(s1: Seq<usize>, s2: Seq<usize>)
    requires
        s1.to_multiset() == s2.to_multiset(),
    ensures
        forall|i: int| 0 <= i < s1.len() ==> s2.contains(#[trigger] s1[i]),
{
    broadcast use vstd::seq_lib::group_to_multiset_ensures;

    assert forall|i: int| 0 <= i < s1.len() implies s2.contains(#[trigger] s1[i]) by {
        assert(s1.contains(s1[i]));
        assert(s1.to_multiset().count(s1[i]) > 0);
    }
}

/// Rearranging the range `a..b` and nothing else inside `lo..hi` keeps the
/// multiset of `lo..hi`.
pub proof fn lemma_range_multiset_compose(s1: Seq<usize>, s2: Seq<usize>, lo: int, a: int, b: int, hi: int)
    requires
        0 <= lo <= a <= b <= hi <= s1.len(),
        s1.len() == s2.len(),
        forall|k: int| lo <= k < a ==> s1[k] == s2[k],
        forall|k: int| b <= k < hi ==> s1[k] == s2[k],
        s1.subrange(a, b).to_multiset() == s2.subrange(a, b).to_multiset(),
    ensures
        s1.subrange(lo, hi).to_multiset() == s2.subrange(lo, hi).to_multiset(),
{
    assert(s1.subrange(lo, hi) =~= s1.subrange(lo, a) + s1.subrange(a, b) + s1.subrange(b, hi));
    assert(s2.subrange(lo, hi) =~= s2.subrange(lo, a) + s2.subrange(a, b) + s2.subrange(b, hi));
    assert(s1.subrange(lo, a) =~= s2.subrange(lo, a));
    assert(s1.subrange(b, hi) =~= s2.subrange(b, hi));
    vstd::seq_lib::lemma_multiset_commutative(s1.subrange(lo, a) + s1.subrange(a, b), s1.subrange(b, hi));
    vstd::seq_lib::lemma_multiset_commutative(s1.subrange(lo, a), s1.subrange(a, b));
    vstd::seq_lib::lemma_multiset_commutative(s2.subrange(lo, a) + s2.subrange(a, b), s2.subrange(b, hi));
    vstd::seq_lib::lemma_multiset_commutative(s2.subrange(lo, a), s2.subrange(a, b));
}

/// A swap exchanges positions `a < b` whose keys are strictly out of order
/// in `s` (and, when `adjacent`, neighbouring positions); every other event
/// qualifies.
pub open spec fn removes_inversion(keys: Seq<u64>, s: Seq<usize>, e: Event, adjacent: bool) -> bool {
    match e {
        Event::Swap { a, b } => {
            &&& a < b
            &&& adjacent ==> b == a + 1
            &&& key_at(keys, s, b as int) < key_at(keys, s, a as int)
        },
        _ => true,
    }
}

/// Every swap from position `from` of `events` on removes an inversion of
/// the arrangement it is applied to.
pub open spec fn swaps_remove_inversions(keys: Seq<u64>, base: Seq<usize>, events: Seq<Event>, from: int, adjacent: bool) -> bool {
    forall|k: int| from <= k < events.len()
        ==> #[trigger] removes_inversion(keys, replay(base, events.take(k)), events[k], adjacent)
}

/// Appending a swap that removes an inversion keeps `swaps_remove_inversions`.
pub proof fn lemma_swaps_push(keys: Seq<u64>, base: Seq<usize>, events: Seq<Event>, from: int, adjacent: bool, e: Event)
    requires
        0 <= from,
        swaps_remove_inversions(keys, base, events, from, adjacent),
        removes_inversion(keys, replay(base, events), e, adjacent),
    ensures
        swaps_remove_inversions(keys, base, events.push(e), from, adjacent),
{
    let ev2 = events.push(e);
    assert forall|k: int| from <= k < ev2.len()
        implies #[trigger] removes_inversion(keys, replay(base, ev2.take(k)), ev2[k], adjacent) by {
        if k < events.len() {
            assert(ev2.take(k) =~= events.take(k));
            assert(removes_inversion(keys, replay(base, events.take(k)), events[k], adjacent));
        } else {
            assert(ev2.take(k) =~= events);
        }
    }
}

/// Record a comparison of positions `a` and `b`.
pub fn emit_compare(events: &mut Vec<Event>, a: usize, b: usize, Ghost(base): Ghost<Seq<usize>>, Ghost(arr): Ghost<Seq<usize>>)
    requires
        faithful(base, old(events)@, arr),
        a < arr.len(),
        b < arr.len(),
    ensures
        final(events)@ == old(events)@.push(Event::Cmp { a, b }),
        faithful(base, final(events)@, arr),
{
    proof {
        lemma_replay_push(base, events@, Event::Cmp { a, b });
    }
    events.push(Event::Cmp { a, b });
    assert(forall|i: int| 0 <= i < events@.len() - 1 ==> events@[i] == old(events)@[i]);
}

/// Record a write of `value` into position `idx` of the replayed arrangement
/// `vis`.
pub fn emit_write(events: &mut Vec<Event>, idx: usize, value: usize, Ghost(base): Ghost<Seq<usize>>, Ghost(vis): Ghost<Seq<usize>>)
    requires
        faithful(base, old(events)@, vis),
        idx < vis.len(),
        base.contains(value),
    ensures
        final(events)@ == old(events)@.push(Event::Write { idx, value }),
        faithful(base, final(events)@, vis.update(idx as int, value)),
{
    proof {
        lemma_replay_push(base, events@, Event::Write { idx, value });
    }
    events.push(Event::Write { idx, value });
    assert(forall|i: int| 0 <= i < events@.len() - 1 ==> events@[i] == old(events)@[i]);
}

/// Exchange the cells at `a` and `b` and record the swap.
pub fn swap_emit(arr: &mut Vec<usize>, a: usize, b: usize, events: &mut Vec<Event>, Ghost(base): Ghost<Seq<usize>>)
    requires
        faithful(base, old(events)@, old(arr)@),
        a < old(arr).len(),
        b < old(arr).len(),
    ensures
        final(arr)@ == swapped(old(arr)@, a as int, b as int),
        final(events)@ == old(events)@.push(Event::Swap { a, b }),
        faithful(base, final(events)@, final(arr)@),
{
    let x = arr[a];
    let y = arr[b];
    arr.set(a, y);
    arr.set(b, x);
    proof {
        lemma_replay_push(base, events@, Event::Swap { a, b });
        assert(arr@ =~= swapped(old(arr)@, a as int, b as int));
    }
    events.push(Event::Swap { a, b });
    assert(forall|i: int| 0 <= i < events@.len() - 1 ==> events@[i] == old(events)@[i]);
}

} // verus!

verus! {

/// The sorting algorithm to visualise.
#[derive(Clone, Copy, PartialEq, Eq, Debug, Structural)]
pub enum Algo {
    Bubble,
    Insertion,
    Selection,
    Quick,
    Heap,
    Merge,
}

impl Algo {
    /// Every algorithm, in the order that `next`/`prev` cycle through.
    pub const ALL: [Algo; 6] = [
        Algo::Bubble,
        Algo::Insertion,
        Algo::Selection,
        Algo::Quick,
        Algo::Heap,
        Algo::Merge,
    ];

    /// Stable numeric id of the algorithm: its position in `ALL`.
    pub open spec fn spec_code(self) -> u8 {
        match self {
            Algo::Bubble => 0,
            Algo::Insertion => 1,
            Algo::Selection => 2,
            Algo::Quick => 3,
            Algo::Heap => 4,
            Algo::Merge => 5,
        }
    }

    pub open spec fn spec_from_code(code: u8) -> Option<Algo> {
        if code == 0 {
            Some(Algo::Bubble)
        } else if code == 1 {
            Some(Algo::Insertion)
        } else if code == 2 {
            Some(Algo::Selection)
        } else if code == 3 {
            Some(Algo::Quick)
        } else if code == 4 {
            Some(Algo::Heap)
        } else if code == 5 {
            Some(Algo::Merge)
        } else {
            None
        }
    }

    pub open spec fn spec_name(self) -> Seq<char> {
        match self {
            Algo::Bubble => "Bubble sort"@,
            Algo::Insertion => "Insertion sort"@,
            Algo::Selection => "Selection sort"@,
            Algo::Quick => "Quicksort"@,
            Algo::Heap => "Heapsort"@,
            Algo::Merge => "Mergesort"@,
        }
    }

    pub open spec fn spec_code_str(self) -> Seq<char> {
        match self {
            Algo::Bubble => "bubble"@,
            Algo::Insertion => "insertion"@,
            Algo::Selection => "selection"@,
            Algo::Quick => "quick"@,
            Algo::Heap => "heap"@,
            Algo::Merge => "merge"@,
        }
    }

    /// Stable numeric id, as stored in cache files.
    pub fn code(self) -> (c: u8)
        ensures
            c == self.spec_code(),
            c < 6,
    {
        match self {
            Algo::Bubble => 0,
            Algo::Insertion => 1,
            Algo::Selection => 2,
            Algo::Quick => 3,
            Algo::Heap => 4,
            Algo::Merge => 5,
        }
    }

    /// Inverse of `code`; `None` for an id that names no algorithm.
    pub fn from_code(code: u8) -> (r: Option<Algo>)
        ensures
            r == Self::spec_from_code(code),
            r is None <==> code >= 6,
            r matches Some(a) ==> a.spec_code() == code,
    {
        match code {
            0 => Some(Algo::Bubble),
            1 => Some(Algo::Insertion),
            2 => Some(Algo::Selection),
            3 => Some(Algo::Quick),
            4 => Some(Algo::Heap),
            5 => Some(Algo::Merge),
            _ => None,
        }
    }

    /// Short lower-case name, as accepted on the command line.
    pub fn code_str(self) -> (s: &'static str)
        ensures
            s@ == self.spec_code_str(),
    {
        match self {
            Algo::Bubble => "bubble",
            Algo::Insertion => "insertion",
            Algo::Selection => "selection",
            Algo::Quick => "quick",
            Algo::Heap => "heap",
            Algo::Merge => "merge",
        }
    }

    /// Display name of the algorithm.
    pub fn name(self) -> (s: &'static str)
        ensures
            s@ == self.spec_name(),
    {
        match self {
            Algo::Bubble => "Bubble sort",
            Algo::Insertion => "Insertion sort",
            Algo::Selection => "Selection sort",
            Algo::Quick => "Quicksort",
            Algo::Heap => "Heapsort",
            Algo::Merge => "Mergesort",
        }
    }

    pub open spec fn spec_next(self) -> Algo {
        match self {
            Algo::Bubble => Algo::Insertion,
            Algo::Insertion => Algo::Selection,
            Algo::Selection => Algo::Quick,
            Algo::Quick => Algo::Heap,
            Algo::Heap => Algo::Merge,
            Algo::Merge => Algo::Bubble,
        }
    }

    pub open spec fn spec_prev(self) -> Algo {
        match self {
            Algo::Bubble => Algo::Merge,
            Algo::Insertion => Algo::Bubble,
            Algo::Selection => Algo::Insertion,
            Algo::Quick => Algo::Selection,
            Algo::Heap => Algo::Quick,
            Algo::Merge => Algo::Heap,
        }
    }

    /// The algorithm after this one in `ALL`, wrapping around.
    pub fn next(self) -> (r: Algo)
        ensures
            r == self.spec_next(),
            r.spec_code() == (self.spec_code() + 1) % 6,
    {
        Algo::ALL[(self.code() as usize + 1) % 6]
    }

    /// The algorithm before this one in `ALL`, wrapping around.
    pub fn prev(self) -> (r: Algo)
        ensures
            r == self.spec_prev(),
            r.spec_code() == (self.spec_code() + 5) % 6,
    {
        Algo::ALL[(self.code() as usize + 5) % 6]
    }
}

} // verus!

verus! {

/// The exact events that `algo` records when sorting `s` by `keys`.
pub open spec fn algo_trace(algo: Algo, keys: Seq<u64>, s: Seq<usize>) -> Seq<Event> {
    match algo {
        Algo::Bubble => bubble_trace(keys, s),
        Algo::Insertion => insertion_trace(keys, s),
        Algo::Selection => selection_trace(keys, s),
        Algo::Quick => if s.len() > 1 { quick_model(keys, s, 0, s.len() - 1).0 } else { Seq::empty() },
        Algo::Heap => if s.len() > 1 { heap_trace(keys, s) } else { Seq::empty() },
        Algo::Merge => if s.len() > 1 { merge_model(keys, s, 0, s.len() as int).0 } else { Seq::empty() },
    }
}

/// Run one of the algorithms over `arr`, emitting events, and record them.
///
/// Cells are ordered by `keys[cell]`. `arr` is rearranged in place into
/// non-decreasing key order, and replaying the returned events over the
/// original arrangement reproduces exactly that final arrangement.
pub fn collect_events(algo: Algo, arr: &mut Vec<usize>, keys: &[u64]) -> (events: Vec<Event>)
    requires
        keys_cover(keys@, old(arr)@),
    ensures
        final(arr).len() == old(arr).len(),
        final(arr)@.to_multiset() == old(arr)@.to_multiset(),
        sorted_by(keys@, final(arr)@, 0, final(arr)@.len() as int),
        replay(old(arr)@, events@) == final(arr)@,
        forall|i: int| 0 <= i < events@.len() ==> event_in_bounds(#[trigger] events@[i], old(arr)@.len()),
        forall|i: int| 0 <= i < events@.len() ==> writes_value_of(#[trigger] events@[i], old(arr)@),
        algo != Algo::Merge ==> forall|i: int| 0 <= i < events@.len() ==> !(#[trigger] events@[i] is Write),
        algo == Algo::Merge ==> forall|i: int| 0 <= i < events@.len() ==> !(#[trigger] events@[i] is Swap),
        old(arr).len() <= 1 ==> events@.len() == 0,
        algo == Algo::Bubble || algo == Algo::Insertion ==> swaps_remove_inversions(keys@, old(arr)@, events@, 0, true),
        algo == Algo::Selection ==> swaps_remove_inversions(keys@, old(arr)@, events@, 0, false),
        events@ == algo_trace(algo, keys@, old(arr)@),
        algo == Algo::Bubble ==> compares(events@) == bubble_schedule(old(arr)@.len()),
        algo == Algo::Bubble ==> compares(events@).len() == old(arr)@.len() * (old(arr)@.len() - 1) / 2,
{
    proof {
        lemma_bubble_compares(keys@, arr@);
    }
    let mut events: Vec<Event> = Vec::new();
    let ghost base = arr@;
    let n = arr.len();
    match algo {
        Algo::Bubble => bubble(arr, keys, &mut events, Ghost(base)),
        Algo::Insertion => insertion(arr, keys, &mut events, Ghost(base)),
        Algo::Selection => selection(arr, keys, &mut events, Ghost(base)),
        Algo::Quick => {
            if n > 1 {
                quick(arr, 0, n - 1, keys, &mut events, Ghost(base));
                proof {
                    assert(arr@.subrange(0, n as int) =~= arr@);
                    assert(base.subrange(0, n as int) =~= base);
                }
            }
        },
        Algo::Heap => {
            if n > 1 {
                heap(arr, keys, &mut events, Ghost(base));
            }
        },
        Algo::Merge => {
            if n > 1 {
                let mut aux = vec![0usize; n];
                merge(arr, &mut aux, 0, n, keys, &mut events, Ghost(base));
                proof {
                    assert(arr@.subrange(0, n as int) =~= arr@);
                    assert(base.subrange(0, n as int) =~= base);
                }
            }
        },
    }
    events
}

/// Run `algo` over a copy of `base`; the events take `base` to its sorted
/// arrangement.
pub fn compute_events(algo: Algo, base: &[usize], keys: &[u64]) -> (events: Vec<Event>)
    requires
        keys_cover(keys@, base@),
    ensures
        replay(base@, events@).to_multiset() == base@.to_multiset(),
        replay(base@, events@).len() == base@.len(),
        sorted_by(keys@, replay(base@, events@), 0, base@.len() as int),
        forall|i: int| 0 <= i < events@.len() ==> event_in_bounds(#[trigger] events@[i], base@.len()),
        forall|i: int| 0 <= i < events@.len() ==> writes_value_of(#[trigger] events@[i], base@),
        events@ == algo_trace(algo, keys@, base@),
{
    let mut work: Vec<usize> = Vec::new();
    let mut i: usize = 0;
    while i < base.len()
        invariant
            i <= base@.len(),
            work@ == base@.take(i as int),
        decreases base@.len() - i,
    {
        work.push(base[i]);
        i += 1;
        assert(work@ =~= base@.take(i as int));
    }
    assert(work@ =~= base@);
    collect_events(algo, &mut work, keys)
}

/// The keys of the index sort: every cell is keyed by its own id.
pub fn index_keys(n: usize) -> (keys: Vec<u64>)
    ensures
        keys@.len() == n,
        forall|i: int| 0 <= i < n ==> #[trigger] keys@[i] == i,
{
    let mut keys: Vec<u64> = Vec::new();
    let mut i: usize = 0;
    while i < n
        invariant
            i <= n,
            keys@.len() == i,
            forall|t: int| 0 <= t < i ==> #[trigger] keys@[t] == t,
        decreases n - i,
    {
        keys.push(i as u64);
        i += 1;
    }
    keys
}

/// `next` and `prev` undo each other.
pub proof fn lemma_next_prev_inverse(a: Algo)
    ensures
        a.spec_next().spec_prev() == a,
        a.spec_prev().spec_next() == a,
{
}

/// Stepping forward six times (once per algorithm) returns to the start.
pub proof fn lemma_next_cycles(a: Algo)
    ensures
        a.spec_next().spec_next().spec_next().spec_next().spec_next().spec_next() == a,
{
}

/// Different algorithms have different command-line names, and different
/// display names.
pub proof fn lemma_code_str_injective(a: Algo, b: Algo)
    ensures
        a.spec_code_str() == b.spec_code_str() ==> a == b,
        a.spec_name() == b.spec_name() ==> a == b,
{
    reveal_strlit("bubble");
    reveal_strlit("insertion");
    reveal_strlit("selection");
    reveal_strlit("quick");
    reveal_strlit("heap");
    reveal_strlit("merge");
    reveal_strlit("Bubble sort");
    reveal_strlit("Insertion sort");
    reveal_strlit("Selection sort");
    reveal_strlit("Quicksort");
    reveal_strlit("Heapsort");
    reveal_strlit("Mergesort");
    if a.spec_code_str() == b.spec_code_str() && a != b {
        assert(a.spec_code_str()[0] == b.spec_code_str()[0]);
        assert(a.spec_code_str().len() == b.spec_code_str().len());
    }
    if a.spec_name() == b.spec_name() && a != b {
        assert(a.spec_name()[0] == b.spec_name()[0]);
        assert(a.spec_name().len() == b.spec_name().len());
    }
}

/// The numeric id identifies the algorithm.
pub proof fn lemma_code_roundtrip(a: Algo)
    ensures
        Algo::spec_from_code(a.spec_code()) == Some(a),
        forall|b: Algo| b.spec_code() == a.spec_code() ==> b == a,
{
}

} // verus!
