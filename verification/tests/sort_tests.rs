use sort_visualizer::shuffle::shuffled;
use sort_visualizer::sort::{collect_events, compute_events, index_keys, Algo, Event};

fn replay(start: &[usize], events: &[Event]) -> Vec<usize> {
    let mut vis = start.to_vec();
    for e in events {
        match *e {
            Event::Cmp { .. } => {}
            Event::Swap { a, b } => vis.swap(a, b),
            Event::Write { idx, value } => vis[idx] = value,
        }
    }
    vis
}

/// Verify every algorithm produces (and replays to) a sorted array.
#[test]
fn all_algos_sort_and_replay() {
    for &algo in &Algo::ALL {
        for n in [0usize, 1, 2, 3, 5, 17, 64, 200] {
            let mut arr: Vec<usize> = (0..n).rev().collect();
            let keys = index_keys(n);
            let events = collect_events(algo, &mut arr, &keys);

            assert!(
                arr.windows(2).all(|w| w[0] <= w[1]),
                "{algo:?} n={n}: array not sorted"
            );

            // Replay the events over a fresh copy "screen-side" array.
            let mut vis: Vec<usize> = (0..n).rev().collect();
            for e in &events {
                match *e {
                    Event::Cmp { .. } => {}
                    Event::Swap { a, b } => vis.swap(a, b),
                    Event::Write { idx, value } => vis[idx] = value,
                }
            }
            assert_eq!(vis, arr, "{algo:?} n={n}: replay diverged");
        }
    }
}

#[test]
fn collects_events_on_reverse_input() {
    let mut arr: Vec<usize> = (0..20).rev().collect();
    let duration = std::time::Instant::now();
    let keys = index_keys(20);
    let events = collect_events(Algo::Quick, &mut arr, &keys);
    assert!(!events.is_empty());
    assert!(duration.elapsed().as_secs() < 5);
}

#[test]
fn sorts_by_keys_with_ties() {
    // Cells 0..8 keyed by a brightness-like rank with repeated values.
    let keys: Vec<u64> = vec![5, 3, 5, 0, 9, 3, 3, 7];
    let start: Vec<usize> = vec![7, 1, 4, 0, 6, 2, 5, 3];
    for &algo in &Algo::ALL {
        let mut arr = start.clone();
        let events = collect_events(algo, &mut arr, &keys);
        assert!(arr.windows(2).all(|w| keys[w[0]] <= keys[w[1]]), "{algo:?}: not key-sorted");
        let mut sorted_ids = arr.clone();
        sorted_ids.sort();
        assert_eq!(sorted_ids, (0..8).collect::<Vec<usize>>(), "{algo:?}: not a permutation");
        assert_eq!(replay(&start, &events), arr, "{algo:?}: replay diverged");
        for e in &events {
            match *e {
                Event::Cmp { a, b } | Event::Swap { a, b } => assert!(a < 8 && b < 8),
                Event::Write { idx, value } => assert!(idx < 8 && start.contains(&value)),
            }
        }
    }
}

#[test]
fn event_kinds_per_algorithm() {
    let start: Vec<usize> = vec![3, 1, 4, 0, 5, 2];
    let keys = index_keys(6);
    for &algo in &Algo::ALL {
        let mut arr = start.clone();
        let events = collect_events(algo, &mut arr, &keys);
        let writes = events.iter().filter(|e| matches!(e, Event::Write { .. })).count();
        let swaps = events.iter().filter(|e| matches!(e, Event::Swap { .. })).count();
        if algo == Algo::Merge {
            assert_eq!(swaps, 0);
            assert!(writes > 0);
        } else {
            assert_eq!(writes, 0, "{algo:?} wrote");
            assert!(swaps > 0);
        }
    }
}

#[test]
fn tiny_inputs_record_nothing() {
    for &algo in &Algo::ALL {
        for n in [0usize, 1] {
            let mut arr: Vec<usize> = (0..n).collect();
            let keys = index_keys(n);
            assert!(collect_events(algo, &mut arr, &keys).is_empty());
        }
    }
}

#[test]
fn bubble_events_on_three_cells() {
    let mut arr = vec![2usize, 1, 0];
    let keys = index_keys(3);
    let events = collect_events(Algo::Bubble, &mut arr, &keys);
    assert_eq!(
        events,
        vec![
            Event::Cmp { a: 0, b: 1 },
            Event::Swap { a: 0, b: 1 },
            Event::Cmp { a: 1, b: 2 },
            Event::Swap { a: 1, b: 2 },
            Event::Cmp { a: 0, b: 1 },
            Event::Swap { a: 0, b: 1 },
        ]
    );
    assert_eq!(arr, vec![0, 1, 2]);
}

#[test]
fn merge_events_on_two_cells() {
    let mut arr = vec![1usize, 0];
    let keys = index_keys(2);
    let events = collect_events(Algo::Merge, &mut arr, &keys);
    assert_eq!(
        events,
        vec![
            Event::Cmp { a: 0, b: 1 },
            Event::Write { idx: 0, value: 0 },
            Event::Write { idx: 1, value: 1 },
            Event::Write { idx: 0, value: 0 },
            Event::Write { idx: 1, value: 1 },
        ]
    );
}

#[test]
fn compute_events_leaves_base_alone() {
    let base = vec![4usize, 0, 3, 1, 2];
    let keys = index_keys(5);
    let events = compute_events(Algo::Heap, &base, &keys);
    assert_eq!(base, vec![4, 0, 3, 1, 2]);
    assert_eq!(replay(&base, &events), vec![0, 1, 2, 3, 4]);
}

#[test]
fn index_keys_are_identity() {
    assert_eq!(index_keys(4), vec![0u64, 1, 2, 3]);
    assert!(index_keys(0).is_empty());
}

#[test]
fn algo_names_and_cycle() {
    assert_eq!(Algo::Bubble.name(), "Bubble sort");
    assert_eq!(Algo::Quick.name(), "Quicksort");
    assert_eq!(Algo::Merge.code_str(), "merge");
    assert_eq!(Algo::Bubble.next(), Algo::Insertion);
    assert_eq!(Algo::Merge.next(), Algo::Bubble);
    assert_eq!(Algo::Bubble.prev(), Algo::Merge);
    for &a in &Algo::ALL {
        assert_eq!(a.next().prev(), a);
        assert_eq!(a.prev().next(), a);
        assert_eq!(Algo::from_code(a.code()), Some(a));
        assert_eq!(Algo::ALL[a.code() as usize], a);
    }
    assert_eq!(Algo::from_code(6), None);
    let mut a = Algo::Heap;
    for _ in 0..6 {
        a = a.next();
    }
    assert_eq!(a, Algo::Heap);
}

fn inversions(keys: &[u64], s: &[usize]) -> usize {
    let mut count = 0;
    for i in 0..s.len() {
        for j in i + 1..s.len() {
            if keys[s[j]] < keys[s[i]] {
                count += 1;
            }
        }
    }
    count
}

#[test]
fn elementary_swaps_remove_inversions() {
    let keys: Vec<u64> = vec![4, 1, 4, 0, 8, 2, 2, 9, 5, 3];
    let start: Vec<usize> = vec![9, 3, 7, 0, 5, 1, 8, 2, 6, 4];
    for &algo in &[Algo::Bubble, Algo::Insertion, Algo::Selection] {
        let mut arr = start.clone();
        let events = collect_events(algo, &mut arr, &keys);
        let mut vis = start.clone();
        let mut swaps = 0;
        for e in &events {
            if let Event::Swap { a, b } = *e {
                assert!(a < b, "{algo:?}: swap {a},{b} not ordered");
                if algo != Algo::Selection {
                    assert_eq!(b, a + 1);
                }
                assert!(keys[vis[b]] < keys[vis[a]], "{algo:?}: swap of an ordered pair");
                vis.swap(a, b);
                swaps += 1;
            }
        }
        if algo != Algo::Selection {
            // Adjacent swaps that each remove one inversion: exactly the inversion count.
            assert_eq!(swaps, inversions(&keys, &start), "{algo:?}");
        }
        assert_eq!(vis, arr);
    }
}

#[test]
fn index_sort_restores_the_image() {
    for &algo in &Algo::ALL {
        let base = shuffled(64, Some(3));
        let keys = index_keys(64);
        let events = compute_events(algo, &base, &keys);
        assert_eq!(replay(&base, &events), (0..64).collect::<Vec<usize>>(), "{algo:?}");
    }
}

#[test]
fn insertion_events_on_four_cells() {
    let mut arr = vec![2usize, 0, 3, 1];
    let keys = index_keys(4);
    let events = collect_events(Algo::Insertion, &mut arr, &keys);
    assert_eq!(
        events,
        vec![
            Event::Cmp { a: 0, b: 1 },
            Event::Swap { a: 0, b: 1 },
            Event::Cmp { a: 1, b: 2 },
            Event::Cmp { a: 2, b: 3 },
            Event::Swap { a: 2, b: 3 },
            Event::Cmp { a: 1, b: 2 },
            Event::Swap { a: 1, b: 2 },
            Event::Cmp { a: 0, b: 1 },
        ]
    );
    assert_eq!(arr, vec![0, 1, 2, 3]);
}

#[test]
fn selection_events_on_four_cells() {
    let mut arr = vec![2usize, 0, 3, 1];
    let keys = index_keys(4);
    let events = collect_events(Algo::Selection, &mut arr, &keys);
    assert_eq!(
        events,
        vec![
            Event::Cmp { a: 0, b: 1 },
            Event::Cmp { a: 1, b: 2 },
            Event::Cmp { a: 1, b: 3 },
            Event::Swap { a: 0, b: 1 },
            Event::Cmp { a: 1, b: 2 },
            Event::Cmp { a: 1, b: 3 },
            Event::Swap { a: 1, b: 3 },
            Event::Cmp { a: 2, b: 3 },
            Event::Swap { a: 2, b: 3 },
        ]
    );
    assert_eq!(arr, vec![0, 1, 2, 3]);
}

#[test]
fn quick_events_on_four_cells() {
    let mut arr = vec![2usize, 0, 3, 1];
    let keys = index_keys(4);
    let events = collect_events(Algo::Quick, &mut arr, &keys);
    assert_eq!(
        events,
        vec![
            Event::Cmp { a: 0, b: 3 },
            Event::Cmp { a: 1, b: 3 },
            Event::Swap { a: 0, b: 1 },
            Event::Cmp { a: 2, b: 3 },
            Event::Swap { a: 1, b: 3 },
            Event::Cmp { a: 2, b: 3 },
            Event::Swap { a: 2, b: 3 },
        ]
    );
    assert_eq!(arr, vec![0, 1, 2, 3]);
}

#[test]
fn heap_events_on_four_cells() {
    let mut arr = vec![2usize, 0, 3, 1];
    let keys = index_keys(4);
    let events = collect_events(Algo::Heap, &mut arr, &keys);
    assert_eq!(
        events,
        vec![
            Event::Cmp { a: 3, b: 1 },
            Event::Swap { a: 1, b: 3 },
            Event::Cmp { a: 1, b: 0 },
            Event::Cmp { a: 2, b: 0 },
            Event::Swap { a: 0, b: 2 },
            Event::Swap { a: 0, b: 3 },
            Event::Cmp { a: 1, b: 0 },
            Event::Cmp { a: 2, b: 1 },
            Event::Swap { a: 0, b: 2 },
            Event::Swap { a: 0, b: 2 },
            Event::Cmp { a: 1, b: 0 },
            Event::Swap { a: 0, b: 1 },
            Event::Swap { a: 0, b: 1 },
        ]
    );
    assert_eq!(arr, vec![0, 1, 2, 3]);
}

#[test]
fn merge_events_on_four_cells() {
    let mut arr = vec![2usize, 0, 3, 1];
    let keys = index_keys(4);
    let events = collect_events(Algo::Merge, &mut arr, &keys);
    assert_eq!(
        events,
        vec![
            Event::Cmp { a: 0, b: 1 },
            Event::Write { idx: 0, value: 0 },
            Event::Write { idx: 1, value: 2 },
            Event::Write { idx: 0, value: 0 },
            Event::Write { idx: 1, value: 2 },
            Event::Cmp { a: 2, b: 3 },
            Event::Write { idx: 2, value: 1 },
            Event::Write { idx: 3, value: 3 },
            Event::Write { idx: 2, value: 1 },
            Event::Write { idx: 3, value: 3 },
            Event::Cmp { a: 0, b: 2 },
            Event::Write { idx: 0, value: 0 },
            Event::Cmp { a: 1, b: 2 },
            Event::Write { idx: 1, value: 1 },
            Event::Cmp { a: 1, b: 3 },
            Event::Write { idx: 2, value: 2 },
            Event::Write { idx: 3, value: 3 },
            Event::Write { idx: 0, value: 0 },
            Event::Write { idx: 1, value: 1 },
            Event::Write { idx: 2, value: 2 },
            Event::Write { idx: 3, value: 3 },
        ]
    );
    assert_eq!(arr, vec![0, 1, 2, 3]);
}
