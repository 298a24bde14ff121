use sort_visualizer::animation::{Animation, Note, NoteKind};
use sort_visualizer::shuffle::shuffled;
use sort_visualizer::sort::{compute_events, index_keys, Algo, Event};

#[test]
fn seeded_shuffle_is_a_reproducible_permutation() {
    let a = shuffled(200, Some(42));
    let b = shuffled(200, Some(42));
    assert_eq!(a, b);
    let mut sorted = a.clone();
    sorted.sort();
    assert_eq!(sorted, (0..200).collect::<Vec<usize>>());
    // The shuffle really moves cells around.
    assert_ne!(a, (0..200).collect::<Vec<usize>>());
}

#[test]
fn unseeded_shuffle_is_a_permutation() {
    let mut v = shuffled(50, None);
    v.sort();
    assert_eq!(v, (0..50).collect::<Vec<usize>>());
    assert!(shuffled(0, None).is_empty());
}

#[test]
fn playback_reaches_the_sorted_arrangement() {
    let base = shuffled(30, Some(7));
    let keys = index_keys(30);
    let events = compute_events(Algo::Quick, &base, &keys);
    let total = events.len();
    let mut anim = Animation::new(Algo::Quick, base.clone(), events, 7, true);
    let mut frames = 0;
    while !anim.done {
        let before = anim.cursor;
        anim.advance();
        assert!(anim.cursor == before + 7 || anim.cursor == total);
        frames += 1;
    }
    assert_eq!(frames, (total + 6) / 7);
    assert_eq!(anim.data, (0..30).collect::<Vec<usize>>());
    assert_eq!(anim.cursor, total);
}

#[test]
fn playback_notes_and_highlight() {
    let base = vec![1usize, 0];
    let events = vec![Event::Cmp { a: 0, b: 1 }, Event::Swap { a: 0, b: 1 }, Event::Write { idx: 1, value: 1 }];
    let mut anim = Animation::new(Algo::Bubble, base, events, 2, false);
    let notes = anim.advance();
    assert_eq!(
        notes,
        vec![
            Note { cell: 1, kind: NoteKind::Compare },
            Note { cell: 0, kind: NoteKind::Compare },
            Note { cell: 1, kind: NoteKind::Swap },
            Note { cell: 0, kind: NoteKind::Swap },
        ]
    );
    assert_eq!(anim.data, vec![0, 1]);
    assert_eq!(anim.highlight, Some((0, 1)));
    assert!(!anim.done);
    let notes = anim.advance();
    assert_eq!(notes, vec![Note { cell: 1, kind: NoteKind::Write }]);
    assert_eq!(anim.highlight, Some((1, 1)));
    assert!(anim.done);
    // Further frames change nothing.
    assert!(anim.advance().is_empty());
    assert_eq!(anim.highlight, Some((1, 1)));
}

#[test]
fn paused_playback_stands_still() {
    let base = vec![1usize, 0];
    let events = vec![Event::Swap { a: 0, b: 1 }];
    let mut anim = Animation::new(Algo::Bubble, base, events, 1, false);
    anim.paused = true;
    assert!(anim.advance().is_empty());
    assert_eq!(anim.cursor, 0);
    assert_eq!(anim.data, vec![1, 0]);
    anim.paused = false;
    anim.advance();
    assert_eq!(anim.data, vec![0, 1]);
}

#[test]
fn restart_rewinds() {
    let mut anim = Animation::new(Algo::Bubble, vec![1, 0], vec![Event::Swap { a: 0, b: 1 }], 1, false);
    anim.advance();
    anim.restart(vec![0, 2, 1], vec![Event::Swap { a: 1, b: 2 }], None);
    assert_eq!(anim.cursor, 0);
    assert_eq!(anim.data, vec![0, 2, 1]);
    assert_eq!(anim.highlight, None);
    assert!(!anim.done);
    assert_eq!(anim.speed, 1);
    anim.restart(vec![0, 2, 1], vec![], Some(9));
    assert_eq!(anim.speed, 9);
}

#[test]
fn speed_keys() {
    let mut anim = Animation::new(Algo::Bubble, vec![0], vec![], 1, false);
    anim.slow_down();
    assert_eq!(anim.speed, 1);
    anim.speed_up();
    anim.speed_up();
    assert_eq!(anim.speed, 4);
    anim.slow_down();
    assert_eq!(anim.speed, 2);
    anim.speed = usize::MAX;
    anim.speed_up();
    assert_eq!(anim.speed, usize::MAX);
}
