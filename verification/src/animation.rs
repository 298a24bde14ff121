//! Frame-by-frame playback of a recorded event list.
//!
//! Each frame applies up to `speed` events to the on-screen arrangement and
//! reports the cells to highlight and the notes to play. The host draws the
//! arrangement, plays the notes and feeds key presses back in.

use vstd::prelude::*;
use crate::sort::{Algo, Event, apply_event, event_in_bounds, replay, swapped, lemma_replay_push};

verus! {

/// How loud a note is: comparisons are quiet blips, swaps loud, writes in
/// between.
#[derive(Clone, Copy, PartialEq, Eq, Debug, Structural)]
pub enum NoteKind {
    Compare,
    Swap,
    Write,
}

/// One tone to play: the cell whose sort key gives the pitch, and how loud.
#[derive(Clone, Copy, PartialEq, Eq, Debug, Structural)]
pub struct Note {
    pub cell: usize,
    pub kind: NoteKind,
}

/// Every event addresses a position below `n`.
pub open spec fn events_in_bounds(events: Seq<Event>, n: nat) -> bool {
    forall|i: int| 0 <= i < events.len() ==> event_in_bounds(#[trigger] events[i], n)
}

/// The notes for one event, given the arrangement before it: the two
/// compared or swapped cells (captured before they move), or the written
/// cell.
pub open spec fn notes_of(data: Seq<usize>, e: Event) -> Seq<Note> {
    match e {
        Event::Cmp { a, b } => seq![
            Note { cell: data[a as int], kind: NoteKind::Compare },
            Note { cell: data[b as int], kind: NoteKind::Compare },
        ],
        Event::Swap { a, b } => seq![
            Note { cell: data[a as int], kind: NoteKind::Swap },
            Note { cell: data[b as int], kind: NoteKind::Swap },
        ],
        Event::Write { value, .. } => seq![Note { cell: value, kind: NoteKind::Write }],
    }
}

/// The notes for applying `events` in order to `data`.
pub open spec fn frame_notes(data: Seq<usize>, events: Seq<Event>) -> Seq<Note>
    decreases events.len(),
{
    if events.len() == 0 {
        Seq::empty()
    } else {
        frame_notes(data, events.drop_last()) + notes_of(replay(data, events.drop_last()), events.last())
    }
}

/// The positions an event highlights.
pub open spec fn highlight_of(e: Event) -> (usize, usize) {
    match e {
        Event::Cmp { a, b } => (a, b),
        Event::Swap { a, b } => (a, b),
        Event::Write { idx, .. } => (idx, idx),
    }
}

/// Replaying two event lists one after the other is replaying their
/// concatenation.
pub proof fn lemma_replay_concat(base: Seq<usize>, first: Seq<Event>, second: Seq<Event>)
    ensures
        replay(replay(base, first), second) == replay(base, first + second),
    decreases second.len(),
{
    if second.len() == 0 {
        assert(first + second =~= first);
    } else {
        lemma_replay_concat(base, first, second.drop_last());
        assert((first + second).drop_last() =~= first + second.drop_last());
        assert((first + second).last() == second.last());
    }
}

/// `speed` after the speed-up key: doubled, saturating, at least one.
pub open spec fn faster(speed: usize) -> usize {
    let d = if speed as int * 2 > usize::MAX { usize::MAX } else { (speed * 2) as usize };
    if d >= 1 { d } else { 1 }
}

/// `speed` after the slow-down key: halved, at least one.
pub open spec fn slower(speed: usize) -> usize {
    if speed / 2 >= 1 { speed / 2 } else { 1 }
}

/// Playback state of one sort pane.
pub struct Animation {
    pub algo: Algo,
    /// Arrangement the events start from.
    pub base: Vec<usize>,
    /// The recorded events.
    pub events: Vec<Event>,
    /// Arrangement currently on screen.
    pub data: Vec<usize>,
    /// Number of events applied so far.
    pub cursor: usize,
    /// Events applied per frame.
    pub speed: usize,
    pub paused: bool,
    pub done: bool,
    /// Whether `base` is the seeded (and cacheable) shuffle.
    pub seeded_base: bool,
    /// Positions touched by the most recent event.
    pub highlight: Option<(usize, usize)>,
}

impl Animation {
    /// The screen shows exactly the base arrangement with the first
    /// `cursor` events applied, and every event stays on the grid.
    pub open spec fn wf(&self) -> bool {
        &&& self.data@.len() == self.base@.len()
        &&& self.cursor <= self.events@.len()
        &&& events_in_bounds(self.events@, self.base@.len())
        &&& self.data@ == replay(self.base@, self.events@.take(self.cursor as int))
    }

    /// A fresh, unpaused animation at its first event.
    pub fn new(algo: Algo, base: Vec<usize>, events: Vec<Event>, speed: usize, seeded_base: bool) -> (a: Animation)
        requires
            events_in_bounds(events@, base@.len()),
        ensures
            a.wf(),
            a.algo == algo,
            a.base@ == base@,
            a.events@ == events@,
            a.data@ == base@,
            a.cursor == 0,
            a.speed == speed,
            !a.paused,
            !a.done,
            a.seeded_base == seeded_base,
            a.highlight is None,
    {
        let data = base.clone();
        assert(events@.take(0) =~= Seq::<Event>::empty());
        Animation {
            algo,
            base,
            events,
            data,
            cursor: 0,
            speed,
            paused: false,
            done: false,
            seeded_base,
            highlight: None,
        }
    }

    /// Start over from `base` with a new event list; the speed is replaced
    /// only when `speed` is given.
    pub fn restart(&mut self, base: Vec<usize>, events: Vec<Event>, speed: Option<usize>)
        requires
            events_in_bounds(events@, base@.len()),
        ensures
            final(self).wf(),
            final(self).algo == old(self).algo,
            final(self).base@ == base@,
            final(self).events@ == events@,
            final(self).data@ == base@,
            final(self).cursor == 0,
            final(self).speed == (match speed {
                Some(s) => s,
                None => old(self).speed,
            }),
            final(self).paused == old(self).paused,
            !final(self).done,
            final(self).seeded_base == old(self).seeded_base,
            final(self).highlight is None,
    {
        self.data = base.clone();
        self.base = base;
        self.events = events;
        self.cursor = 0;
        self.done = false;
        self.highlight = None;
        if let Some(s) = speed {
            self.speed = s;
        }
        assert(self.events@.take(0) =~= Seq::<Event>::empty());
    }

    /// Double the speed (saturating).
    pub fn speed_up(&mut self)
        ensures
            final(self).speed == faster(old(self).speed),
            1 <= old(self).speed && 2 * old(self).speed <= usize::MAX ==> final(self).speed == 2 * old(self).speed,
            2 * old(self).speed > usize::MAX ==> final(self).speed == usize::MAX,
            old(self).speed == 0 ==> final(self).speed == 1,
            final(self).algo == old(self).algo,
            final(self).base == old(self).base,
            final(self).events == old(self).events,
            final(self).data == old(self).data,
            final(self).cursor == old(self).cursor,
            final(self).paused == old(self).paused,
            final(self).done == old(self).done,
            final(self).seeded_base == old(self).seeded_base,
            final(self).highlight == old(self).highlight,
    {
        let d = if self.speed > usize::MAX / 2 { usize::MAX } else { self.speed * 2 };
        self.speed = if d >= 1 { d } else { 1 };
    }

    /// Halve the speed, never below one event per frame.
    pub fn slow_down(&mut self)
        ensures
            final(self).speed == slower(old(self).speed),
            old(self).speed >= 2 ==> 2 * final(self).speed <= old(self).speed < 2 * final(self).speed + 2,
            old(self).speed <= 1 ==> final(self).speed == 1,
            final(self).algo == old(self).algo,
            final(self).base == old(self).base,
            final(self).events == old(self).events,
            final(self).data == old(self).data,
            final(self).cursor == old(self).cursor,
            final(self).paused == old(self).paused,
            final(self).done == old(self).done,
            final(self).seeded_base == old(self).seeded_base,
            final(self).highlight == old(self).highlight,
    {
        let h = self.speed / 2;
        self.speed = if h >= 1 { h } else { 1 };
    }

    /// Apply this frame's events: up to `speed` of them unless paused.
    /// Returns the notes to play for them.
    pub fn advance(&mut self) -> (notes: Vec<Note>)
        requires
            old(self).wf(),
        ensures
            final(self).wf(),
            final(self).algo == old(self).algo,
            final(self).base == old(self).base,
            final(self).events == old(self).events,
            final(self).speed == old(self).speed,
            final(self).paused == old(self).paused,
            final(self).seeded_base == old(self).seeded_base,
            final(self).cursor == (if old(self).paused {
                old(self).cursor as int
            } else if old(self).cursor + old(self).speed <= old(self).events@.len() {
                old(self).cursor + old(self).speed
            } else {
                old(self).events@.len() as int
            }),
            final(self).done == (final(self).cursor >= final(self).events@.len()),
            final(self).done ==> final(self).data@ == replay(final(self).base@, final(self).events@),
            notes@ == frame_notes(old(self).data@, old(self).events@.subrange(old(self).cursor as int, final(self).cursor as int)),
            final(self).highlight == (if final(self).cursor > old(self).cursor {
                Some(highlight_of(old(self).events@[final(self).cursor - 1]))
            } else {
                old(self).highlight
            }),
    {
        let mut notes: Vec<Note> = Vec::new();
        let len = self.events.len();
        let c0 = self.cursor;
        let ghost d0 = self.data@;
        if !self.paused {
            let remaining = len - c0;
            let steps = if self.speed < remaining { self.speed } else { remaining };
            let end = c0 + steps;
            let mut c = c0;
            assert(self.events@.subrange(c0 as int, c0 as int) =~= Seq::<Event>::empty());
            while c < end
                invariant
                    self.wf(),
                    len == self.events@.len(),
                    c0 <= c <= end <= len,
                    self.cursor == c,
                    self.events == old(self).events,
                    self.base == old(self).base,
                    self.speed == old(self).speed,
                    self.paused == old(self).paused,
                    self.algo == old(self).algo,
                    self.seeded_base == old(self).seeded_base,
                    d0 == replay(self.base@, self.events@.take(c0 as int)),
                    notes@ == frame_notes(d0, self.events@.subrange(c0 as int, c as int)),
                    self.highlight == (if c > c0 {
                        Some(highlight_of(self.events@[c - 1]))
                    } else {
                        old(self).highlight
                    }),
                decreases end - c,
            {
                let e = self.events[c];
                let ghost before = self.data@;
                proof {
                    let sub = self.events@.subrange(c0 as int, c as int);
                    lemma_replay_concat(self.base@, self.events@.take(c0 as int), sub);
                    assert(self.events@.take(c0 as int) + sub =~= self.events@.take(c as int));
                    assert(replay(d0, sub) == before);
                    assert(self.events@.subrange(c0 as int, c + 1).drop_last() =~= sub);
                    assert(self.events@.take(c + 1).drop_last() =~= self.events@.take(c as int));
                    lemma_replay_push(self.base@, self.events@.take(c as int), e);
                    assert(self.events@.take(c as int).push(e) =~= self.events@.take(c + 1));
                    assert(event_in_bounds(e, self.base@.len()));
                }
                match e {
                    Event::Cmp { a, b } => {
                        notes.push(Note { cell: self.data[a], kind: NoteKind::Compare });
                        notes.push(Note { cell: self.data[b], kind: NoteKind::Compare });
                        self.highlight = Some((a, b));
                    },
                    Event::Swap { a, b } => {
                        let x = self.data[a];
                        let y = self.data[b];
                        notes.push(Note { cell: x, kind: NoteKind::Swap });
                        notes.push(Note { cell: y, kind: NoteKind::Swap });
                        self.data.set(a, y);
                        self.data.set(b, x);
                        assert(self.data@ =~= swapped(before, a as int, b as int));
                        self.highlight = Some((a, b));
                    },
                    Event::Write { idx, value } => {
                        self.data.set(idx, value);
                        self.highlight = Some((idx, idx));
                        notes.push(Note { cell: value, kind: NoteKind::Write });
                    },
                }
                assert(self.data@ == apply_event(before, e));
                assert(notes@ =~= frame_notes(d0, self.events@.subrange(c0 as int, c + 1)));
                c += 1;
                self.cursor = c;
            }
        } else {
            assert(self.events@.subrange(c0 as int, c0 as int) =~= Seq::<Event>::empty());
        }
        self.done = self.cursor >= len;
        assert(self.events@.take(len as int) =~= self.events@);
        notes
    }
}

/// The notes of a single event: a compared or swapped pair sounds the two
/// cells as they stood before the event; a write sounds the cell written,
/// whatever the slot held before.
pub proof fn lemma_single_event_notes(data: Seq<usize>, e: Event)
    ensures
        e matches Event::Cmp { a, b } ==> frame_notes(data, seq![e]) == seq![
            Note { cell: data[a as int], kind: NoteKind::Compare },
            Note { cell: data[b as int], kind: NoteKind::Compare },
        ],
        e matches Event::Swap { a, b } ==> frame_notes(data, seq![e]) == seq![
            Note { cell: data[a as int], kind: NoteKind::Swap },
            Note { cell: data[b as int], kind: NoteKind::Swap },
        ],
        e matches Event::Write { idx, value } ==> frame_notes(data, seq![e]) == seq![
            Note { cell: value, kind: NoteKind::Write },
        ],
{
    let one = seq![e];
    assert(one.drop_last() =~= Seq::<Event>::empty());
    assert(one.last() == e);
    assert(replay(data, one.drop_last()) == data);
    assert(frame_notes(data, one.drop_last()) == Seq::<Note>::empty());
    assert(Seq::<Note>::empty() + notes_of(data, e) =~= notes_of(data, e));
    assert(frame_notes(data, one) == notes_of(data, e));
}

/// Playing two runs of events one after the other plays the notes of the
/// first, then those of the second on the arrangement the first left.
pub proof fn lemma_frame_notes_concat(data: Seq<usize>, first: Seq<Event>, second: Seq<Event>)
    ensures
        frame_notes(data, first + second) == frame_notes(data, first) + frame_notes(replay(data, first), second),
    decreases second.len(),
{
    if second.len() == 0 {
        assert(first + second =~= first);
        assert(frame_notes(data, first) + Seq::<Note>::empty() =~= frame_notes(data, first));
    } else {
        let init = second.drop_last();
        lemma_frame_notes_concat(data, first, init);
        lemma_replay_concat(data, first, init);
        assert((first + second).drop_last() =~= first + init);
        assert((first + second).last() == second.last());
        assert(frame_notes(data, first + second) =~= frame_notes(data, first) + frame_notes(replay(data, first), second));
    }
}

/// The note of a write does not depend on what the arrangement held: two
/// screens that differ anywhere play the same note for the same write.
pub proof fn lemma_write_note_ignores_screen(d1: Seq<usize>, d2: Seq<usize>, idx: usize, value: usize)
    ensures
        frame_notes(d1, seq![Event::Write { idx, value }]) == frame_notes(d2, seq![Event::Write { idx, value }]),
        frame_notes(d1, seq![Event::Write { idx, value }])[0].cell == value,
{
    lemma_single_event_notes(d1, Event::Write { idx, value });
    lemma_single_event_notes(d2, Event::Write { idx, value });
}

/// The slow-down key halves the speed, rounding down, and never goes below
/// one: every speed of two or more strictly drops.
pub proof fn lemma_slower_halves(speed: usize)
    ensures
        speed >= 2 ==> 2 * slower(speed) <= speed < 2 * slower(speed) + 2,
        speed >= 2 ==> slower(speed) < speed,
        speed <= 1 ==> slower(speed) == 1,
{
}

/// The speed-up key doubles the speed, saturating at the largest speed, and
/// lifts a zero speed to one.
pub proof fn lemma_faster_doubles(speed: usize)
    ensures
        1 <= speed && 2 * speed <= usize::MAX ==> faster(speed) == 2 * speed,
        2 * speed > usize::MAX ==> faster(speed) == usize::MAX,
        speed == 0 ==> faster(speed) == 1,
        faster(speed) >= speed,
{
}

/// Doubling and then halving the speed gives it back, for every speed that
/// doubling does not saturate.
pub proof fn lemma_speed_up_then_down(speed: usize)
    requires
        1 <= speed,
        speed as int * 2 <= usize::MAX,
    ensures
        slower(faster(speed)) == speed,
{
}

/// Speeds stay at least one event per frame.
pub proof fn lemma_speed_positive(speed: usize)
    ensures
        faster(speed) >= 1,
        slower(speed) >= 1,
{
}

} // verus!
