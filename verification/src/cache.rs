//! Binary cache format for seed-based visualizations.
//!
//! When a seed is given the whole pipeline is deterministic: the seeded
//! shuffle produces the base arrangement and running the chosen sort over it
//! produces an identical event list every time. That data (the shuffled
//! `base` plus the recorded `events`) is serialized into a little-endian
//! binary blob keyed by `(seed, image hash, grid size, algorithm, sort key)`:
//!
//! ```text
//! magic   "ISORTVC1"           8 bytes
//! version u32                   4 bytes
//! seed    u64                   8 bytes
//! image_hash u64                8 bytes
//! cols    u32                   4 bytes
//! rows    u32                   4 bytes
//! algo    u8                    1 byte
//! key     u8                    1 byte
//! n       u32                   4 bytes
//! base    n * u32               4*n bytes
//! events  u64 count             8 bytes
//!         count * (tag u8, a u32, b u32)
//! ```
//!
//! Every read is bounds-checked and validated against the expected header;
//! any mismatch (incl. a partially-written blob) is treated as a cache miss.

use vstd::prelude::*;
use crate::sort::{Event, event_in_bounds, writes_value_of};
use crate::bytes::{le_bytes, le_value, le_u32_at, le_u64_at, rd, rd_u32, rd_u64, push_le};
use crate::sort::Algo;
use crate::text::{decimal, hex_digits, push_decimal, push_hex, is_digit, pow16, lemma_decimal_digits,
    lemma_decimal_injective, lemma_hex_digits_shape, lemma_hex_digits_injective, lemma_split_at_stop,
    lemma_strip_prefix, lemma_strip_suffix};

verus! {

/// The first eight bytes of every cache blob: `"ISORTVC1"`.
pub const MAGIC: [u8; 8] = [0x49, 0x53, 0x4f, 0x52, 0x54, 0x56, 0x43, 0x31];

/// Version of the blob layout.
pub const VERSION: u32 = 1;

/// Number of bytes before the base arrangement.
pub const HEADER_LEN: usize = 42;

/// Identity of one cacheable visualization.
#[derive(Clone, Copy, Debug)]
pub struct CacheHeader {
    pub seed: u64,
    pub image_hash: u64,
    pub cols: u32,
    pub rows: u32,
    /// Algorithm id (`Algo::code()`), stable across runs.
    pub algo: u8,
    pub key: u8,
    pub n: u32,
}

/// The cached animation data.
pub struct Visualization {
    /// Initial (seeded-shuffled) arrangement: `base[i]` is the cell at slot `i`.
    pub base: Vec<usize>,
    /// The recorded sort events that take `base` to the sorted arrangement.
    pub events: Vec<Event>,
}

impl View for Visualization {
    type V = (Seq<usize>, Seq<Event>);

    open spec fn view(&self) -> (Seq<usize>, Seq<Event>) {
        (self.base@, self.events@)
    }
}

// ----------------------------------------------------------------- encoding

pub open spec fn header_bytes(h: CacheHeader) -> Seq<u8> {
    MAGIC@ + le_bytes(VERSION as nat, 4) + le_bytes(h.seed as nat, 8) + le_bytes(h.image_hash as nat, 8)
        + le_bytes(h.cols as nat, 4) + le_bytes(h.rows as nat, 4) + seq![h.algo] + seq![h.key]
        + le_bytes(h.n as nat, 4)
}

pub open spec fn event_tag(e: Event) -> u8 {
    match e {
        Event::Cmp { .. } => 0,
        Event::Swap { .. } => 1,
        Event::Write { .. } => 2,
    }
}

pub open spec fn event_first(e: Event) -> usize {
    match e {
        Event::Cmp { a, .. } => a,
        Event::Swap { a, .. } => a,
        Event::Write { idx, .. } => idx,
    }
}

pub open spec fn event_second(e: Event) -> usize {
    match e {
        Event::Cmp { b, .. } => b,
        Event::Swap { b, .. } => b,
        Event::Write { value, .. } => value,
    }
}

/// Nine bytes per event: the tag and both payload fields as `u32`
/// (truncated to 32 bits).
pub open spec fn event_bytes(e: Event) -> Seq<u8> {
    seq![event_tag(e)] + le_bytes(event_first(e) as u32 as nat, 4) + le_bytes(event_second(e) as u32 as nat, 4)
}

/// Four bytes per cell id (truncated to 32 bits).
pub open spec fn cells_bytes(cells: Seq<usize>) -> Seq<u8>
    decreases cells.len(),
{
    if cells.len() == 0 {
        Seq::empty()
    } else {
        cells_bytes(cells.drop_last()) + le_bytes(cells.last() as u32 as nat, 4)
    }
}

pub open spec fn events_bytes(events: Seq<Event>) -> Seq<u8>
    decreases events.len(),
{
    if events.len() == 0 {
        Seq::empty()
    } else {
        events_bytes(events.drop_last()) + event_bytes(events.last())
    }
}

/// The blob that `encode` produces.
pub open spec fn spec_encode(h: CacheHeader, base: Seq<usize>, events: Seq<Event>) -> Seq<u8> {
    header_bytes(h) + cells_bytes(base) + le_bytes(events.len(), 8) + events_bytes(events)
}

// ----------------------------------------------------------------- decoding

/// The blob starts with a header of this format that names `h`.
pub open spec fn header_matches(d: Seq<u8>, h: CacheHeader) -> bool {
    &&& d.len() >= HEADER_LEN
    &&& d.subrange(0, 8) == MAGIC@
    &&& le_u32_at(d, 8) == VERSION
    &&& le_u64_at(d, 12) == h.seed
    &&& le_u64_at(d, 20) == h.image_hash
    &&& le_u32_at(d, 28) == h.cols
    &&& le_u32_at(d, 32) == h.rows
    &&& d[36] == h.algo
    &&& d[37] == h.key
    &&& le_u32_at(d, 38) == h.n
}

/// The stored id of the cell at slot `i`.
pub open spec fn cell_value(d: Seq<u8>, i: int) -> nat {
    le_u32_at(d, HEADER_LEN + 4 * i)
}

/// All `n` stored cell ids are present and below `n`.
pub open spec fn cells_valid(d: Seq<u8>, n: nat) -> bool {
    &&& HEADER_LEN + 4 * n <= d.len()
    &&& forall|i: int| 0 <= i < n ==> #[trigger] cell_value(d, i) < n
}

/// Offset of the event count, after `n` cells.
pub open spec fn count_offset(n: nat) -> int {
    HEADER_LEN + 4 * n
}

/// Offset of the `i`-th stored event.
pub open spec fn event_offset(n: nat, i: int) -> int {
    count_offset(n) + 8 + 9 * i
}

/// The `i`-th stored event has a known tag and positions below `n`.
pub open spec fn event_valid(d: Seq<u8>, n: nat, i: int) -> bool {
    let q = event_offset(n, i);
    &&& d[q] <= 2
    &&& le_u32_at(d, q + 1) < n
    &&& le_u32_at(d, q + 5) < n
}

/// The `i`-th stored event.
pub open spec fn stored_event(d: Seq<u8>, n: nat, i: int) -> Event {
    let q = event_offset(n, i);
    let a = le_u32_at(d, q + 1) as usize;
    let b = le_u32_at(d, q + 5) as usize;
    if d[q] == 0 {
        Event::Cmp { a, b }
    } else if d[q] == 1 {
        Event::Swap { a, b }
    } else {
        Event::Write { idx: a, value: b }
    }
}

/// What `decode` makes of blob `d` when it expects header `h`.
pub open spec fn spec_decode(d: Seq<u8>, h: CacheHeader) -> Option<(Seq<usize>, Seq<Event>)> {
    let n = h.n as nat;
    let p = count_offset(n);
    if !header_matches(d, h) || !cells_valid(d, n) || d.len() < p + 8 {
        None
    } else {
        let count = le_u64_at(d, p);
        if count > usize::MAX || count * 9 > d.len() - p - 8 {
            None
        } else if !(forall|i: int| 0 <= i < count ==> #[trigger] event_valid(d, n, i)) {
            None
        } else {
            Some((
                Seq::new(n, |i: int| cell_value(d, i) as usize),
                Seq::new(count, |i: int| stored_event(d, n, i)),
            ))
        }
    }
}

pub open spec fn view_of(r: Option<Visualization>) -> Option<(Seq<usize>, Seq<Event>)> {
    match r {
        Some(v) => Some(v@),
        None => None,
    }
}

// ------------------------------------------------------------ exec codec

/// Serialize a visualization with its header. Cell ids and event positions
/// are stored as `u32`; the header's `n` is stored as given.
pub fn encode(header: &CacheHeader, base: &[usize], events: &[Event]) -> (buf: Vec<u8>)
    ensures
        buf@ == spec_encode(*header, base@, events@),
{
    let mut buf: Vec<u8> = Vec::new();
    let mut m: usize = 0;
    while m < 8
        invariant
            m <= 8,
            buf@ == MAGIC@.subrange(0, m as int),
        decreases 8 - m,
    {
        buf.push(MAGIC[m]);
        assert(buf@ =~= MAGIC@.subrange(0, m + 1));
        m += 1;
    }
    push_le(&mut buf, VERSION as u64, 4);
    push_le(&mut buf, header.seed, 8);
    push_le(&mut buf, header.image_hash, 8);
    push_le(&mut buf, header.cols as u64, 4);
    push_le(&mut buf, header.rows as u64, 4);
    buf.push(header.algo);
    buf.push(header.key);
    push_le(&mut buf, header.n as u64, 4);
    let ghost head = buf@;
    assert(head =~= header_bytes(*header));

    let mut i: usize = 0;
    while i < base.len()
        invariant
            i <= base@.len(),
            buf@ == head + cells_bytes(base@.take(i as int)),
        decreases base@.len() - i,
    {
        push_le(&mut buf, base[i] as u32 as u64, 4);
        assert(base@.take(i + 1).drop_last() =~= base@.take(i as int));
        assert(buf@ =~= head + cells_bytes(base@.take(i + 1)));
        i += 1;
    }
    assert(base@.take(base@.len() as int) =~= base@);
    let ghost mid = buf@;

    push_le(&mut buf, events.len() as u64, 8);
    let ghost counted = buf@;
    let mut j: usize = 0;
    while j < events.len()
        invariant
            j <= events@.len(),
            buf@ == counted + events_bytes(events@.take(j as int)),
        decreases events@.len() - j,
    {
        let (tag, a, b) = match events[j] {
            Event::Cmp { a, b } => (0u8, a, b),
            Event::Swap { a, b } => (1u8, a, b),
            Event::Write { idx, value } => (2u8, idx, value),
        };
        buf.push(tag);
        push_le(&mut buf, a as u32 as u64, 4);
        push_le(&mut buf, b as u32 as u64, 4);
        assert(events@.take(j + 1).drop_last() =~= events@.take(j as int));
        assert(buf@ =~= counted + events_bytes(events@.take(j + 1)));
        j += 1;
    }
    assert(events@.take(events@.len() as int) =~= events@);
    assert(buf@ =~= spec_encode(*header, base@, events@));
    buf
}

/// Parse a cached visualization, validating it fully against `expect`.
///
/// Returns `None` on format mismatches, a header other than `expect`, a
/// truncated blob, or any out-of-range index: every problem degenerates to
/// "compute and re-cache".
pub fn decode(data: &[u8], expect: &CacheHeader) -> (r: Option<Visualization>)
    ensures
        view_of(r) == spec_decode(data@, *expect),
{
    let ghost d = data@;
    let mut pos: usize = 0;
    let magic = match rd(data, &mut pos, 8) {
        Some(m) => m,
        None => return None,
    };
    let mut m: usize = 0;
    while m < 8
        invariant
            m <= 8,
            d == data@,
            magic@ == d.subrange(0, 8),
            magic@.len() == 8,
            forall|t: int| 0 <= t < m ==> magic@[t] == MAGIC@[t],
        decreases 8 - m,
    {
        if magic[m] != MAGIC[m] {
            assert(d.subrange(0, 8)[m as int] != MAGIC@[m as int]);
            return None;
        }
        m += 1;
    }
    assert(d.subrange(0, 8) =~= MAGIC@);
    let version = match rd_u32(data, &mut pos) {
        Some(v) => v,
        None => return None,
    };
    if version != VERSION {
        return None;
    }
    let seed = match rd_u64(data, &mut pos) {
        Some(v) => v,
        None => return None,
    };
    let image_hash = match rd_u64(data, &mut pos) {
        Some(v) => v,
        None => return None,
    };
    let cols = match rd_u32(data, &mut pos) {
        Some(v) => v,
        None => return None,
    };
    let rows = match rd_u32(data, &mut pos) {
        Some(v) => v,
        None => return None,
    };
    let algo = match rd(data, &mut pos, 1) {
        Some(b) => b[0],
        None => return None,
    };
    let key = match rd(data, &mut pos, 1) {
        Some(b) => b[0],
        None => return None,
    };
    let n = match rd_u32(data, &mut pos) {
        Some(v) => v,
        None => return None,
    };
    if seed != expect.seed || image_hash != expect.image_hash || cols != expect.cols || rows != expect.rows
        || algo != expect.algo || key != expect.key || n != expect.n {
        return None;
    }
    assert(header_matches(d, *expect));

    let n_us = n as usize;
    let mut base: Vec<usize> = Vec::new();
    let mut i: usize = 0;
    while i < n_us
        invariant
            d == data@,
            n_us == expect.n,
            header_matches(d, *expect),
            i <= n_us,
            pos == HEADER_LEN + 4 * i,
            pos <= d.len(),
            base@.len() == i,
            forall|t: int| 0 <= t < i ==> #[trigger] base@[t] == cell_value(d, t),
            forall|t: int| 0 <= t < i ==> #[trigger] cell_value(d, t) < n_us,
        decreases n_us - i,
    {
        let v = match rd_u32(data, &mut pos) {
            Some(v) => v as usize,
            None => return None,
        };
        if v >= n_us {
            assert(cell_value(d, i as int) == v);
            return None;
        }
        base.push(v);
        i += 1;
    }
    assert(cells_valid(d, n_us as nat));

    let remaining = data.len() - pos;
    let count = match rd_u64(data, &mut pos) {
        Some(c) => c,
        None => return None,
    };
    if count as u128 > usize::MAX as u128 {
        return None;
    }
    let count_us = count as usize;
    // Each event occupies 9 bytes (tag + two u32s); a count that big cannot
    // belong to this blob.
    if count_us > (remaining - 8) / 9 {
        assert(count * 9 > d.len() - count_offset(n_us as nat) - 8) by (nonlinear_arith)
            requires
                count_us > (remaining - 8) / 9,
                count == count_us,
                remaining == d.len() - count_offset(n_us as nat),
                remaining >= 8,
        ;
        return None;
    }
    assert(count * 9 <= d.len() - count_offset(n_us as nat) - 8) by (nonlinear_arith)
        requires
            count_us <= (remaining - 8) / 9,
            count == count_us,
            remaining == d.len() - count_offset(n_us as nat),
            remaining >= 8,
    ;

    let mut events: Vec<Event> = Vec::new();
    let mut j: usize = 0;
    while j < count_us
        invariant
            d == data@,
            n_us == expect.n,
            j <= count_us,
            count_us == count,
            header_matches(d, *expect),
            cells_valid(d, n_us as nat),
            d.len() >= count_offset(n_us as nat) + 8,
            count == le_u64_at(d, count_offset(n_us as nat)),
            count * 9 <= d.len() - count_offset(n_us as nat) - 8,
            pos == event_offset(n_us as nat, j as int),
            events@.len() == j,
            forall|t: int| 0 <= t < j ==> #[trigger] event_valid(d, n_us as nat, t),
            forall|t: int| 0 <= t < j ==> #[trigger] events@[t] == stored_event(d, n_us as nat, t),
        decreases count_us - j,
    {
        assert(pos + 9 <= d.len()) by (nonlinear_arith)
            requires
                pos == count_offset(n_us as nat) + 8 + 9 * j,
                j < count_us,
                count_us * 9 <= d.len() - count_offset(n_us as nat) - 8,
        ;
        let ghost q = pos as int;
        let tag = match rd(data, &mut pos, 1) {
            Some(b) => b[0],
            None => return None,
        };
        assert(tag == d[q]);
        let a = match rd_u32(data, &mut pos) {
            Some(v) => v as usize,
            None => return None,
        };
        let b = match rd_u32(data, &mut pos) {
            Some(v) => v as usize,
            None => return None,
        };
        assert(a == le_u32_at(d, q + 1));
        assert(b == le_u32_at(d, q + 5));
        assert(q == event_offset(n_us as nat, j as int));
        if a >= n_us || b >= n_us {
            assert(!event_valid(d, n_us as nat, j as int));
            return None;
        }
        let e = match tag {
            0 => Event::Cmp { a, b },
            1 => Event::Swap { a, b },
            2 => Event::Write { idx: a, value: b },
            _ => {
                assert(!event_valid(d, n_us as nat, j as int));
                return None;
            },
        };
        assert(event_valid(d, n_us as nat, j as int));
        assert(e == stored_event(d, n_us as nat, j as int));
        events.push(e);
        j += 1;
    }
    let r = Visualization { base, events };
    assert(r.base@ =~= Seq::new(n_us as nat, |t: int| cell_value(d, t) as usize));
    assert(r.events@ =~= Seq::new(count as nat, |t: int| stored_event(d, n_us as nat, t)));
    Some(r)
}

// ------------------------------------------------------------------- laws

/// Bytes `4 * i .. 4 * i + 4` of `b`.
pub open spec fn slot4(b: Seq<u8>, i: int) -> Seq<u8> {
    b.subrange(4 * i, 4 * i + 4)
}

/// Bytes `9 * i .. 9 * i + 9` of `b`.
pub open spec fn slot9(b: Seq<u8>, i: int) -> Seq<u8> {
    b.subrange(9 * i, 9 * i + 9)
}

/// Every payload field of the event is below `n`.
pub open spec fn event_fits(e: Event, n: nat) -> bool {
    event_first(e) < n && event_second(e) < n
}

/// The header fields of two headers agree.
pub open spec fn same_header(h1: CacheHeader, h2: CacheHeader) -> bool {
    &&& h1.seed == h2.seed
    &&& h1.image_hash == h2.image_hash
    &&& h1.cols == h2.cols
    &&& h1.rows == h2.rows
    &&& h1.algo == h2.algo
    &&& h1.key == h2.key
    &&& h1.n == h2.n
}

proof fn lemma_pow256_values()
    ensures
        crate::bytes::pow256(4) == 0x1_0000_0000,
        crate::bytes::pow256(8) == 0x1_0000_0000_0000_0000,
{
    reveal_with_fuel(crate::bytes::pow256, 9);
}

proof fn lemma_header_fields(h: CacheHeader, rest: Seq<u8>)
    ensures
        ({
            let d = header_bytes(h) + rest;
            &&& d.len() == HEADER_LEN + rest.len()
            &&& d.subrange(0, 8) == MAGIC@
            &&& le_u32_at(d, 8) == VERSION
            &&& le_u64_at(d, 12) == h.seed
            &&& le_u64_at(d, 20) == h.image_hash
            &&& le_u32_at(d, 28) == h.cols
            &&& le_u32_at(d, 32) == h.rows
            &&& d[36] == h.algo
            &&& d[37] == h.key
            &&& le_u32_at(d, 38) == h.n
            &&& d.subrange(HEADER_LEN as int, d.len() as int) == rest
        }),
{
    let d = header_bytes(h) + rest;
    crate::bytes::lemma_le_bytes_len(VERSION as nat, 4);
    crate::bytes::lemma_le_bytes_len(h.seed as nat, 8);
    crate::bytes::lemma_le_bytes_len(h.image_hash as nat, 8);
    crate::bytes::lemma_le_bytes_len(h.cols as nat, 4);
    crate::bytes::lemma_le_bytes_len(h.rows as nat, 4);
    crate::bytes::lemma_le_bytes_len(h.n as nat, 4);
    lemma_pow256_values();
    crate::bytes::lemma_le_roundtrip(VERSION as nat, 4);
    crate::bytes::lemma_le_roundtrip(h.seed as nat, 8);
    crate::bytes::lemma_le_roundtrip(h.image_hash as nat, 8);
    crate::bytes::lemma_le_roundtrip(h.cols as nat, 4);
    crate::bytes::lemma_le_roundtrip(h.rows as nat, 4);
    crate::bytes::lemma_le_roundtrip(h.n as nat, 4);
    assert(d.subrange(0, 8) =~= MAGIC@);
    assert(d.subrange(8, 12) =~= le_bytes(VERSION as nat, 4));
    assert(d.subrange(12, 20) =~= le_bytes(h.seed as nat, 8));
    assert(d.subrange(20, 28) =~= le_bytes(h.image_hash as nat, 8));
    assert(d.subrange(28, 32) =~= le_bytes(h.cols as nat, 4));
    assert(d.subrange(32, 36) =~= le_bytes(h.rows as nat, 4));
    assert(d.subrange(38, 42) =~= le_bytes(h.n as nat, 4));
    assert(d.subrange(HEADER_LEN as int, d.len() as int) =~= rest);
}

proof fn lemma_cells_bytes(cells: Seq<usize>)
    ensures
        cells_bytes(cells).len() == 4 * cells.len(),
        forall|i: int| 0 <= i < cells.len() ==> #[trigger] slot4(cells_bytes(cells), i) == le_bytes(cells[i] as u32 as nat, 4),
    decreases cells.len(),
{
    if cells.len() > 0 {
        let init = cells.drop_last();
        lemma_cells_bytes(init);
        crate::bytes::lemma_le_bytes_len(cells.last() as u32 as nat, 4);
        let b = cells_bytes(cells);
        assert forall|i: int| 0 <= i < cells.len() implies #[trigger] slot4(b, i) == le_bytes(cells[i] as u32 as nat, 4) by {
            if i < cells.len() - 1 {
                assert(slot4(b, i) =~= slot4(cells_bytes(init), i));
                assert(init[i] == cells[i]);
            } else {
                assert(slot4(b, i) =~= le_bytes(cells.last() as u32 as nat, 4));
            }
        }
    }
}

proof fn lemma_events_bytes(events: Seq<Event>)
    ensures
        events_bytes(events).len() == 9 * events.len(),
        forall|i: int| 0 <= i < events.len() ==> #[trigger] slot9(events_bytes(events), i) == event_bytes(events[i]),
    decreases events.len(),
{
    if events.len() > 0 {
        let init = events.drop_last();
        lemma_events_bytes(init);
        lemma_event_bytes_len(events.last());
        let b = events_bytes(events);
        assert forall|i: int| 0 <= i < events.len() implies #[trigger] slot9(b, i) == event_bytes(events[i]) by {
            if i < events.len() - 1 {
                assert(slot9(b, i) =~= slot9(events_bytes(init), i));
                assert(init[i] == events[i]);
            } else {
                assert(slot9(b, i) =~= event_bytes(events.last()));
            }
        }
    }
}

proof fn lemma_event_bytes_len(e: Event)
    ensures
        event_bytes(e).len() == 9,
{
    crate::bytes::lemma_le_bytes_len(event_first(e) as u32 as nat, 4);
    crate::bytes::lemma_le_bytes_len(event_second(e) as u32 as nat, 4);
}

/// Decoding the stored bytes of an event whose fields fit in 32 bits gives
/// the event back.
proof fn lemma_event_roundtrip(e: Event, n: nat)
    requires
        event_fits(e, n),
        n <= u32::MAX,
    ensures
        ({
            let b = event_bytes(e);
            &&& b[0] <= 2
            &&& le_value(b.subrange(1, 5)) == event_first(e)
            &&& le_value(b.subrange(5, 9)) == event_second(e)
            &&& b[0] == 0 ==> e == Event::Cmp { a: event_first(e), b: event_second(e) }
            &&& b[0] == 1 ==> e == Event::Swap { a: event_first(e), b: event_second(e) }
            &&& b[0] == 2 ==> e == Event::Write { idx: event_first(e), value: event_second(e) }
        }),
{
    let b = event_bytes(e);
    lemma_event_bytes_len(e);
    lemma_pow256_values();
    crate::bytes::lemma_le_roundtrip(event_first(e) as u32 as nat, 4);
    crate::bytes::lemma_le_roundtrip(event_second(e) as u32 as nat, 4);
    crate::bytes::lemma_le_bytes_len(event_first(e) as u32 as nat, 4);
    assert(b.subrange(1, 5) =~= le_bytes(event_first(e) as u32 as nat, 4));
    assert(b.subrange(5, 9) =~= le_bytes(event_second(e) as u32 as nat, 4));
}

/// Where the parts of an encoded blob lie.
proof fn lemma_encoding_layout(h: CacheHeader, base: Seq<usize>, events: Seq<Event>)
    requires
        events.len() <= usize::MAX,
    ensures
        ({
            let d = spec_encode(h, base, events);
            let p = HEADER_LEN + 4 * base.len();
            &&& d.len() == p + 8 + 9 * events.len()
            &&& d.subrange(0, HEADER_LEN as int) == header_bytes(h)
            &&& d.subrange(HEADER_LEN as int, p) == cells_bytes(base)
            &&& d.subrange(p, p + 8) == le_bytes(events.len(), 8)
            &&& d.subrange(p + 8, d.len() as int) == events_bytes(events)
            &&& le_u64_at(d, p) == events.len()
        }),
{
    let d = spec_encode(h, base, events);
    let p = HEADER_LEN + 4 * base.len();
    lemma_header_fields(h, Seq::empty());
    assert(header_bytes(h) + Seq::<u8>::empty() =~= header_bytes(h));
    lemma_cells_bytes(base);
    lemma_events_bytes(events);
    crate::bytes::lemma_le_bytes_len(events.len(), 8);
    lemma_pow256_values();
    crate::bytes::lemma_le_roundtrip(events.len(), 8);
    assert(d.subrange(0, HEADER_LEN as int) =~= header_bytes(h));
    assert(d.subrange(HEADER_LEN as int, p) =~= cells_bytes(base));
    assert(d.subrange(p, p + 8) =~= le_bytes(events.len(), 8));
    assert(d.subrange(p + 8, d.len() as int) =~= events_bytes(events));
}

proof fn lemma_roundtrip_cells(h: CacheHeader, base: Seq<usize>, events: Seq<Event>)
    requires
        base.len() == h.n,
        forall|i: int| 0 <= i < base.len() ==> #[trigger] base[i] < h.n,
        events.len() <= usize::MAX,
    ensures
        forall|i: int| 0 <= i < base.len() ==> #[trigger] cell_value(spec_encode(h, base, events), i) == base[i],
{
    let d = spec_encode(h, base, events);
    assert forall|i: int| 0 <= i < base.len() implies #[trigger] cell_value(d, i) == base[i] by {
        lemma_roundtrip_cell_at(h, base, events, i);
    }
}

proof fn lemma_roundtrip_cell_at(h: CacheHeader, base: Seq<usize>, events: Seq<Event>, i: int)
    requires
        0 <= i < base.len(),
        base[i] < h.n,
        events.len() <= usize::MAX,
    ensures
        cell_value(spec_encode(h, base, events), i) == base[i],
{
    let d = spec_encode(h, base, events);
    let cb = cells_bytes(base);
    lemma_encoding_layout(h, base, events);
    lemma_cells_bytes(base);
    lemma_pow256_values();
    let w = d.subrange(HEADER_LEN + 4 * i, HEADER_LEN + 4 * i + 4);
    assert(w =~= d.subrange(HEADER_LEN as int, HEADER_LEN + 4 * base.len()).subrange(4 * i, 4 * i + 4));
    assert(w =~= slot4(cb, i));
    crate::bytes::lemma_le_roundtrip(base[i] as u32 as nat, 4);
}

proof fn lemma_roundtrip_event_at(h: CacheHeader, base: Seq<usize>, events: Seq<Event>, i: int)
    requires
        base.len() == h.n,
        0 <= i < events.len(),
        event_fits(events[i], h.n as nat),
        events.len() <= usize::MAX,
    ensures
        event_valid(spec_encode(h, base, events), h.n as nat, i),
        stored_event(spec_encode(h, base, events), h.n as nat, i) == events[i],
{
    let n = h.n as nat;
    let d = spec_encode(h, base, events);
    let eb = events_bytes(events);
    let p = count_offset(n);
    lemma_encoding_layout(h, base, events);
    lemma_events_bytes(events);
    let q = event_offset(n, i);
    let b = event_bytes(events[i]);
    let w = d.subrange(q, q + 9);
    assert(w =~= d.subrange(p + 8, d.len() as int).subrange(9 * i, 9 * i + 9));
    assert(w =~= slot9(eb, i));
    lemma_event_roundtrip(events[i], n);
    assert(d[q] == w[0]);
    assert(d.subrange(q + 1, q + 5) =~= b.subrange(1, 5));
    assert(d.subrange(q + 5, q + 9) =~= b.subrange(5, 9));
}

proof fn lemma_roundtrip_events(h: CacheHeader, base: Seq<usize>, events: Seq<Event>)
    requires
        base.len() == h.n,
        forall|i: int| 0 <= i < events.len() ==> event_fits(#[trigger] events[i], h.n as nat),
        events.len() <= usize::MAX,
    ensures
        forall|i: int| 0 <= i < events.len() ==> #[trigger] event_valid(spec_encode(h, base, events), h.n as nat, i),
        forall|i: int| 0 <= i < events.len() ==> #[trigger] stored_event(spec_encode(h, base, events), h.n as nat, i) == events[i],
{
    let n = h.n as nat;
    let d = spec_encode(h, base, events);
    assert forall|i: int| 0 <= i < events.len() implies #[trigger] event_valid(d, n, i) by {
        lemma_roundtrip_event_at(h, base, events, i);
    }
    assert forall|i: int| 0 <= i < events.len() implies #[trigger] stored_event(d, n, i) == events[i] by {
        lemma_roundtrip_event_at(h, base, events, i);
    }
}

/// Decoding what `encode` wrote, against the same header, gives back the
/// base arrangement and the events, as long as every cell id and event
/// position is below the header's cell count.
pub proof fn lemma_roundtrip(h: CacheHeader, base: Seq<usize>, events: Seq<Event>)
    requires
        base.len() == h.n,
        forall|i: int| 0 <= i < base.len() ==> #[trigger] base[i] < h.n,
        forall|i: int| 0 <= i < events.len() ==> event_fits(#[trigger] events[i], h.n as nat),
        events.len() <= usize::MAX,
    ensures
        spec_decode(spec_encode(h, base, events), h) == Some((base, events)),
        spec_encode(h, base, events).len() == count_offset(h.n as nat) + 8 + 9 * events.len(),
        le_u64_at(spec_encode(h, base, events), count_offset(h.n as nat)) == events.len(),
{
    let n = h.n as nat;
    let d = spec_encode(h, base, events);
    let rest = cells_bytes(base) + le_bytes(events.len(), 8) + events_bytes(events);
    assert(d =~= header_bytes(h) + rest);
    lemma_header_fields(h, rest);
    lemma_encoding_layout(h, base, events);
    lemma_roundtrip_cells(h, base, events);
    lemma_roundtrip_events(h, base, events);
    assert(header_matches(d, h));
    assert(cells_valid(d, n));
    assert(Seq::new(n, |i: int| cell_value(d, i) as usize) =~= base);
    assert(Seq::new(events.len(), |i: int| stored_event(d, n, i)) =~= events);
}

/// A blob written for one header is a miss for any header that differs
/// from it in some field.
pub proof fn lemma_header_mismatch(h: CacheHeader, base: Seq<usize>, events: Seq<Event>, other: CacheHeader)
    requires
        !same_header(h, other),
    ensures
        spec_decode(spec_encode(h, base, events), other) is None,
{
    let rest = cells_bytes(base) + le_bytes(events.len(), 8) + events_bytes(events);
    assert(spec_encode(h, base, events) =~= header_bytes(h) + rest);
    lemma_header_fields(h, rest);
}

/// Any strict prefix of a blob whose event count, read where the header's
/// cell count puts it, accounts exactly for the blob's length (such as a
/// partially written file) is a miss, whatever the rest of the blob holds.
pub proof fn lemma_truncated(d: Seq<u8>, h: CacheHeader, k: int)
    requires
        d.len() == count_offset(h.n as nat) + 8 + 9 * le_u64_at(d, count_offset(h.n as nat)),
        0 <= k < d.len(),
    ensures
        spec_decode(d.take(k), h) is None,
{
    let n = h.n as nat;
    let t = d.take(k);
    let p = count_offset(n);
    let count = le_u64_at(d, p);
    if k >= p + 8 {
        assert(t.subrange(p, p + 8) =~= d.subrange(p, p + 8));
        assert(le_u64_at(t, p) == count);
        assert(count * 9 > t.len() - p - 8);
    }
}

/// A blob that `encode` wrote for a base of the header's cell count, cut
/// short anywhere, is a miss, whatever cell ids and events it holds.
pub proof fn lemma_truncated_encoding(h: CacheHeader, base: Seq<usize>, events: Seq<Event>, k: int)
    requires
        base.len() == h.n,
        events.len() <= usize::MAX,
        0 <= k < spec_encode(h, base, events).len(),
    ensures
        spec_decode(spec_encode(h, base, events).take(k), h) is None,
{
    lemma_encoding_layout(h, base, events);
    lemma_truncated(spec_encode(h, base, events), h, k);
}

// ------------------------------------------------------------- file names

/// FNV-1a offset basis (64-bit).
pub const FNV_OFFSET: u64 = 0xcbf2_9ce4_8422_2325;

/// FNV-1a prime (64-bit).
pub const FNV_PRIME: u64 = 0x100_0000_01b3;

/// 64-bit FNV-1a hash of `bytes`.
pub open spec fn spec_fnv1a(bytes: Seq<u8>) -> u64
    decreases bytes.len(),
{
    if bytes.len() == 0 {
        FNV_OFFSET
    } else {
        (spec_fnv1a(bytes.drop_last()) ^ (bytes.last() as u64)).wrapping_mul(FNV_PRIME)
    }
}

/// 64-bit FNV-1a hash, used to key the cache by image content.
pub fn fnv1a(bytes: &[u8]) -> (h: u64)
    ensures
        h == spec_fnv1a(bytes@),
{
    let mut h: u64 = FNV_OFFSET;
    let mut i: usize = 0;
    while i < bytes.len()
        invariant
            i <= bytes@.len(),
            h == spec_fnv1a(bytes@.take(i as int)),
        decreases bytes@.len() - i,
    {
        assert(bytes@.take(i + 1).drop_last() =~= bytes@.take(i as int));
        h ^= bytes[i] as u64;
        h = h.wrapping_mul(FNV_PRIME);
        i += 1;
    }
    assert(bytes@.take(bytes@.len() as int) =~= bytes@);
    h
}

/// Inverse of the FNV prime modulo `2^64`.
pub const FNV_PRIME_INVERSE: u64 = 0xce96_5057_aff6_957b;

/// Multiplying by the FNV prime modulo `2^64` is undone by multiplying by
/// its inverse.
proof fn lemma_prime_step_undone(x: u64)
    ensures
        (x.wrapping_mul(FNV_PRIME) as int * FNV_PRIME_INVERSE as int) % 0x1_0000_0000_0000_0000 == x,
{
    let m: int = 0x1_0000_0000_0000_0000;
    let y: int = x as int * 0x100_0000_01b3;
    assert(x.wrapping_mul(FNV_PRIME) as int == y % m);
    vstd::arithmetic::div_mod::lemma_mul_mod_noop_left(y, 0xce96_5057_aff6_957b, m);
    assert(y * 0xce96_5057_aff6_957b == m * (x as int * 887285111055) + x) by (nonlinear_arith)
        requires
            y == x as int * 0x100_0000_01b3,
            m == 0x1_0000_0000_0000_0000,
    ;
    vstd::arithmetic::div_mod::lemma_mod_multiples_vanish(x as int * 887285111055, x as int, m);
    vstd::arithmetic::div_mod::lemma_small_mod(x as nat, m as nat);
}

/// One FNV-1a step sends different states to different states.
proof fn lemma_fnv_step_injective(x: u64, y: u64)
    requires
        x != y,
    ensures
        x.wrapping_mul(FNV_PRIME) != y.wrapping_mul(FNV_PRIME),
{
    lemma_prime_step_undone(x);
    lemma_prime_step_undone(y);
}

/// Changing exactly one byte of the input always changes the FNV-1a hash.
pub proof fn lemma_fnv1a_detects_one_byte(s: Seq<u8>, t: Seq<u8>, i: int)
    requires
        s.len() == t.len(),
        0 <= i < s.len(),
        s[i] != t[i],
        forall|j: int| 0 <= j < s.len() && j != i ==> s[j] == t[j],
    ensures
        spec_fnv1a(s) != spec_fnv1a(t),
    decreases s.len(),
{
    let hs = spec_fnv1a(s.drop_last());
    let ht = spec_fnv1a(t.drop_last());
    let bs = s.last() as u64;
    let bt = t.last() as u64;
    if i == s.len() - 1 {
        assert(s.drop_last() =~= t.drop_last());
        assert(bs != bt);
        assert(hs ^ bs != hs ^ bt) by (bit_vector)
            requires
                bs != bt,
        ;
        lemma_fnv_step_injective(hs ^ bs, ht ^ bt);
    } else {
        lemma_fnv1a_detects_one_byte(s.drop_last(), t.drop_last(), i);
        assert(bs == bt);
        assert(hs ^ bs != ht ^ bt) by (bit_vector)
            requires
                hs != ht,
                bs == bt,
        ;
        lemma_fnv_step_injective(hs ^ bs, ht ^ bt);
    }
}

pub open spec fn spec_key_name(code: u8) -> Seq<char> {
    if code == 0 {
        "index"@
    } else {
        "luma"@
    }
}

pub open spec fn spec_algo_name(code: u8) -> Seq<char> {
    match Algo::spec_from_code(code) {
        Some(a) => a.spec_code_str(),
        None => "unknown"@,
    }
}

/// Sort-key name for cache file names.
fn key_name(code: u8) -> (s: &'static str)
    ensures
        s@ == spec_key_name(code),
{
    if code == 0 {
        "index"
    } else {
        "luma"
    }
}

/// Algorithm display name for cache file names (bubble, insertion, ...).
fn algo_name(code: u8) -> (s: &'static str)
    ensures
        s@ == spec_algo_name(code),
{
    match Algo::from_code(code) {
        Some(a) => a.code_str(),
        None => "unknown",
    }
}

/// Directory (below the cache root) that holds the blobs of one image: the
/// image hash as sixteen lower-case hex digits.
pub open spec fn spec_dir_name(h: CacheHeader) -> Seq<char> {
    hex_digits(h.image_hash as nat, 16)
}

/// File name of the blob for `h`: `s{seed}_c{cols}x{rows}_a{algo}_k{key}.bin`.
pub open spec fn spec_file_name(h: CacheHeader) -> Seq<char> {
    "s"@ + decimal(h.seed as nat) + "_c"@ + decimal(h.cols as nat) + "x"@ + decimal(h.rows as nat)
        + "_a"@ + spec_algo_name(h.algo) + "_k"@ + spec_key_name(h.key) + ".bin"@
}

/// `name` appended to the directory `dir` as a path component (`/` is the
/// separator; an empty `dir` yields `name` alone, and no separator is doubled).
pub open spec fn join_path(dir: Seq<char>, name: Seq<char>) -> Seq<char> {
    if dir.len() == 0 {
        name
    } else if dir.last() == '/' {
        dir + name
    } else {
        dir + seq!['/'] + name
    }
}

pub fn cache_dir_name(header: &CacheHeader) -> (s: String)
    ensures
        s@ == spec_dir_name(*header),
{
    let mut s = String::new();
    push_hex(&mut s, header.image_hash, 16);
    assert(s@ =~= spec_dir_name(*header));
    s
}

pub fn cache_file_name(header: &CacheHeader) -> (s: String)
    ensures
        s@ == spec_file_name(*header),
{
    let mut s = String::new();
    s.append("s");
    push_decimal(&mut s, header.seed);
    s.append("_c");
    push_decimal(&mut s, header.cols as u64);
    s.append("x");
    push_decimal(&mut s, header.rows as u64);
    s.append("_a");
    s.append(algo_name(header.algo));
    s.append("_k");
    s.append(key_name(header.key));
    s.append(".bin");
    assert(s@ =~= spec_file_name(*header));
    s
}

fn join(dir: &str, name: &str) -> (s: String)
    ensures
        s@ == join_path(dir@, name@),
{
    let mut s = String::from_str(dir);
    let len = dir.unicode_len();
    if len > 0 && dir.get_char(len - 1) != '/' {
        s.append("/");
        proof {
            reveal_strlit("/");
        }
    }
    s.append(name);
    assert(s@ =~= join_path(dir@, name@));
    s
}

/// Full path of the cache blob for a header, below the cache root `dir`.
pub fn cache_path(dir: &str, header: &CacheHeader) -> (p: String)
    ensures
        p@ == join_path(join_path(dir@, spec_dir_name(*header)), spec_file_name(*header)),
{
    let sub = cache_dir_name(header);
    let file = cache_file_name(header);
    let d = join(dir, sub.as_str());
    join(d.as_str(), file.as_str())
}

/// The directory name ends in a hexadecimal digit, so the path of a blob is
/// the cache root's part, the directory name, `/` and the file name.
proof fn lemma_path_parts(dir: Seq<char>, h: CacheHeader)
    ensures
        ({
            let pre = if dir.len() == 0 { dir } else if dir.last() == '/' { dir } else { dir + seq!['/'] };
            join_path(join_path(dir, spec_dir_name(h)), spec_file_name(h))
                == pre + spec_dir_name(h) + seq!['/'] + spec_file_name(h)
        }),
        spec_dir_name(h).len() == 16,
{
    lemma_hex_digits_shape(h.image_hash as nat, 16);
    let pre = if dir.len() == 0 { dir } else if dir.last() == '/' { dir } else { dir + seq!['/'] };
    let x = join_path(dir, spec_dir_name(h));
    assert(x =~= pre + spec_dir_name(h));
    assert(x.last() == spec_dir_name(h)[15]);
    assert(x.last() != '/');
    assert(join_path(x, spec_file_name(h)) =~= pre + spec_dir_name(h) + seq!['/'] + spec_file_name(h));
}

/// A decimal field followed by a non-digit reads back unambiguously.
proof fn lemma_decimal_field(x: nat, y: nat, r1: Seq<char>, r2: Seq<char>)
    requires
        decimal(x) + r1 == decimal(y) + r2,
        r1.len() > 0,
        !is_digit(r1[0]),
        r2.len() > 0,
        !is_digit(r2[0]),
    ensures
        x == y,
        r1 == r2,
{
    let not_digit = |c: char| !is_digit(c);
    lemma_decimal_digits(x);
    lemma_decimal_digits(y);
    lemma_split_at_stop(decimal(x), r1, decimal(y), r2, not_digit);
    lemma_decimal_injective(x, y);
}

/// No algorithm name holds an underscore.
proof fn lemma_algo_name_plain(code: u8)
    ensures
        forall|i: int| 0 <= i < spec_algo_name(code).len() ==> #[trigger] spec_algo_name(code)[i] != '_',
{
    reveal_strlit("bubble");
    reveal_strlit("insertion");
    reveal_strlit("selection");
    reveal_strlit("quick");
    reveal_strlit("heap");
    reveal_strlit("merge");
    reveal_strlit("unknown");
}

/// The algorithm and key part of a file name reads back unambiguously.
proof fn lemma_algo_key_field(h1: CacheHeader, h2: CacheHeader)
    requires
        spec_algo_name(h1.algo) + ("_k"@ + (spec_key_name(h1.key) + ".bin"@))
            == spec_algo_name(h2.algo) + ("_k"@ + (spec_key_name(h2.key) + ".bin"@)),
    ensures
        spec_algo_name(h1.algo) == spec_algo_name(h2.algo),
        (h1.key == 0) == (h2.key == 0),
{
    reveal_strlit("_k");
    reveal_strlit("index");
    reveal_strlit("luma");
    let underscore = |c: char| c == '_';
    let key1 = spec_key_name(h1.key) + ".bin"@;
    let key2 = spec_key_name(h2.key) + ".bin"@;
    lemma_algo_name_plain(h1.algo);
    lemma_algo_name_plain(h2.algo);
    assert forall|i: int| 0 <= i < spec_algo_name(h1.algo).len() implies !underscore(#[trigger] spec_algo_name(h1.algo)[i]) by {}
    assert forall|i: int| 0 <= i < spec_algo_name(h2.algo).len() implies !underscore(#[trigger] spec_algo_name(h2.algo)[i]) by {}
    lemma_split_at_stop(spec_algo_name(h1.algo), "_k"@ + key1, spec_algo_name(h2.algo), "_k"@ + key2, underscore);
    lemma_strip_prefix("_k"@, key1, key2);
    lemma_strip_suffix(spec_key_name(h1.key), spec_key_name(h2.key), ".bin"@);
}

/// The separators of a file name start with a character that is no digit.
proof fn lemma_separators()
    ensures
        "_c"@.len() == 2 && !is_digit("_c"@[0]),
        "x"@.len() == 1 && !is_digit("x"@[0]),
        "_a"@.len() == 2 && !is_digit("_a"@[0]),
{
    reveal_strlit("_c");
    reveal_strlit("x");
    reveal_strlit("_a");
}

/// The file name as its first separator followed by the nested fields.
proof fn lemma_file_name_shape(h: CacheHeader)
    ensures
        spec_file_name(h) == "s"@ + (decimal(h.seed as nat) + ("_c"@ + (decimal(h.cols as nat) + ("x"@
            + (decimal(h.rows as nat) + ("_a"@ + (spec_algo_name(h.algo) + ("_k"@ + (spec_key_name(h.key)
            + ".bin"@))))))))),
{
    assert(spec_file_name(h) =~= "s"@ + (decimal(h.seed as nat) + ("_c"@ + (decimal(h.cols as nat) + ("x"@
            + (decimal(h.rows as nat) + ("_a"@ + (spec_algo_name(h.algo) + ("_k"@ + (spec_key_name(h.key)
            + ".bin"@))))))))));
}

/// A file name read back: the seed, the grid size, the algorithm's name and
/// the sort-key class.
proof fn lemma_file_name_identifies(h1: CacheHeader, h2: CacheHeader)
    requires
        spec_file_name(h1) == spec_file_name(h2),
    ensures
        h1.seed == h2.seed,
        h1.cols == h2.cols,
        h1.rows == h2.rows,
        (h1.key == 0) == (h2.key == 0),
        spec_algo_name(h1.algo) == spec_algo_name(h2.algo),
{
    lemma_separators();
    let algo1 = spec_algo_name(h1.algo) + ("_k"@ + (spec_key_name(h1.key) + ".bin"@));
    let algo2 = spec_algo_name(h2.algo) + ("_k"@ + (spec_key_name(h2.key) + ".bin"@));
    let rows1 = decimal(h1.rows as nat) + ("_a"@ + algo1);
    let rows2 = decimal(h2.rows as nat) + ("_a"@ + algo2);
    let cols1 = decimal(h1.cols as nat) + ("x"@ + rows1);
    let cols2 = decimal(h2.cols as nat) + ("x"@ + rows2);
    let seed1 = decimal(h1.seed as nat) + ("_c"@ + cols1);
    let seed2 = decimal(h2.seed as nat) + ("_c"@ + cols2);
    lemma_file_name_shape(h1);
    lemma_file_name_shape(h2);
    lemma_strip_prefix("s"@, seed1, seed2);
    lemma_decimal_field(h1.seed as nat, h2.seed as nat, "_c"@ + cols1, "_c"@ + cols2);
    lemma_strip_prefix("_c"@, cols1, cols2);
    lemma_decimal_field(h1.cols as nat, h2.cols as nat, "x"@ + rows1, "x"@ + rows2);
    lemma_strip_prefix("x"@, rows1, rows2);
    lemma_decimal_field(h1.rows as nat, h2.rows as nat, "_a"@ + algo1, "_a"@ + algo2);
    lemma_strip_prefix("_a"@, algo1, algo2);
    lemma_algo_key_field(h1, h2);
}

/// Blobs stored under the same path belong to headers with the same seed,
/// image hash, grid size, algorithm name and sort-key class.
pub proof fn lemma_cache_path_identifies(dir: Seq<char>, h1: CacheHeader, h2: CacheHeader)
    requires
        join_path(join_path(dir, spec_dir_name(h1)), spec_file_name(h1))
            == join_path(join_path(dir, spec_dir_name(h2)), spec_file_name(h2)),
    ensures
        h1.seed == h2.seed,
        h1.image_hash == h2.image_hash,
        h1.cols == h2.cols,
        h1.rows == h2.rows,
        (h1.key == 0) == (h2.key == 0),
        spec_algo_name(h1.algo) == spec_algo_name(h2.algo),
{
    lemma_path_parts(dir, h1);
    lemma_path_parts(dir, h2);
    let pre = if dir.len() == 0 { dir } else if dir.last() == '/' { dir } else { dir + seq!['/'] };
    let a = spec_dir_name(h1) + seq!['/'] + spec_file_name(h1);
    let b = spec_dir_name(h2) + seq!['/'] + spec_file_name(h2);
    assert(pre + spec_dir_name(h1) + seq!['/'] + spec_file_name(h1) =~= pre + a);
    assert(pre + spec_dir_name(h2) + seq!['/'] + spec_file_name(h2) =~= pre + b);
    lemma_strip_prefix(pre, a, b);
    assert(spec_dir_name(h1) =~= a.subrange(0, 16));
    assert(spec_dir_name(h2) =~= b.subrange(0, 16));
    assert(spec_file_name(h1) =~= a.subrange(17, a.len() as int));
    assert(spec_file_name(h2) =~= b.subrange(17, b.len() as int));
    assert(pow16(16) == 0x1_0000_0000_0000_0000) by {
        reveal_with_fuel(pow16, 17);
    }
    lemma_hex_digits_injective(h1.image_hash as nat, h2.image_hash as nat, 16);
    lemma_file_name_identifies(h1, h2);
}

/// Headers that name different algorithms get different cache paths, so no
/// algorithm's blob can be taken for another's.
pub proof fn lemma_cache_path_separates_algorithms(dir: Seq<char>, h1: CacheHeader, h2: CacheHeader)
    requires
        h1.algo < 6,
        h2.algo < 6,
        h1.algo != h2.algo,
    ensures
        join_path(join_path(dir, spec_dir_name(h1)), spec_file_name(h1))
            != join_path(join_path(dir, spec_dir_name(h2)), spec_file_name(h2)),
{
    if join_path(join_path(dir, spec_dir_name(h1)), spec_file_name(h1))
        == join_path(join_path(dir, spec_dir_name(h2)), spec_file_name(h2)) {
        lemma_cache_path_identifies(dir, h1, h2);
        let a1 = Algo::spec_from_code(h1.algo)->Some_0;
        let a2 = Algo::spec_from_code(h2.algo)->Some_0;
        crate::sort::lemma_code_str_injective(a1, a2);
        assert(a1 == a2);
    }
}

/// A visualization as the sorts record it (cell ids below `n`, events on
/// the grid, writes of cells taken from the base arrangement) comes back
/// unchanged from its cache blob.
pub proof fn lemma_recorded_visualization_roundtrips(h: CacheHeader, base: Seq<usize>, events: Seq<Event>)
    requires
        base.len() == h.n,
        forall|i: int| 0 <= i < base.len() ==> #[trigger] base[i] < h.n,
        forall|i: int| 0 <= i < events.len() ==> event_in_bounds(#[trigger] events[i], base.len()),
        forall|i: int| 0 <= i < events.len() ==> writes_value_of(#[trigger] events[i], base),
        events.len() <= usize::MAX,
    ensures
        spec_decode(spec_encode(h, base, events), h) == Some((base, events)),
{
    assert forall|i: int| 0 <= i < events.len() implies event_fits(#[trigger] events[i], h.n as nat) by {
        assert(event_in_bounds(events[i], base.len()));
        assert(writes_value_of(events[i], base));
        if let Event::Write { idx, value } = events[i] {
            let k = choose|k: int| 0 <= k < base.len() && base[k] == value;
            assert(base[k] < h.n);
        }
    }
    lemma_roundtrip(h, base, events);
}

} // verus!
