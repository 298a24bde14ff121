//! Scheduling of the procedural sorting sounds.
//!
//! Every sorting event maps to one or more short decaying sine tones whose
//! pitch is derived from the values being acted on. All tones of one
//! animation frame are mixed into one short buffer. The synthesis itself is
//! floating point and lives with the audio output; this module holds its
//! integer parameters and the decisions taken before a buffer is rendered.

use vstd::prelude::*;

verus! {

/// Sample rate of the synthesized audio (mono), in Hz.
pub const SAMPLE_RATE: u32 = 48_000;

/// Lowest pitch of the scale, in Hz (a fairly low, non-muddy A).
pub const BASE_FREQ_HZ: u32 = 220;

/// Each sort key maps to a pitch spanning this many octaves upward (A3 to A6).
pub const OCTAVES: u32 = 3;

/// Length of a mixed per-frame buffer, in milliseconds.
pub const FRAME_MILLIS: u32 = 60;

/// Peak amplitude of a single tone, in percent of full scale.
pub const AMP_PERCENT: u32 = 30;

/// Cap on how many unplayed frame buffers may be queued for one pane. When
/// the output falls behind, new frames are dropped rather than accumulating
/// latency.
pub const MAX_QUEUED_FRAMES: usize = 5;

/// If a frame produced more tones than this, the tones are subsampled evenly
/// (first and last kept).
pub const MAX_TONES_PER_FRAME: usize = 16;

/// Number of samples in one frame buffer.
pub fn frame_sample_count() -> (n: usize)
    ensures
        n == SAMPLE_RATE * FRAME_MILLIS / 1000,
        n == 2880,
{
    (SAMPLE_RATE as usize) * (FRAME_MILLIS as usize) / 1000
}

/// Whether a frame with `tone_count` tones is rendered: not when muted, not
/// when silent, and not when `queued` buffers already wait to be played.
pub fn should_render(muted: bool, tone_count: usize, queued: usize) -> (b: bool)
    ensures
        b == (!muted && tone_count > 0 && queued < MAX_QUEUED_FRAMES),
{
    !muted && tone_count > 0 && queued < MAX_QUEUED_FRAMES
}

/// Index of the `i`-th kept tone out of `count`.
pub open spec fn sample_index(i: int, count: int) -> int {
    if count > MAX_TONES_PER_FRAME {
        (i * (count - 1)) / ((MAX_TONES_PER_FRAME - 1) as int)
    } else {
        i
    }
}

/// Number of tones kept out of `count`.
pub open spec fn sample_len(count: int) -> int {
    if count > MAX_TONES_PER_FRAME { MAX_TONES_PER_FRAME as int } else { count }
}

proof fn lemma_sample_index(i: int, count: int)
    requires
        count > MAX_TONES_PER_FRAME,
        0 <= i < MAX_TONES_PER_FRAME,
    ensures
        0 <= sample_index(i, count) < count,
        i + 1 < MAX_TONES_PER_FRAME ==> sample_index(i, count) < sample_index(i + 1, count),
{
    let c = count - 1;
    assert(0 <= (i * c) / 15 <= c) by (nonlinear_arith)
        requires
            0 <= i <= 15,
            c >= 16,
    ;
    if i + 1 < MAX_TONES_PER_FRAME {
        assert((i * c) / 15 < ((i + 1) * c) / 15) by (nonlinear_arith)
            requires
                0 <= i,
                c >= 16,
        ;
    }
}

/// Keep at most `MAX_TONES_PER_FRAME` tones, evenly spread over `tones`;
/// short lists are kept whole. Integer arithmetic keeps every index in
/// bounds.
pub fn subsample<T: Copy>(tones: &[T]) -> (r: Vec<T>)
    ensures
        r@.len() == sample_len(tones@.len() as int),
        forall|i: int| 0 <= i < r@.len() ==> 0 <= #[trigger] sample_index(i, tones@.len() as int) < tones@.len()
            && r@[i] == tones@[sample_index(i, tones@.len() as int)],
{
    let count = tones.len();
    let mut r: Vec<T> = Vec::new();
    if count > MAX_TONES_PER_FRAME {
        let mut i: usize = 0;
        while i < MAX_TONES_PER_FRAME
            invariant
                count == tones@.len(),
                count > MAX_TONES_PER_FRAME,
                i <= MAX_TONES_PER_FRAME,
                r@.len() == i,
                forall|t: int| 0 <= t < i ==> 0 <= #[trigger] sample_index(t, count as int) < count
                    && r@[t] == tones@[sample_index(t, count as int)],
            decreases MAX_TONES_PER_FRAME - i,
        {
            proof {
                lemma_sample_index(i as int, count as int);
            }
            // (i * (count - 1)) / 15, computed without an oversized product.
            let q = (count - 1) / (MAX_TONES_PER_FRAME - 1);
            let rem = (count - 1) % (MAX_TONES_PER_FRAME - 1);
            assert(i * q <= count - 1 && i * rem <= 225 && i * q + (i * rem) / 15 == (i * (count - 1)) / 15)
                by (nonlinear_arith)
                requires
                    i <= 15,
                    count >= 1,
                    q == (count - 1) / 15,
                    rem == (count - 1) % 15,
            ;
            let idx = i * q + (i * rem) / (MAX_TONES_PER_FRAME - 1);
            r.push(tones[idx]);
            i += 1;
        }
    } else {
        let mut i: usize = 0;
        while i < count
            invariant
                count == tones@.len(),
                count <= MAX_TONES_PER_FRAME,
                i <= count,
                r@.len() == i,
                forall|t: int| 0 <= t < i ==> 0 <= #[trigger] sample_index(t, count as int) < count
                    && r@[t] == tones@[sample_index(t, count as int)],
            decreases count - i,
        {
            r.push(tones[i]);
            i += 1;
        }
    }
    r
}

/// When tones are thinned out, the first and the last tone are kept and the
/// kept tones stay in their original order.
pub proof fn lemma_subsample_keeps_ends(count: int)
    requires
        count > 0,
    ensures
        sample_index(0, count) == 0,
        sample_index(sample_len(count) - 1, count) == count - 1,
        forall|i: int, j: int| 0 <= i < j < sample_len(count) ==> #[trigger] sample_index(i, count) < #[trigger] sample_index(j, count),
{
    if count > MAX_TONES_PER_FRAME {
        assert forall|i: int, j: int| 0 <= i < j < sample_len(count) implies #[trigger] sample_index(i, count) < #[trigger] sample_index(j, count) by {
            assert((i * (count - 1)) / 15 < (j * (count - 1)) / 15) by (nonlinear_arith)
                requires
                    0 <= i < j,
                    count - 1 >= 16,
            ;
        }
        assert((15 * (count - 1)) / 15 == count - 1) by (nonlinear_arith);
    }
}

} // verus!
