//! Waveform peaks: the track cut into equal buckets of frames, each
//! bucket summarised by its loudest frame of the mono mixdown.
//!
//! The integer part is here: bucket boundaries and, per bucket, the
//! largest magnitude of the channel sum. Scaling to 0.0–1.0 is done by
//! the caller in floating point.
use vstd::prelude::*;
use crate::player::{LoopBuffer, channel_sum, frame_sum};
use crate::autoloop::abs_int;

verus! {

/// Fewest buckets a client may get (allocation safety).
pub const MIN_BUCKETS: usize = 64;

/// Most buckets a client may get (allocation safety).
pub const MAX_BUCKETS: usize = 8192;

/// `n` clamped into `[MIN_BUCKETS, MAX_BUCKETS]`.
pub open spec fn spec_clamp_buckets(n: usize) -> usize {
    if n < MIN_BUCKETS {
        MIN_BUCKETS
    } else if n > MAX_BUCKETS {
        MAX_BUCKETS
    } else {
        n
    }
}

/// Bucket count actually used for a request of `n`.
pub fn clamp_buckets(n: usize) -> (r: usize)
    ensures
        r == spec_clamp_buckets(n),
        MIN_BUCKETS <= r <= MAX_BUCKETS,
{
    if n < MIN_BUCKETS {
        MIN_BUCKETS
    } else if n > MAX_BUCKETS {
        MAX_BUCKETS
    } else {
        n
    }
}

/// Frames `[start, end)` of bucket `i` out of `n` over `frames` frames:
/// an even split, each bucket at least one frame wide where frames remain.
pub open spec fn bucket_range(i: int, frames: int, n: int) -> (int, int) {
    let start = i * frames / n;
    let e0 = (i + 1) * frames / n;
    let e1 = if e0 > start + 1 { e0 } else { start + 1 };
    (start, if e1 < frames { e1 } else { frames })
}

/// Loudness of frame `f`: the magnitude of its channel sum.
pub open spec fn frame_level(s: Seq<i16>, ch: nat, f: int) -> int {
    abs_int(channel_sum(s, ch, f, ch))
}

/// Largest frame level over frames `[lo, hi)` (0 when empty).
pub open spec fn peak_over(s: Seq<i16>, ch: nat, lo: int, hi: int) -> int
    decreases hi - lo,
{
    if hi <= lo {
        0
    } else {
        let rest = peak_over(s, ch, lo, hi - 1);
        let v = frame_level(s, ch, hi - 1);
        if v > rest {
            v
        } else {
            rest
        }
    }
}

/// Channel count used for mixing: at least one.
pub open spec fn mix_channels(buf: LoopBuffer) -> nat {
    if buf.channels == 0 {
        1
    } else {
        buf.channels as nat
    }
}

/// Raw peak of bucket `i` of `buf` split into `n` buckets.
pub open spec fn bucket_peak(buf: LoopBuffer, n: int, i: int) -> int {
    let (start, end) = bucket_range(i, buf.spec_frames() as int, n);
    peak_over(buf.samples@, mix_channels(buf), start, end)
}

proof fn lemma_bucket_range(i: int, frames: int, n: int)
    requires
        0 <= i < n,
        frames >= 0,
    ensures
        0 <= bucket_range(i, frames, n).0 <= frames,
        bucket_range(i, frames, n).1 <= frames,
{
    assert(i * frames / n <= frames) by (nonlinear_arith)
        requires
            0 <= i < n,
            frames >= 0,
    ;
    assert(i * frames / n >= 0) by (nonlinear_arith)
        requires
            0 <= i,
            n > 0,
            frames >= 0,
    ;
}

/// Per bucket, the largest magnitude of the channel sum over its frames:
/// as many values as [`clamp_buckets`] grants, all 0 for an empty buffer.
/// A bucket's display peak is this value over `32768 * channels`.
pub fn bucket_peaks(buf: &LoopBuffer, buckets: usize) -> (r: Vec<u32>)
    ensures
        r@.len() == spec_clamp_buckets(buckets),
        forall|i: int|
            0 <= i < r@.len() ==> r@[i] as int == bucket_peak(*buf, r@.len() as int, i),
{
    let n = clamp_buckets(buckets);
    let frames = buf.frames();
    let ch: usize = if buf.channels == 0 {
        1
    } else {
        buf.channels as usize
    };
    let total_samples = buf.samples.len();
    proof {
        if buf.channels > 0 {
            let len = buf.samples@.len() as int;
            let c = ch as int;
            assert(frames * c <= len) by (nonlinear_arith)
                requires
                    frames == len / c,
                    c >= 1,
            ;
        }
    }
    let mut peaks: Vec<u32> = Vec::new();
    let mut i: usize = 0;
    while i < n
        invariant
            MIN_BUCKETS <= n <= MAX_BUCKETS,
            n == spec_clamp_buckets(buckets),
            i <= n,
            frames as nat == buf.spec_frames(),
            ch as nat == mix_channels(*buf),
            1 <= ch <= 65535,
            frames * ch <= total_samples,
            total_samples == buf.samples@.len(),
            peaks@.len() == i,
            forall|k: int| 0 <= k < i ==> peaks@[k] as int == bucket_peak(*buf, n as int, k),
        decreases n - i,
    {
        proof {
            lemma_bucket_range(i as int, frames as int, n as int);
            lemma_bucket_range(i as int + 1 - 1, frames as int, n as int);
            assert((i + 1) * (frames as int) <= n * (frames as int)) by (nonlinear_arith)
                requires
                    i + 1 <= n,
                    frames >= 0,
            ;
            assert(n * (frames as int) <= u128::MAX) by (nonlinear_arith)
                requires
                    n <= 8192,
                    frames <= usize::MAX,
            ;
            assert(i * (frames as int) <= (i + 1) * (frames as int)) by (nonlinear_arith)
                requires
                    frames >= 0,
            ;
            assert((i + 1) * (frames as int) / (n as int) <= frames) by (nonlinear_arith)
                requires
                    i + 1 <= n,
                    frames >= 0,
            ;
            assert(frames > 0 ==> i * (frames as int) / (n as int) < frames) by (nonlinear_arith)
                requires
                    i < n,
                    frames >= 0,
            ;
        }
        let start = (i as u128 * frames as u128 / n as u128) as usize;
        let e0 = ((i as u128 + 1) * frames as u128 / n as u128) as usize;
        let e1 = if e0 > start + 1 {
            e0
        } else {
            start + 1
        };
        let end = if e1 < frames {
            e1
        } else {
            frames
        };
        assert((start as int, end as int) == bucket_range(i as int, frames as int, n as int));
        let mut peak: u32 = 0;
        let mut f = start;
        while f < end
            invariant
                start <= f,
                f <= end || end < start,
                end <= frames,
                1 <= ch <= 65535,
                frames * ch <= total_samples,
                total_samples == buf.samples@.len(),
                peak as int == peak_over(buf.samples@, ch as nat, start as int, f as int),
            decreases end - f,
        {
            proof {
                assert(f * ch + ch <= frames * ch) by (nonlinear_arith)
                    requires
                        f + 1 <= frames,
                        ch >= 1,
                ;
            }
            let v = frame_sum(&buf.samples, ch, f);
            let level: u32 = if v < 0 {
                (-v) as u32
            } else {
                v as u32
            };
            if level > peak {
                peak = level;
            }
            f = f + 1;
        }
        peaks.push(peak);
        i = i + 1;
    }
    peaks
}

proof fn lemma_peak_over_is_max(s: Seq<i16>, ch: nat, lo: int, hi: int)
    ensures
        forall|f: int| lo <= f < hi ==> #[trigger] frame_level(s, ch, f) <= peak_over(s, ch, lo, hi),
        lo < hi ==> exists|g: int|
            lo <= g < hi && peak_over(s, ch, lo, hi) == #[trigger] frame_level(s, ch, g),
    decreases hi - lo,
{
    if hi > lo {
        lemma_peak_over_is_max(s, ch, lo, hi - 1);
        let v = frame_level(s, ch, hi - 1);
        let rest = peak_over(s, ch, lo, hi - 1);
        if v > rest || hi - 1 == lo {
            assert(peak_over(s, ch, lo, hi) == frame_level(s, ch, hi - 1));
        } else {
            let g = choose|g: int|
                lo <= g < hi - 1 && rest == #[trigger] frame_level(s, ch, g);
            assert(peak_over(s, ch, lo, hi) == frame_level(s, ch, g));
        }
    }
}

/// Each bucket reports its loudest frame: the value is at least the level
/// (magnitude of the channel sum) of every frame in the bucket's range,
/// and equals the level of one of them; an empty range reports 0.
pub proof fn lemma_bucket_peak_is_loudest(buf: LoopBuffer, n: int, i: int)
    requires
        0 <= i < n,
    ensures
        ({
            let (start, end) = bucket_range(i, buf.spec_frames() as int, n);
            let ch = mix_channels(buf);
            &&& forall|f: int|
                start <= f < end ==> #[trigger] frame_level(buf.samples@, ch, f) <= bucket_peak(
                    buf,
                    n,
                    i,
                )
            &&& start < end ==> exists|g: int|
                start <= g < end && bucket_peak(buf, n, i) == #[trigger] frame_level(
                    buf.samples@,
                    ch,
                    g,
                )
            &&& start >= end ==> bucket_peak(buf, n, i) == 0
        }),
{
    let (start, end) = bucket_range(i, buf.spec_frames() as int, n);
    lemma_peak_over_is_max(buf.samples@, mix_channels(buf), start, end);
}

/// A granted bucket count is always within the limits, a count within
/// them is granted as asked, and clamping twice is clamping once.
pub proof fn lemma_clamp_buckets(n: usize)
    ensures
        MIN_BUCKETS <= spec_clamp_buckets(n) <= MAX_BUCKETS,
        MIN_BUCKETS <= n <= MAX_BUCKETS ==> spec_clamp_buckets(n) == n,
        spec_clamp_buckets(spec_clamp_buckets(n)) == spec_clamp_buckets(n),
{
}

} // verus!
