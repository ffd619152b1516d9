//! Loop-boundary snapping used by the automatic loop finder: move a
//! boundary to the nearest mono zero crossing so loops join without clicks.
use vstd::prelude::*;
use crate::player::{LoopBuffer, mono_at, mono_sample};

verus! {

/// A sign change (or touch of zero) between two consecutive mono values.
pub open spec fn crossing(a: int, b: int) -> bool {
    (a <= 0 && b >= 0) || (a >= 0 && b <= 0)
}

pub open spec fn abs_int(x: int) -> int {
    if x < 0 {
        -x
    } else {
        x
    }
}

/// Nearest crossing among frames `lo..n`: the frame just after the sign
/// change and its distance to `requested` (truncated to `u32`); the first
/// one wins ties.
pub open spec fn nearest_crossing(s: Seq<i16>, ch: nat, requested: int, lo: int, n: int) -> Option<
    (int, u32),
>
    decreases n - lo,
{
    if n <= lo {
        None
    } else {
        let prev = nearest_crossing(s, ch, requested, lo, n - 1);
        let f = n - 1;
        if crossing(mono_at(s, ch, f), mono_at(s, ch, f + 1)) {
            let d = abs_int(f + 1 - requested) as u32;
            match prev {
                None => Some((f + 1, d)),
                Some((bf, bd)) => if d < bd {
                    Some((f + 1, d))
                } else {
                    prev
                },
            }
        } else {
            prev
        }
    }
}

/// First frame of `lo..n` with the smallest mono magnitude (`lo` when the
/// range is a single frame).
pub open spec fn quietest(s: Seq<i16>, ch: nat, lo: int, n: int) -> int
    decreases n - lo,
{
    if n <= lo + 1 {
        lo
    } else {
        let prev = quietest(s, ch, lo, n - 1);
        if abs_int(mono_at(s, ch, n - 1)) < abs_int(mono_at(s, ch, prev)) {
            n - 1
        } else {
            prev
        }
    }
}

/// The window `lo..=hi` searched around `requested`, clamped to the buffer.
pub open spec fn snap_window(frames: int, requested: int, radius: int) -> (int, int) {
    let lo0 = if requested >= radius { requested - radius } else { 0 };
    let hi0 = if requested + radius <= usize::MAX { requested + radius } else { usize::MAX as int };
    (
        if lo0 < frames - 1 { lo0 } else { frames - 1 },
        if hi0 < frames - 1 { hi0 } else { frames - 1 },
    )
}

/// Snap result: the nearest zero crossing within `radius` frames (flag
/// `true`), else the quietest frame of the window (flag `false`).
pub open spec fn spec_snap_with_flag(buf: LoopBuffer, requested: usize, radius: usize) -> (usize, bool) {
    let frames = buf.spec_frames() as int;
    if frames < 2 {
        ((if requested < frames { requested as int } else { frames }) as usize, false)
    } else {
        let ch = buf.channels as nat;
        let (lo, hi) = snap_window(frames, requested as int, radius as int);
        match nearest_crossing(buf.samples@, ch, requested as int, lo, hi) {
            Some((f, _)) => (f as usize, true),
            None => (quietest(buf.samples@, ch, lo, hi + 1) as usize, false),
        }
    }
}

proof fn lemma_nearest_bounds(s: Seq<i16>, ch: nat, requested: int, lo: int, n: int)
    ensures
        nearest_crossing(s, ch, requested, lo, n) matches Some((f, _)) ==> lo < f <= n,
    decreases n - lo,
{
    if n > lo {
        lemma_nearest_bounds(s, ch, requested, lo, n - 1);
    }
}

pub proof fn lemma_quietest_bounds(s: Seq<i16>, ch: nat, lo: int, n: int)
    requires
        lo < n,
    ensures
        lo <= quietest(s, ch, lo, n) < n,
    decreases n - lo,
{
    if n > lo + 1 {
        lemma_quietest_bounds(s, ch, lo, n - 1);
    }
}

/// Snap to the nearest zero crossing within ±`radius` frames.
/// Returns (snapped_frame, was_zero_crossing).
pub fn snap_zero_crossing_with_flag(buf: &LoopBuffer, requested: usize, radius: usize) -> (r: (
    usize,
    bool,
))
    ensures
        r == spec_snap_with_flag(*buf, requested, radius),
        buf.spec_frames() >= 2 ==> r.0 < buf.spec_frames(),
{
    let frames = buf.frames();
    if frames < 2 {
        return (
            if requested < frames {
                requested
            } else {
                frames
            },
            false,
        );
    }
    let channels = buf.channels as usize;
    let total_samples = buf.samples.len();
    proof {
        let n = buf.samples@.len() as int;
        let c = channels as int;
        assert(frames * c <= n) by (nonlinear_arith)
            requires
                frames == n / c,
                c >= 1,
        ;
    }
    let lo0 = requested.saturating_sub(radius);
    let lo = if lo0 < frames - 1 {
        lo0
    } else {
        frames - 1
    };
    let hi0 = requested.saturating_add(radius);
    let hi = if hi0 < frames - 1 {
        hi0
    } else {
        frames - 1
    };
    let ghost s = buf.samples@;
    let ghost ch = channels as nat;
    let mut best: Option<(usize, u32)> = None;
    let mut frame = lo;
    while frame < hi
        invariant
            lo <= frame <= hi,
            hi < frames,
            frames as nat == buf.spec_frames(),
            frames * channels <= s.len(),
            s.len() == total_samples,
            1 <= channels <= 65535,
            s == buf.samples@,
            ch == channels as nat,
            match best {
                None => nearest_crossing(s, ch, requested as int, lo as int, frame as int) is None,
                Some((bf, bd)) => nearest_crossing(s, ch, requested as int, lo as int, frame as int)
                    == Some((bf as int, bd)),
            },
        decreases hi - frame,
    {
        proof {
            assert(frame * channels + channels <= frames * channels && (frame + 1) * channels
                + channels <= frames * channels) by (nonlinear_arith)
                requires
                    frame + 2 <= frames,
                    channels >= 1,
            ;
        }
        let a = mono_sample(&buf.samples, channels, frame);
        let b = mono_sample(&buf.samples, channels, frame + 1);
        if (a <= 0 && b >= 0) || (a >= 0 && b <= 0) {
            let gap = if frame + 1 >= requested {
                frame + 1 - requested
            } else {
                requested - (frame + 1)
            };
            let distance = (#[verifier::truncate] (gap as u32));
            let better = match best {
                None => true,
                Some((_, bd)) => distance < bd,
            };
            if better {
                best = Some((frame + 1, distance));
            }
        }
        frame = frame + 1;
    }
    proof {
        lemma_nearest_bounds(s, ch, requested as int, lo as int, hi as int);
        lemma_quietest_bounds(s, ch, lo as int, hi + 1);
        assert(lo * channels + channels <= frames * channels) by (nonlinear_arith)
            requires
                lo + 1 <= frames,
                channels >= 1,
        ;
    }
    match best {
        Some((f, _)) => (f, true),
        None => {
            // Fallback: minimum local amplitude.
            let mut q = lo;
            let mut qa = mono_sample(&buf.samples, channels, lo);
            let qa_abs: u32 = if qa < 0 { (-qa) as u32 } else { qa as u32 };
            let mut q_abs = qa_abs;
            let mut f = lo + 1;
            while f <= hi
                invariant
                    lo < f <= hi + 1,
                    lo <= q < f,
                    hi < frames,
                    frames * channels <= s.len(),
                    s.len() == total_samples,
                    1 <= channels <= 65535,
                    s == buf.samples@,
                    ch == channels as nat,
                    q as int == quietest(s, ch, lo as int, f as int),
                    q_abs as int == abs_int(mono_at(s, ch, q as int)),
                decreases hi + 1 - f,
            {
                proof {
                    assert(f * channels + channels <= frames * channels) by (nonlinear_arith)
                        requires
                            f + 1 <= frames,
                            channels >= 1,
                    ;
                }
                let m = mono_sample(&buf.samples, channels, f);
                let m_abs: u32 = if m < 0 { (-m) as u32 } else { m as u32 };
                if m_abs < q_abs {
                    q = f;
                    q_abs = m_abs;
                }
                f = f + 1;
            }
            (q, false)
        },
    }
}

} // verus!
