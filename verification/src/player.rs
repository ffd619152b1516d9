//! Practice player core: decoded buffers, gapless region looping and the
//! millisecond/frame arithmetic the transport runs on.
//!
//! Timing lives here, never in the UI: the frontend only polls the
//! position. All loop math is hardware-free.
use vstd::prelude::*;
use std::sync::Arc;
use std::collections::VecDeque;
use crate::text::{decimal, push_decimal, push_str, str_eq};
use vstd::string::StringExecFns;
use crate::autoloop::{crossing, abs_int, quietest, snap_window};

verus! {

/// Tracks longer than this are rejected (memory + practice-loop scope).
pub const MAX_DURATION_MS: u64 = 15 * 60 * 1000;

/// Decoded, interleaved track audio.
#[derive(Debug, Clone)]
pub struct LoopBuffer {
    pub samples: Vec<i16>,
    pub channels: u16,
    pub rate: u32,
}

impl LoopBuffer {
    /// Whole frames in the buffer (0 without channels).
    pub open spec fn spec_frames(&self) -> nat {
        if self.channels == 0 {
            0
        } else {
            self.samples@.len() / (self.channels as nat)
        }
    }

    /// Whole milliseconds of audio (0 without a sample rate).
    pub open spec fn spec_duration_ms(&self) -> nat {
        if self.rate == 0 {
            0
        } else {
            self.spec_frames() * 1000 / (self.rate as nat)
        }
    }

    pub fn frames(&self) -> (r: usize)
        ensures
            r == self.spec_frames(),
    {
        if self.channels == 0 {
            0
        } else {
            self.samples.len() / self.channels as usize
        }
    }

    pub fn duration_ms(&self) -> (r: u64)
        requires
            self.spec_frames() * 1000 <= u64::MAX,
        ensures
            r == self.spec_duration_ms(),
    {
        if self.rate == 0 {
            0
        } else {
            self.frames() as u64 * 1000 / self.rate as u64
        }
    }

    /// Bytes held by the samples (saturating; no buffer that can exist
    /// comes near the limit, so for every real buffer this is exact).
    pub open spec fn spec_memory_bytes(&self) -> nat {
        if self.samples@.len() * 2 <= usize::MAX {
            self.samples@.len() * 2
        } else {
            usize::MAX as nat
        }
    }

    /// Bytes held by the samples.
    pub fn memory_bytes(&self) -> (r: usize)
        ensures
            r == self.spec_memory_bytes(),
    {
        let n = self.samples.len();
        if n <= usize::MAX / 2 {
            n * 2
        } else {
            usize::MAX
        }
    }
}

/// `ms` milliseconds at `rate` Hz, in whole frames (as `usize`, which
/// truncates only for spans far beyond any addressable buffer).
pub open spec fn spec_ms_to_frames(ms: u64, rate: u32) -> usize {
    if rate == 0 {
        0
    } else {
        ((ms as int * rate as int) / 1000) as usize
    }
}

pub fn ms_to_frames(ms: u64, rate: u32) -> (r: usize)
    ensures
        r == spec_ms_to_frames(ms, rate),
        rate > 0 && (ms as int * rate as int) / 1000 <= usize::MAX ==> r as int == (ms as int
            * rate as int) / 1000,
{
    if rate == 0 {
        0
    } else {
        proof {
            assert((ms as int) * (rate as int) <= u128::MAX) by (nonlinear_arith)
                requires
                    ms <= u64::MAX,
                    rate <= u32::MAX,
            ;
        }
        (ms as u128 * rate as u128 / 1000) as usize
    }
}

/// `frames` at `rate` Hz, in whole milliseconds.
pub open spec fn spec_frames_to_ms(frames: usize, rate: u32) -> nat {
    if rate == 0 {
        0
    } else {
        (frames as nat * 1000) / (rate as nat)
    }
}

pub fn frames_to_ms(frames: usize, rate: u32) -> (r: u64)
    requires
        frames * 1000 <= u64::MAX,
    ensures
        r == spec_frames_to_ms(frames, rate),
{
    if rate == 0 {
        0
    } else {
        frames as u64 * 1000 / rate as u64
    }
}

/// Message for a loop end beyond the track.
pub open spec fn end_past_duration_message(end_ms: u64, duration_ms: u64) -> Seq<char> {
    "loop end "@ + decimal(end_ms as nat) + " ms exceeds duration "@ + decimal(duration_ms as nat)
        + " ms"@
}

/// Validated loop region in milliseconds: the end must lie within the
/// track and the start strictly before the end.
pub fn check_region(start_ms: u64, end_ms: u64, duration_ms: u64) -> (r: Result<(), String>)
    ensures
        r is Ok <==> start_ms < end_ms <= duration_ms,
        r matches Err(e) ==> e@ == if end_ms > duration_ms {
            end_past_duration_message(end_ms, duration_ms)
        } else {
            "loop start must be before loop end"@
        },
{
    if end_ms > duration_ms {
        let mut e = String::new();
        push_str(&mut e, "loop end ");
        push_decimal(&mut e, end_ms);
        push_str(&mut e, " ms exceeds duration ");
        push_decimal(&mut e, duration_ms);
        push_str(&mut e, " ms");
        return Err(e);
    }
    if start_ms >= end_ms {
        return Err("loop start must be before loop end".to_owned());
    }
    Ok(())
}

/// Remap a frame cursor across buffers of (slightly) different lengths,
/// e.g. unstretched vs time-stretched audio: `frame * new_total / old_total`.
pub open spec fn spec_remap_frame(frame: usize, old_total: usize, new_total: usize) -> usize {
    if old_total == 0 {
        0
    } else {
        ((frame as int * new_total as int) / (old_total as int)) as usize
    }
}

pub fn remap_frame(frame: usize, old_total: usize, new_total: usize) -> (r: usize)
    ensures
        r == spec_remap_frame(frame, old_total, new_total),
        old_total > 0 && frame <= old_total ==> r as int == (frame as int * new_total as int) / (
        old_total as int),
        old_total > 0 && frame <= old_total ==> r <= new_total,
{
    if old_total == 0 {
        return 0;
    }
    proof {
        assert((frame as int) * (new_total as int) <= u128::MAX) by (nonlinear_arith)
            requires
                frame <= u64::MAX,
                new_total <= u64::MAX,
        ;
        if frame <= old_total {
            let f = frame as int;
            let o = old_total as int;
            let n = new_total as int;
            assert((f * n) / o <= n) by (nonlinear_arith)
                requires
                    0 <= f <= o,
                    o > 0,
                    n >= 0,
            ;
        }
    }
    ((frame as u128 * new_total as u128) / old_total as u128) as usize
}

/// A background decode request: the load generation it was made for and
/// the track path.
#[derive(Debug, Clone)]
pub struct PendingLoad {
    pub generation: u64,
    pub path: String,
}

/// A load completion applies only if it is still the latest request.
pub fn load_ready_current(pending: &Option<PendingLoad>, generation: u64, path: &str) -> (r: bool)
    ensures
        r == (pending matches Some(p) && p.generation == generation && p.path@ == path@),
{
    match pending {
        Some(p) => p.generation == generation && str_eq(p.path.as_str(), path),
        None => false,
    }
}

/// What background readers observe: (path, load generation, decoded audio).
pub type LoadedSnapshot = Option<(String, u64, Arc<LoopBuffer>)>;

/// A waveform job is current only if the live snapshot still matches the
/// (path, generation) it started from. Same path but newer generation
/// (reloaded track) also discards: the newer job owns that path now.
pub fn waveform_snapshot_current(loaded: &LoadedSnapshot, path: &str, generation: u64) -> (r: bool)
    ensures
        r == (loaded matches Some((p, g, _)) && p@ == path@ && g == generation),
{
    match loaded {
        Some((p, g, _)) => str_eq(p.as_str(), path) && *g == generation,
        None => false,
    }
}


/// Infinite (or one-shot) region source. The same buffer is never re-decoded
/// or reopened while looping: wrap-around is an index reset.
pub struct LoopRegion {
    buf: Arc<LoopBuffer>,
    /// Sample index into `buf.samples`.
    idx: usize,
    start_frame: usize,
    end_frame: usize,
    enabled: bool,
    /// Current frame, mirrored for UI polling.
    cursor: usize,
}

/// The observable state of a [`LoopRegion`].
pub struct RegionView {
    pub samples: Seq<i16>,
    /// Samples per frame, at least 1.
    pub ch: nat,
    pub idx: nat,
    pub start_frame: nat,
    pub end_frame: nat,
    pub enabled: bool,
    pub cursor: nat,
}

/// Samples per frame for indexing: a buffer without channels is read as mono.
pub open spec fn frame_width(channels: u16) -> nat {
    if channels == 0 {
        1
    } else {
        channels as nat
    }
}

/// One step of a region source: the sample it yields and the state after.
/// At or past the end frame a looping region jumps back to the start
/// frame; a one-shot region ends.
pub open spec fn region_step(r: RegionView) -> (Option<i16>, RegionView) {
    let frame = r.idx / r.ch;
    if !r.enabled && frame >= r.end_frame {
        (None, r)
    } else {
        let (f, i) = if r.enabled && frame >= r.end_frame {
            (r.start_frame, r.start_frame * r.ch)
        } else {
            (frame, r.idx)
        };
        if i >= r.samples.len() {
            (None, RegionView { idx: i, ..r })
        } else {
            (
                Some(r.samples[i as int]),
                RegionView { idx: i + 1, cursor: if i % r.ch == 0 { f } else { r.cursor }, ..r },
            )
        }
    }
}

impl LoopRegion {
    #[verifier::type_invariant]
    spec fn inv(self) -> bool {
        let ch = frame_width(self.buf.channels);
        &&& self.start_frame * ch <= usize::MAX
        &&& self.end_frame * ch <= usize::MAX
    }

    pub closed spec fn view_region(&self) -> RegionView {
        RegionView {
            samples: self.buf.samples@,
            ch: frame_width(self.buf.channels),
            idx: self.idx as nat,
            start_frame: self.start_frame as nat,
            end_frame: self.end_frame as nat,
            enabled: self.enabled,
            cursor: self.cursor as nat,
        }
    }

    /// A source over `buf` playing `start_frame..end_frame`, beginning at
    /// `from_frame` clamped into the region.
    pub fn new(
        buf: Arc<LoopBuffer>,
        from_frame: usize,
        start_frame: usize,
        end_frame: usize,
        enabled: bool,
    ) -> (r: Self)
        requires
            start_frame * frame_width(buf.channels) <= usize::MAX,
            end_frame * frame_width(buf.channels) <= usize::MAX,
        ensures
            ({
                let lo = if start_frame <= end_frame { start_frame } else { end_frame };
                let hi = if start_frame <= end_frame { end_frame } else { start_frame };
                let from = if from_frame < lo { lo } else if from_frame > hi { hi } else { from_frame };
                r.view_region() == (RegionView {
                    samples: buf.samples@,
                    ch: frame_width(buf.channels),
                    idx: (from * frame_width(buf.channels)) as nat,
                    start_frame: start_frame as nat,
                    end_frame: end_frame as nat,
                    enabled,
                    cursor: from as nat,
                })
            }),
    {
        let ch: usize = if buf.channels == 0 {
            1
        } else {
            buf.channels as usize
        };
        let lo = if start_frame <= end_frame {
            start_frame
        } else {
            end_frame
        };
        let hi = if start_frame <= end_frame {
            end_frame
        } else {
            start_frame
        };
        let from = if from_frame < lo {
            lo
        } else if from_frame > hi {
            hi
        } else {
            from_frame
        };
        proof {
            assert(from * ch <= hi * ch) by (nonlinear_arith)
                requires
                    from <= hi,
                    ch >= 1,
            ;
        }
        LoopRegion { buf, idx: from * ch, start_frame, end_frame, enabled, cursor: from }
    }

    /// The frame last started, for position polling.
    pub fn cursor(&self) -> (r: usize)
        ensures
            r == self.view_region().cursor,
    {
        self.cursor
    }

    /// The next interleaved sample, or `None` once a one-shot region has
    /// ended or the buffer is exhausted.
    pub fn next(&mut self) -> (r: Option<i16>)
        ensures
            (r, final(self).view_region()) == region_step(old(self).view_region()),
    {
        proof {
            use_type_invariant(&*self);
        }
        let ch: usize = if self.buf.channels == 0 {
            1
        } else {
            self.buf.channels as usize
        };
        let mut frame = self.idx / ch;
        if self.enabled {
            if frame >= self.end_frame {
                frame = self.start_frame;
                self.idx = frame * ch;
            }
        } else if frame >= self.end_frame {
            return None;
        }
        if self.idx >= self.buf.samples.len() {
            return None;
        }
        let s = self.buf.samples[self.idx];
        if self.idx % ch == 0 {
            self.cursor = frame;
        }
        self.idx = self.idx + 1;
        Some(s)
    }
}


/// The state of a region source after `k` samples were asked of it.
pub open spec fn region_after(r: RegionView, k: nat) -> RegionView
    decreases k,
{
    if k == 0 {
        r
    } else {
        region_step(region_after(r, (k - 1) as nat)).1
    }
}

/// What the `k`-th request (from 0) of a region source yields.
pub open spec fn region_output(r: RegionView, k: nat) -> Option<i16> {
    region_step(region_after(r, k)).0
}

proof fn lemma_region_after_loop(r: RegionView, k: nat)
    requires
        r.enabled,
        r.ch >= 1,
        r.start_frame < r.end_frame,
        r.end_frame * r.ch <= r.samples.len(),
        r.start_frame * r.ch <= r.idx <= r.end_frame * r.ch,
    ensures
        ({
            let q = region_after(r, k);
            let s = r.start_frame * r.ch;
            let e = r.end_frame * r.ch;
            &&& q.samples == r.samples
            &&& q.ch == r.ch
            &&& q.start_frame == r.start_frame
            &&& q.end_frame == r.end_frame
            &&& q.enabled
            &&& s <= q.idx <= e
            &&& (q.idx - s) % (e - s) == (r.idx - s + k) % (e - s)
        }),
    decreases k,
{
    let s = r.start_frame * r.ch;
    let e = r.end_frame * r.ch;
    assert(s < e) by (nonlinear_arith)
        requires
            r.start_frame < r.end_frame,
            r.ch >= 1,
            s == r.start_frame * r.ch,
            e == r.end_frame * r.ch,
    ;
    if k > 0 {
        lemma_region_after_loop(r, (k - 1) as nat);
        let q = region_after(r, (k - 1) as nat);
        let p = e - s;
        assert(q.idx / q.ch >= q.end_frame <==> q.idx >= e) by (nonlinear_arith)
            requires
                q.ch >= 1,
                q.idx >= 0,
                e == q.end_frame * q.ch,
        ;
        if q.idx >= e {
            assert(q.idx == e);
            assert((q.idx - s) % p == 0) by (nonlinear_arith)
                requires
                    q.idx - s == p,
                    p > 0,
            ;
            assert(1int % p == ((q.idx - s) % p + 1) % p) by (nonlinear_arith)
                requires
                    (q.idx - s) % p == 0,
                    p > 0,
            ;
        } else {
            assert(((q.idx - s) + 1) % p == ((q.idx - s) % p + 1) % p) by (nonlinear_arith)
                requires
                    p > 0,
                    0 <= q.idx - s,
            ;
        }
        assert(((q.idx - s) % p + 1) % p == (r.idx - s + k) % p) by (nonlinear_arith)
            requires
                (q.idx - s) % p == (r.idx - s + (k - 1)) % p,
                p > 0,
                r.idx - s >= 0,
                k >= 1,
        ;
    }
}

/// A looping region plays its frames back to back, forever and without a
/// gap: from any position inside it, the `k`-th sample is the one `k`
/// samples further on, wrapping from the end frame straight to the start
/// frame.
pub proof fn lemma_loop_is_gapless(r: RegionView, k: nat)
    requires
        r.enabled,
        r.ch >= 1,
        r.start_frame < r.end_frame,
        r.end_frame * r.ch <= r.samples.len(),
        r.start_frame * r.ch <= r.idx <= r.end_frame * r.ch,
    ensures
        ({
            let s = r.start_frame * r.ch;
            let e = r.end_frame * r.ch;
            region_output(r, k) == Some(r.samples[s + (r.idx - s + k) % (e - s)])
        }),
{
    lemma_region_after_loop(r, k);
    let q = region_after(r, k);
    let s = r.start_frame * r.ch;
    let e = r.end_frame * r.ch;
    let p = e - s;
    assert(s < e) by (nonlinear_arith)
        requires
            r.start_frame < r.end_frame,
            r.ch >= 1,
            s == r.start_frame * r.ch,
            e == r.end_frame * r.ch,
    ;
    assert(q.idx / q.ch >= q.end_frame <==> q.idx >= e) by (nonlinear_arith)
        requires
            q.ch >= 1,
            q.idx >= 0,
            e == q.end_frame * q.ch,
    ;
    if q.idx >= e {
        assert((q.idx - s) % p == 0) by (nonlinear_arith)
            requires
                q.idx - s == p,
                p > 0,
        ;
    } else {
        assert((q.idx - s) % p == q.idx - s) by (nonlinear_arith)
            requires
                0 <= q.idx - s < p,
        ;
    }
}

/// Splits sample index `i` at or past frame `sf` into that frame plus an
/// offset: the frame and the place within it come from the offset.
proof fn lemma_frame_split(i: int, sf: int, ch: int)
    requires
        ch >= 1,
        sf >= 0,
        i >= sf * ch,
    ensures
        i / ch == sf + (i - sf * ch) / ch,
        i % ch == (i - sf * ch) % ch,
{
    let j = i - sf * ch;
    vstd::arithmetic::div_mod::lemma_fundamental_div_mod(j, ch);
    let q = j / ch;
    let rr = j % ch;
    assert(0 <= rr < ch);
    assert(i == (sf + q) * ch + rr) by (nonlinear_arith)
        requires
            j == ch * q + rr,
            i == j + sf * ch,
    ;
    vstd::arithmetic::div_mod::lemma_fundamental_div_mod_converse(i, ch, sf + q, rr);
}

/// Where the cursor of a looping region stands: started on a frame
/// boundary, after `k >= 1` samples it holds the frame of the latest
/// frame-aligned sample yielded, the frame containing sample
/// `(idx - s + k - 1) % (e - s)` of the loop.
pub proof fn lemma_loop_cursor(r: RegionView, k: nat)
    requires
        r.enabled,
        r.ch >= 1,
        r.start_frame < r.end_frame,
        r.end_frame * r.ch <= r.samples.len(),
        r.start_frame * r.ch <= r.idx <= r.end_frame * r.ch,
        r.idx % r.ch == 0,
    ensures
        ({
            let s = r.start_frame * r.ch;
            let e = r.end_frame * r.ch;
            k >= 1 ==> region_after(r, k).cursor == r.start_frame + ((r.idx - s + k - 1) % (e
                - s)) / (r.ch as int)
        }),
    decreases k,
{
    let s = r.start_frame * r.ch;
    let e = r.end_frame * r.ch;
    let p = e - s;
    let ch = r.ch as int;
    assert(s < e) by (nonlinear_arith)
        requires
            r.start_frame < r.end_frame,
            r.ch >= 1,
            s == r.start_frame * r.ch,
            e == r.end_frame * r.ch,
    ;
    if k >= 1 {
        let k1 = (k - 1) as nat;
        lemma_region_after_loop(r, k1);
        let q = region_after(r, k1);
        assert(q.idx / q.ch >= q.end_frame <==> q.idx >= e) by (nonlinear_arith)
            requires
                q.ch >= 1,
                q.idx >= 0,
                e == q.end_frame * q.ch,
        ;
        let i: int = if q.idx >= e { s as int } else { q.idx as int };
        let j = (r.idx - s + k - 1) % p;
        if q.idx >= e {
            assert((q.idx - s) % p == 0) by (nonlinear_arith)
                requires
                    q.idx - s == p,
                    p > 0,
            ;
        } else {
            assert((q.idx - s) % p == q.idx - s) by (nonlinear_arith)
                requires
                    0 <= q.idx - s < p,
            ;
        }
        assert(i - s == j);
        assert(i < r.samples.len());
        lemma_frame_split(i, r.start_frame as int, ch);
        lemma_frame_split(r.idx as int, r.start_frame as int, ch);
        if q.idx < e {
            assert(i / ch == q.idx / q.ch);
        }
        let after = region_after(r, k);
        assert(after == region_step(q).1);
        if i % ch != 0 {
            // Not a frame boundary: the cursor is the one before this sample.
            assert(k1 >= 1);
            lemma_loop_cursor(r, k1);
            let x = r.idx - s + k1 - 1;
            assert(x >= 0);
            assert((x + 1) % p == (x % p + 1) % p) by (nonlinear_arith)
                requires
                    p > 0,
                    x >= 0,
            ;
            assert(x + 1 == r.idx - s + k - 1);
            assert(j == (x + 1) % p);
            assert(j % ch == i % ch);
            if j == 0 {
                assert(0int % ch == 0) by (nonlinear_arith)
                    requires
                        ch >= 1,
                ;
            }
            assert(j != 0);
            assert(x % p + 1 < p) by (nonlinear_arith)
                requires
                    p > 0,
                    x >= 0,
                    (x % p + 1) % p != 0,
            ;
            assert((x % p + 1) % p == x % p + 1) by (nonlinear_arith)
                requires
                    p > 0,
                    x >= 0,
                    x % p + 1 < p,
            ;
            assert(j - 1 == x % p);
            vstd::arithmetic::div_mod::lemma_fundamental_div_mod(j, ch);
            vstd::arithmetic::div_mod::lemma_fundamental_div_mod_converse(
                j - 1,
                ch,
                j / ch,
                j % ch - 1,
            );
        }
    }
}

/// A one-shot region that has reached its end frame yields nothing more,
/// and stays where it is.
pub proof fn lemma_one_shot_ends(r: RegionView, k: nat)
    requires
        !r.enabled,
        r.ch >= 1,
        r.idx >= r.end_frame * r.ch,
    ensures
        region_after(r, k) == r,
        region_output(r, k) is None,
    decreases k,
{
    assert(r.idx / r.ch >= r.end_frame) by (nonlinear_arith)
        requires
            r.ch >= 1,
            r.idx >= r.end_frame * r.ch,
    ;
    if k > 0 {
        lemma_one_shot_ends(r, (k - 1) as nat);
    }
}

/// What `rodio` decodes from `data`: channel count, sample rate and the
/// interleaved samples as 16-bit PCM, or the text of its error.
pub uninterp spec fn rodio_decode(data: Seq<u8>) -> Result<(u16, u32, Seq<i16>), Seq<char>>;

/// Decodes `data` with `rodio::Decoder` (format detected from the bytes)
/// and converts every sample to `i16` with rodio's `SampleTypeConverter`.
/// The contract claims only that the outcome is a function of the bytes,
/// named [`rodio_decode`].
#[verifier::external_body]
fn decode_with_rodio(data: &[u8]) -> (r: Result<(u16, u32, Vec<i16>), String>)
    ensures
        match r {
            Ok((c, rate, s)) => rodio_decode(data@) == Ok::<(u16, u32, Seq<i16>), Seq<char>>(
                (c, rate, s@),
            ),
            Err(e) => rodio_decode(data@) == Err::<(u16, u32, Seq<i16>), Seq<char>>(e@),
        },
{
    let decoder = match rodio::Decoder::new(std::io::Cursor::new(data.to_vec())) {
        Ok(d) => d,
        Err(e) => return Err(e.to_string()),
    };
    let channels = rodio::Source::channels(&decoder);
    let rate = rodio::Source::sample_rate(&decoder);
    let samples: Vec<i16> = rodio::conversions::SampleTypeConverter::<_, i16>::new(decoder).collect();
    Ok((channels, rate, samples))
}

/// Whole milliseconds of `samples` interleaved over `channels` at `rate`.
pub open spec fn decoded_ms(channels: u16, rate: u32, samples: Seq<i16>) -> nat {
    (samples.len() / (channels as nat)) * 1000 / (rate as nat)
}

/// What a decoder outcome becomes: the buffer, or the message shown to
/// the user. Streams without channels or rate, and tracks over the
/// practice limit, are refused.
pub open spec fn spec_buffer_from(decoded: Result<(u16, u32, Seq<i16>), Seq<char>>) -> Result<
    (u16, u32, Seq<i16>),
    Seq<char>,
> {
    match decoded {
        Err(e) => Err("cannot decode audio: "@ + e),
        Ok((c, r, s)) => if c == 0 || r == 0 {
            Err("decoded stream has no channels or rate"@)
        } else if decoded_ms(c, r, s) > MAX_DURATION_MS {
            Err(
                "track is "@ + decimal(decoded_ms(c, r, s) / 60000) + " min, over the 15 min practice limit"@,
            )
        } else {
            Ok((c, r, s))
        },
    }
}

/// Outcome of decoding `data`: the buffer, or the message shown to the user.
pub open spec fn spec_decode(data: Seq<u8>) -> Result<(u16, u32, Seq<i16>), Seq<char>> {
    spec_buffer_from(rodio_decode(data))
}

/// Turns a decoder outcome (channels, rate, interleaved samples, or the
/// decoder's error text) into a practice buffer or a user-facing error.
pub fn buffer_from_decoded(decoded: Result<(u16, u32, Vec<i16>), String>) -> (r: Result<
    LoopBuffer,
    String,
>)
    ensures
        match r {
            Ok(b) => spec_buffer_from(
                match decoded {
                    Ok((c, rate, s)) => Ok::<(u16, u32, Seq<i16>), Seq<char>>((c, rate, s@)),
                    Err(e) => Err::<(u16, u32, Seq<i16>), Seq<char>>(e@),
                },
            ) == Ok::<(u16, u32, Seq<i16>), Seq<char>>((b.channels, b.rate, b.samples@)),
            Err(e) => spec_buffer_from(
                match decoded {
                    Ok((c, rate, s)) => Ok::<(u16, u32, Seq<i16>), Seq<char>>((c, rate, s@)),
                    Err(e) => Err::<(u16, u32, Seq<i16>), Seq<char>>(e@),
                },
            ) == Err::<(u16, u32, Seq<i16>), Seq<char>>(e@),
        },
        r matches Ok(b) ==> b.channels > 0 && b.rate > 0 && b.spec_duration_ms() <= MAX_DURATION_MS
            && b.spec_frames() * 1000 <= u64::MAX,
{
    let (channels, rate, samples) = match decoded {
        Ok(t) => t,
        Err(e) => {
            let mut msg = String::new();
            push_str(&mut msg, "cannot decode audio: ");
            push_str(&mut msg, e.as_str());
            return Err(msg);
        },
    };
    if channels == 0 || rate == 0 {
        return Err("decoded stream has no channels or rate".to_owned());
    }
    let buf = LoopBuffer { samples, channels, rate };
    let frames = buf.frames();
    let ms = frames as u128 * 1000 / rate as u128;
    proof {
        assert((frames as int) * 1000 <= u128::MAX) by (nonlinear_arith)
            requires
                frames <= u64::MAX,
        ;
    }
    if ms > MAX_DURATION_MS as u128 {
        let mut msg = String::new();
        push_str(&mut msg, "track is ");
        push_decimal(&mut msg, (ms / 60_000) as u64);
        push_str(&mut msg, " min, over the 15 min practice limit");
        return Err(msg);
    }
    proof {
        let f = frames as int;
        let r = rate as int;
        assert(f * 1000 <= 900001 * r) by (nonlinear_arith)
            requires
                (f * 1000) / r <= 900000,
                r >= 1,
                f >= 0,
        ;
        assert(900001 * r <= u64::MAX);
    }
    Ok(buf)
}

/// Decode any rodio-supported bytes into a buffer. Hardware-free.
pub fn decode_bytes(data: &[u8]) -> (r: Result<LoopBuffer, String>)
    ensures
        match r {
            Ok(b) => spec_decode(data@) == Ok::<(u16, u32, Seq<i16>), Seq<char>>(
                (b.channels, b.rate, b.samples@),
            ),
            Err(e) => spec_decode(data@) == Err::<(u16, u32, Seq<i16>), Seq<char>>(e@),
        },
        r matches Ok(b) ==> b.channels > 0 && b.rate > 0 && b.spec_duration_ms() <= MAX_DURATION_MS
            && b.spec_frames() * 1000 <= u64::MAX,
{
    buffer_from_decoded(decode_with_rodio(data))
}


/// Sample `i`, or 0 past the end.
pub open spec fn sample_or_zero(s: Seq<i16>, i: int) -> int {
    if 0 <= i < s.len() {
        s[i] as int
    } else {
        0
    }
}

/// Sum of the first `c` channel samples of `frame`.
pub open spec fn channel_sum(s: Seq<i16>, ch: nat, frame: int, c: nat) -> int
    decreases c,
{
    if c == 0 {
        0
    } else {
        channel_sum(s, ch, frame, (c - 1) as nat) + sample_or_zero(s, frame * ch + c - 1)
    }
}

/// Integer division rounding toward zero, as Rust's `/` does.
pub open spec fn trunc_div(a: int, b: int) -> int {
    if a >= 0 {
        a / b
    } else {
        -((-a) / b)
    }
}

/// Mono mixdown of one frame: the channel average, rounded toward zero.
pub open spec fn mono_at(s: Seq<i16>, ch: nat, frame: int) -> int {
    trunc_div(channel_sum(s, ch, frame, ch), ch as int)
}

proof fn lemma_channel_sum_bound(s: Seq<i16>, ch: nat, frame: int, c: nat)
    ensures
        -32768 * c <= channel_sum(s, ch, frame, c) <= 32767 * c,
    decreases c,
{
    if c > 0 {
        lemma_channel_sum_bound(s, ch, frame, (c - 1) as nat);
    }
}

/// Sum over the channels of frame `frame` (samples past the end read as 0).
pub fn frame_sum(samples: &Vec<i16>, channels: usize, frame: usize) -> (r: i32)
    requires
        1 <= channels <= 65535,
        frame * channels + channels <= usize::MAX,
    ensures
        r as int == channel_sum(samples@, channels as nat, frame as int, channels as nat),
        -32768 * channels <= r <= 32767 * channels,
{
    let mut sum: i32 = 0;
    let mut c: usize = 0;
    while c < channels
        invariant
            1 <= channels <= 65535,
            frame * channels + channels <= usize::MAX,
            c <= channels,
            sum as int == channel_sum(samples@, channels as nat, frame as int, c as nat),
        decreases channels - c,
    {
        proof {
            lemma_channel_sum_bound(samples@, channels as nat, frame as int, c as nat);
            assert(32768 * c <= 32768 * 65535) by (nonlinear_arith)
                requires
                    c <= 65535,
            ;
            assert(frame * channels + c < frame * channels + channels);
        }
        let i = frame * channels + c;
        let v: i32 = if i < samples.len() {
            samples[i] as i32
        } else {
            0
        };
        sum = sum + v;
        c = c + 1;
    }
    proof {
        lemma_channel_sum_bound(samples@, channels as nat, frame as int, channels as nat);
    }
    sum
}

/// Mono mixdown of frame `frame` (samples past the end read as 0).
pub fn mono_sample(samples: &Vec<i16>, channels: usize, frame: usize) -> (r: i32)
    requires
        1 <= channels <= 65535,
        frame * channels + channels <= usize::MAX,
    ensures
        r as int == mono_at(samples@, channels as nat, frame as int),
        -32768 <= r <= 32767,
{
    let sum = frame_sum(samples, channels, frame);
    proof {
        lemma_channel_sum_bound(samples@, channels as nat, frame as int, channels as nat);
        let t = sum as int;
        let n = channels as int;
        if t >= 0 {
            assert(t / n <= 32767) by (nonlinear_arith)
                requires
                    0 <= t <= 32767 * n,
                    n >= 1,
            ;
        } else {
            assert((-t) / n <= 32768) by (nonlinear_arith)
                requires
                    0 < -t <= 32768 * n,
                    n >= 1,
            ;
        }
    }
    sum / channels as i32
}


/// Largest per-channel jump between frame `frame` and the next, over the
/// first `c` channels.
pub open spec fn jump(s: Seq<i16>, ch: nat, frame: int, c: nat) -> int
    decreases c,
{
    if c == 0 {
        0
    } else {
        let prev = jump(s, ch, frame, (c - 1) as nat);
        let j = abs_int(
            sample_or_zero(s, frame * ch + c - 1) - sample_or_zero(s, (frame + 1) * ch + c - 1),
        );
        if j > prev {
            j
        } else {
            prev
        }
    }
}

/// Best crossing among frames `lo..n`, ranked by distance to `requested`
/// and then by the channel jump there; the first one wins full ties.
pub open spec fn best_crossing(s: Seq<i16>, ch: nat, requested: int, lo: int, n: int) -> Option<
    (int, u32, int),
>
    decreases n - lo,
{
    if n <= lo {
        None
    } else {
        let prev = best_crossing(s, ch, requested, lo, n - 1);
        let f = n - 1;
        if crossing(mono_at(s, ch, f), mono_at(s, ch, f + 1)) {
            let d = abs_int(f + 1 - requested) as u32;
            let j = jump(s, ch, f, ch);
            match prev {
                None => Some((f + 1, d, j)),
                Some((bf, bd, bj)) => if d < bd || (d == bd && j < bj) {
                    Some((f + 1, d, j))
                } else {
                    prev
                },
            }
        } else {
            prev
        }
    }
}

/// Where [`snap_zero_crossing`] moves `requested`: the best crossing within
/// ±10 ms, else the quietest frame of that window.
pub open spec fn spec_snap(buf: LoopBuffer, requested: usize) -> usize {
    let frames = buf.spec_frames() as int;
    if frames < 2 {
        (if requested < frames { requested as int } else { frames }) as usize
    } else {
        let radius = if buf.rate / 100 >= 1 { buf.rate / 100 } else { 1 };
        let ch = buf.channels as nat;
        let (lo, hi) = snap_window(frames, requested as int, radius as int);
        match best_crossing(buf.samples@, ch, requested as int, lo, hi) {
            Some((f, _, _)) => f as usize,
            None => quietest(buf.samples@, ch, lo, hi + 1) as usize,
        }
    }
}

proof fn lemma_jump_bound(s: Seq<i16>, ch: nat, frame: int, c: nat)
    ensures
        0 <= jump(s, ch, frame, c) <= 65535,
    decreases c,
{
    if c > 0 {
        lemma_jump_bound(s, ch, frame, (c - 1) as nat);
    }
}

proof fn lemma_best_bounds(s: Seq<i16>, ch: nat, requested: int, lo: int, n: int)
    ensures
        best_crossing(s, ch, requested, lo, n) matches Some((f, _, _)) ==> lo < f <= n,
    decreases n - lo,
{
    if n > lo {
        lemma_best_bounds(s, ch, requested, lo, n - 1);
    }
}

/// Frame `g` starts right after a mono sign change (or a touch of zero).
pub open spec fn crossing_frame(s: Seq<i16>, ch: nat, g: int) -> bool {
    crossing(mono_at(s, ch, g - 1), mono_at(s, ch, g))
}

proof fn lemma_best_is_nearest(s: Seq<i16>, ch: nat, requested: int, lo: int, n: int)
    ensures
        best_crossing(s, ch, requested, lo, n) matches Some((f, d, _)) ==> {
            &&& lo < f <= n
            &&& crossing_frame(s, ch, f)
            &&& d == abs_int(f - requested) as u32
            &&& forall|g: int|
                lo < g <= n && #[trigger] crossing_frame(s, ch, g) ==> d <= abs_int(g - requested) as u32
        },
        best_crossing(s, ch, requested, lo, n) is None ==> forall|g: int|
            lo < g <= n ==> !#[trigger] crossing_frame(s, ch, g),
    decreases n - lo,
{
    if n > lo {
        lemma_best_is_nearest(s, ch, requested, lo, n - 1);
        assert(n - 1 + 1 == n);
    }
}

/// Snapping lands on the nearest zero crossing: when the ±10 ms window
/// `lo..=hi` around the request holds a crossing, the result is a crossing
/// of the window and no crossing of the window, before or after the
/// request, lies strictly nearer to it; the result is then within the
/// radius of the request. Without a crossing the result stays in the window.
pub proof fn lemma_snap_is_nearest_crossing(buf: LoopBuffer, requested: usize)
    requires
        buf.spec_frames() >= 2,
    ensures
        ({
            let frames = buf.spec_frames() as int;
            let radius = if buf.rate / 100 >= 1 { buf.rate / 100 } else { 1 };
            let (lo, hi) = snap_window(frames, requested as int, radius as int);
            let s = buf.samples@;
            let ch = buf.channels as nat;
            let r = spec_snap(buf, requested) as int;
            &&& (exists|g: int| lo < g <= hi && #[trigger] crossing_frame(s, ch, g)) ==> {
                &&& lo < r <= hi
                &&& crossing_frame(s, ch, r)
                &&& abs_int(r - requested) <= radius
                &&& forall|g: int|
                    lo < g <= hi && #[trigger] crossing_frame(s, ch, g) ==> abs_int(r - requested)
                        <= abs_int(g - requested)
            }
            &&& lo <= r <= hi
        }),
{
    let frames = buf.spec_frames() as int;
    let radius = if buf.rate / 100 >= 1 { buf.rate / 100 } else { 1 };
    let (lo, hi) = snap_window(frames, requested as int, radius as int);
    let s = buf.samples@;
    let ch = buf.channels as nat;
    let req = requested as int;
    lemma_best_is_nearest(s, ch, req, lo, hi);
    crate::autoloop::lemma_quietest_bounds(s, ch, lo, hi + 1);
    if let Some((f, d, _)) = best_crossing(s, ch, req, lo, hi) {
        assert forall|g: int|
            lo < g <= hi && #[trigger] crossing_frame(s, ch, g) implies abs_int(f - req) <= abs_int(
            g - req,
        ) by {
            assert(abs_int(g - req) <= radius);
            assert(abs_int(f - req) <= radius);
        }
    }
}

/// Largest per-channel jump between `frame` and the next one.
fn channel_jump(samples: &Vec<i16>, channels: usize, frame: usize) -> (r: u32)
    requires
        1 <= channels <= 65535,
        (frame + 1) * channels + channels <= usize::MAX,
    ensures
        r as int == jump(samples@, channels as nat, frame as int, channels as nat),
{
    let mut m: u32 = 0;
    let mut c: usize = 0;
    while c < channels
        invariant
            1 <= channels <= 65535,
            (frame + 1) * channels + channels <= usize::MAX,
            c <= channels,
            m as int == jump(samples@, channels as nat, frame as int, c as nat),
        decreases channels - c,
    {
        proof {
            lemma_jump_bound(samples@, channels as nat, frame as int, c as nat);
            assert(frame * channels + c < (frame + 1) * channels + channels) by (nonlinear_arith)
                requires
                    c < channels,
            ;
            assert((frame + 1) * channels + c < (frame + 1) * channels + channels);
            assert(frame + 1 <= (frame + 1) * channels && frame * channels <= (frame + 1)
                * channels) by (nonlinear_arith)
                requires
                    channels >= 1,
            ;
        }
        let i = frame * channels + c;
        let k = (frame + 1) * channels + c;
        let a: i32 = if i < samples.len() {
            samples[i] as i32
        } else {
            0
        };
        let b: i32 = if k < samples.len() {
            samples[k] as i32
        } else {
            0
        };
        let d: u32 = if a >= b {
            (a - b) as u32
        } else {
            (b - a) as u32
        };
        if d > m {
            m = d;
        }
        c = c + 1;
    }
    m
}

/// Find the closest zero crossing in a 10 ms window without changing PCM.
/// For stereo, searches on mono but prefers, among equally near
/// candidates, the one where no channel jumps far.
#[verifier::rlimit(40)]
pub fn snap_zero_crossing(buf: &LoopBuffer, requested: usize) -> (r: usize)
    ensures
        r == spec_snap(*buf, requested),
        buf.spec_frames() >= 2 ==> r < buf.spec_frames(),
{
    let frames = buf.frames();
    if frames < 2 {
        return if requested < frames {
            requested
        } else {
            frames
        };
    }
    let radius: usize = if buf.rate as usize / 100 >= 1 {
        buf.rate as usize / 100
    } else {
        1
    };
    let channels = buf.channels as usize;
    let total_samples = buf.samples.len();
    proof {
        let n = buf.samples@.len() as int;
        let c = channels as int;
        assert(frames * c <= n) by (nonlinear_arith)
            requires
                frames == n / c,
                c >= 1,
        ;
    }
    let lo0 = requested.saturating_sub(radius);
    let lo = if lo0 < frames - 1 {
        lo0
    } else {
        frames - 1
    };
    let hi0 = requested.saturating_add(radius);
    let hi = if hi0 < frames - 1 {
        hi0
    } else {
        frames - 1
    };
    let ghost s = buf.samples@;
    let ghost ch = channels as nat;
    let mut best: Option<(usize, u32, u32)> = None;
    let mut frame = lo;
    while frame < hi
        invariant
            lo <= frame <= hi,
            hi < frames,
            frames as nat == buf.spec_frames(),
            frames * channels <= s.len(),
            s.len() == total_samples,
            1 <= channels <= 65535,
            s == buf.samples@,
            ch == channels as nat,
            match best {
                None => best_crossing(s, ch, requested as int, lo as int, frame as int) is None,
                Some((bf, bd, bj)) => best_crossing(s, ch, requested as int, lo as int, frame as int)
                    == Some((bf as int, bd, bj as int)),
            },
        decreases hi - frame,
    {
        proof {
            assert(frame * channels + channels <= frames * channels && (frame + 1) * channels
                + channels <= frames * channels) by (nonlinear_arith)
                requires
                    frame + 2 <= frames,
                    channels >= 1,
            ;
        }
        let a = mono_sample(&buf.samples, channels, frame);
        let b = mono_sample(&buf.samples, channels, frame + 1);
        if (a <= 0 && b >= 0) || (a >= 0 && b <= 0) {
            let gap = if frame + 1 >= requested {
                frame + 1 - requested
            } else {
                requested - (frame + 1)
            };
            let distance = (#[verifier::truncate] (gap as u32));
            let j = channel_jump(&buf.samples, channels, frame);
            let better = match best {
                None => true,
                Some((_, bd, bj)) => distance < bd || (distance == bd && j < bj),
            };
            if better {
                best = Some((frame + 1, distance, j));
            }
        }
        frame = frame + 1;
    }
    proof {
        lemma_best_bounds(s, ch, requested as int, lo as int, hi as int);
        crate::autoloop::lemma_quietest_bounds(s, ch, lo as int, hi + 1);
        assert(lo * channels + channels <= frames * channels) by (nonlinear_arith)
            requires
                lo + 1 <= frames,
                channels >= 1,
        ;
    }
    match best {
        Some((f, _, _)) => f,
        None => {
            // Fallback: frame of minimum local amplitude on mono.
            let mut q = lo;
            let qa = mono_sample(&buf.samples, channels, lo);
            let mut q_abs: u32 = if qa < 0 {
                (-qa) as u32
            } else {
                qa as u32
            };
            let mut f = lo + 1;
            while f <= hi
                invariant
                    lo < f <= hi + 1,
                    lo <= q < f,
                    hi < frames,
                    frames * channels <= s.len(),
                    s.len() == total_samples,
                    1 <= channels <= 65535,
                    s == buf.samples@,
                    ch == channels as nat,
                    q as int == quietest(s, ch, lo as int, f as int),
                    q_abs as int == abs_int(mono_at(s, ch, q as int)),
                decreases hi + 1 - f,
            {
                proof {
                    assert(f * channels + channels <= frames * channels) by (nonlinear_arith)
                        requires
                            f + 1 <= frames,
                            channels >= 1,
                    ;
                }
                let m = mono_sample(&buf.samples, channels, f);
                let m_abs: u32 = if m < 0 {
                    (-m) as u32
                } else {
                    m as u32
                };
                if m_abs < q_abs {
                    q = f;
                    q_abs = m_abs;
                }
                f = f + 1;
            }
            q
        },
    }
}

/// Loop points and playback position of the loaded track, in frames of
/// the buffer that plays.
#[derive(Debug, Clone, Copy, PartialEq, Eq)]
pub struct Transport {
    pub total_frames: usize,
    pub start_frame: usize,
    pub end_frame: usize,
    pub enabled: bool,
    /// Where playback resumes after a pause or stop.
    pub resume_frame: usize,
}

impl Transport {
    /// Loop points lie within the track.
    pub open spec fn wf(&self) -> bool {
        self.start_frame <= self.total_frames && self.end_frame <= self.total_frames
    }

    /// A freshly loaded track: the whole track loops, from frame 0.
    pub fn loaded(total_frames: usize) -> (r: Transport)
        ensures
            r == (Transport {
                total_frames,
                start_frame: 0,
                end_frame: total_frames,
                enabled: true,
                resume_frame: 0,
            }),
            r.wf(),
    {
        Transport { total_frames, start_frame: 0, end_frame: total_frames, enabled: true, resume_frame: 0 }
    }

    /// The transport after a loop request in milliseconds at `rate`, or
    /// why it is refused: the start is cut to the track, the end clamped
    /// to `1..=total`, and playback resumes at the new start.
    pub open spec fn spec_set_loop_ms(self, start_ms: u64, end_ms: u64, rate: u32) -> Result<
        Transport,
        Seq<char>,
    > {
        let total = self.total_frames as int;
        let a = spec_ms_to_frames(start_ms, rate) as int;
        let b = spec_ms_to_frames(end_ms, rate) as int;
        let start = if a <= total { a } else { total };
        let end = if b < 1 { 1 } else if b <= total { b } else { total };
        if total == 0 {
            Err("track has no frames"@)
        } else if start >= end {
            Err("loop start must be before loop end"@)
        } else {
            Ok(
                Transport {
                    start_frame: start as usize,
                    end_frame: end as usize,
                    resume_frame: start as usize,
                    ..self
                },
            )
        }
    }

    /// Sets the loop from milliseconds at `rate`.
    pub fn set_loop_ms(&mut self, start_ms: u64, end_ms: u64, rate: u32) -> (r: Result<(), String>)
        requires
            old(self).wf(),
        ensures
            final(self).wf(),
            match old(self).spec_set_loop_ms(start_ms, end_ms, rate) {
                Ok(t) => r is Ok && *final(self) == t,
                Err(m) => (r matches Err(e) && e@ == m) && *final(self) == *old(self),
            },
    {
        let total = self.total_frames;
        if total == 0 {
            return Err("track has no frames".to_owned());
        }
        let a = ms_to_frames(start_ms, rate);
        let b = ms_to_frames(end_ms, rate);
        let start = if a <= total {
            a
        } else {
            total
        };
        let end = if b < 1 {
            1
        } else if b <= total {
            b
        } else {
            total
        };
        if start >= end {
            return Err("loop start must be before loop end".to_owned());
        }
        self.start_frame = start;
        self.end_frame = end;
        self.resume_frame = start;
        Ok(())
    }

    /// Sets the loop to exact frames; playback resumes at the new start.
    pub fn set_loop_frames(&mut self, start_frame: usize, end_frame: usize) -> (r: Result<(), String>)
        requires
            old(self).wf(),
        ensures
            final(self).wf(),
            r is Ok <==> start_frame < end_frame <= old(self).total_frames,
            r matches Err(m) ==> m@ == "loop start must be before loop end"@ && *final(self)
                == *old(self),
            r is Ok ==> *final(self) == (Transport {
                start_frame,
                end_frame,
                resume_frame: start_frame,
                ..*old(self)
            }),
    {
        if start_frame >= end_frame || end_frame > self.total_frames {
            return Err("loop start must be before loop end".to_owned());
        }
        self.start_frame = start_frame;
        self.end_frame = end_frame;
        self.resume_frame = start_frame;
        Ok(())
    }

    /// Where a seek to `position_ms` lands: the position cut to the
    /// track's duration, in frames, cut to the track.
    pub open spec fn spec_seek_target(&self, position_ms: u64, rate: u32, duration_ms: u64) -> usize {
        let ms = if position_ms <= duration_ms { position_ms } else { duration_ms };
        let f = spec_ms_to_frames(ms, rate);
        if f <= self.total_frames { f } else { self.total_frames }
    }

    pub fn seek_target(&self, position_ms: u64, rate: u32, duration_ms: u64) -> (r: usize)
        ensures
            r == self.spec_seek_target(position_ms, rate, duration_ms),
    {
        let ms = if position_ms <= duration_ms {
            position_ms
        } else {
            duration_ms
        };
        let f = ms_to_frames(ms, rate);
        if f <= self.total_frames {
            f
        } else {
            self.total_frames
        }
    }

    /// Seeks: the loop is unchanged, playback resumes at the target.
    pub fn seek(&mut self, position_ms: u64, rate: u32, duration_ms: u64) -> (r: usize)
        requires
            old(self).wf(),
        ensures
            final(self).wf(),
            r == old(self).spec_seek_target(position_ms, rate, duration_ms),
            r <= old(self).total_frames,
            *final(self) == (Transport { resume_frame: r, ..*old(self) }),
    {
        let from = self.seek_target(position_ms, rate, duration_ms);
        self.resume_frame = from;
        from
    }

    /// Stop returns to the loop start.
    pub fn stop(&mut self)
        requires
            old(self).wf(),
        ensures
            final(self).wf(),
            *final(self) == (Transport { resume_frame: old(self).start_frame, ..*old(self) }),
    {
        self.resume_frame = self.start_frame;
    }

    /// Pause keeps the position the audio had reached.
    pub fn pause(&mut self, cursor: usize)
        requires
            old(self).wf(),
        ensures
            final(self).wf(),
            *final(self) == (Transport { resume_frame: cursor, ..*old(self) }),
    {
        self.resume_frame = cursor;
    }

    /// Turns looping on or off; while playing, the source is rebuilt from
    /// where the audio had reached.
    pub fn set_enabled(&mut self, enabled: bool, playing: bool, cursor: usize)
        requires
            old(self).wf(),
        ensures
            final(self).wf(),
            *final(self) == (Transport {
                enabled,
                resume_frame: if playing { cursor } else { old(self).resume_frame },
                ..*old(self)
            }),
    {
        self.enabled = enabled;
        if playing {
            self.resume_frame = cursor;
        }
    }

    /// Moves every frame position onto a buffer of `new_total` frames
    /// (e.g. the time-stretched track) proportionally; the loop end stays
    /// within `1..=new_total`. Returns where the audio position `cursor`
    /// lands.
    pub fn retime(&mut self, new_total: usize, cursor: usize) -> (r: usize)
        requires
            old(self).wf(),
        ensures
            final(self).wf() || new_total == 0,
            ({
                let o = if old(self).total_frames >= 1 { old(self).total_frames } else { 1 };
                let n = if new_total >= 1 { new_total } else { 1 };
                let e = spec_remap_frame(old(self).end_frame, o, n);
                &&& r == spec_remap_frame(cursor, o, n)
                &&& *final(self) == (Transport {
                    total_frames: new_total,
                    start_frame: spec_remap_frame(old(self).start_frame, o, n),
                    end_frame: if e < 1 { 1 } else if e <= n { e } else { n },
                    resume_frame: spec_remap_frame(old(self).resume_frame, o, n),
                    enabled: old(self).enabled,
                })
            }),
    {
        let o = if self.total_frames >= 1 {
            self.total_frames
        } else {
            1
        };
        let n = if new_total >= 1 {
            new_total
        } else {
            1
        };
        let start = remap_frame(self.start_frame, o, n);
        let e = remap_frame(self.end_frame, o, n);
        let end = if e < 1 {
            1
        } else if e <= n {
            e
        } else {
            n
        };
        let resume = remap_frame(self.resume_frame, o, n);
        let from = remap_frame(cursor, o, n);
        self.total_frames = new_total;
        self.start_frame = start;
        self.end_frame = end;
        self.resume_frame = resume;
        from
    }
}

/// Loop points for a snapped loop request: both ends (from milliseconds,
/// cut to the track, the end at least frame 1) moved to a nearby zero
/// crossing.
pub fn snap_loop(buf: &LoopBuffer, start_ms: u64, end_ms: u64) -> (r: Result<(usize, usize), String>)
    ensures
        ({
            let total = buf.spec_frames() as int;
            let a = spec_ms_to_frames(start_ms, buf.rate) as int;
            let b = spec_ms_to_frames(end_ms, buf.rate) as int;
            let hi = if total >= 1 { total } else { 1 };
            let start = spec_snap(*buf, (if a <= total { a } else { total }) as usize);
            let end = spec_snap(*buf, (if b < 1 { 1 } else if b <= hi { b } else { hi }) as usize);
            if start >= end {
                r matches Err(m) && m@ == "snapped loop start must be before end"@
            } else {
                r == Ok::<(usize, usize), String>((start, end))
            }
        }),
{
    let total = buf.frames();
    let a = ms_to_frames(start_ms, buf.rate);
    let b = ms_to_frames(end_ms, buf.rate);
    let hi = if total >= 1 {
        total
    } else {
        1
    };
    let start = snap_zero_crossing(buf, if a <= total {
        a
    } else {
        total
    });
    let end = snap_zero_crossing(buf, if b < 1 {
        1
    } else if b <= hi {
        b
    } else {
        hi
    });
    if start >= end {
        return Err("snapped loop start must be before end".to_owned());
    }
    Ok((start, end))
}

/// Most decoded tracks kept for instant reloads.
pub const DECODE_CACHE_MAX_TRACKS: usize = 6;

/// Most sample bytes kept for instant reloads (128 MiB).
pub const DECODE_CACHE_MAX_BYTES: usize = 128 * 1024 * 1024;

/// Bytes held by the buffers of `es`.
pub open spec fn cache_bytes(es: Seq<(Seq<char>, LoopBuffer)>) -> nat
    decreases es.len(),
{
    if es.len() == 0 {
        0
    } else {
        cache_bytes(es.drop_last()) + es.last().1.spec_memory_bytes()
    }
}

/// `es` without the entry for `path`.
pub open spec fn cache_without(es: Seq<(Seq<char>, LoopBuffer)>, path: Seq<char>) -> Seq<
    (Seq<char>, LoopBuffer),
>
    decreases es.len(),
{
    if es.len() == 0 {
        es
    } else {
        let rest = cache_without(es.drop_last(), path);
        if es.last().0 == path {
            rest
        } else {
            rest.push(es.last())
        }
    }
}

/// `es` with its oldest entries evicted until one more buffer of `bytes`
/// fits the track and byte limits.
pub open spec fn cache_evicted(es: Seq<(Seq<char>, LoopBuffer)>, bytes: nat) -> Seq<
    (Seq<char>, LoopBuffer),
>
    decreases es.len(),
{
    if es.len() > 0 && (es.len() >= DECODE_CACHE_MAX_TRACKS || cache_bytes(es) + bytes
        > DECODE_CACHE_MAX_BYTES) {
        cache_evicted(es.drop_first(), bytes)
    } else {
        es
    }
}

/// The cache after keeping `buf` decoded for `path`: any older entry for
/// that path leaves; a buffer above the byte limit is not kept; otherwise
/// the oldest entries make room and the new one comes last.
pub open spec fn cache_after_insert(
    es: Seq<(Seq<char>, LoopBuffer)>,
    path: Seq<char>,
    buf: LoopBuffer,
) -> Seq<(Seq<char>, LoopBuffer)> {
    let kept = cache_without(es, path);
    if buf.spec_memory_bytes() > DECODE_CACHE_MAX_BYTES {
        kept
    } else {
        cache_evicted(kept, buf.spec_memory_bytes()).push((path, buf))
    }
}

/// The most recently loaded decoded tracks, oldest first, so that going
/// back to one of them needs no second decode.
pub struct DecodeCache {
    entries: VecDeque<(String, Arc<LoopBuffer>)>,
    bytes: usize,
}

/// The buffer an `Arc` shares.
pub open spec fn shared_buffer(b: Arc<LoopBuffer>) -> LoopBuffer {
    *b
}

pub open spec fn entry_view(e: (String, Arc<LoopBuffer>)) -> (Seq<char>, LoopBuffer) {
    (e.0@, *e.1)
}

pub open spec fn paths_distinct(es: Seq<(Seq<char>, LoopBuffer)>) -> bool {
    forall|i: int, j: int| 0 <= i < j < es.len() ==> es[i].0 != es[j].0
}

proof fn lemma_cache_bytes_push(es: Seq<(Seq<char>, LoopBuffer)>, e: (Seq<char>, LoopBuffer))
    ensures
        cache_bytes(es.push(e)) == cache_bytes(es) + e.1.spec_memory_bytes(),
{
    assert(es.push(e).drop_last() =~= es);
}

proof fn lemma_cache_bytes_drop_first(es: Seq<(Seq<char>, LoopBuffer)>)
    requires
        es.len() > 0,
    ensures
        cache_bytes(es) == es[0].1.spec_memory_bytes() + cache_bytes(es.drop_first()),
    decreases es.len(),
{
    let d = es.drop_last();
    let f = es.drop_first();
    if es.len() > 1 {
        lemma_cache_bytes_drop_first(d);
        assert(f.drop_last() =~= d.drop_first());
        assert(f.last() == es.last());
        assert(d[0] == es[0]);
        assert(cache_bytes(f) == cache_bytes(f.drop_last()) + f.last().1.spec_memory_bytes());
    } else {
        assert(f.len() == 0);
        assert(d.len() == 0);
        assert(es.last() == es[0]);
        assert(cache_bytes(es) == cache_bytes(d) + es.last().1.spec_memory_bytes());
    }
}

proof fn lemma_without_props(es: Seq<(Seq<char>, LoopBuffer)>, path: Seq<char>)
    ensures
        cache_bytes(cache_without(es, path)) <= cache_bytes(es),
        cache_without(es, path).len() <= es.len(),
        forall|i: int|
            0 <= i < cache_without(es, path).len() ==> #[trigger] cache_without(es, path)[i].0
                != path && es.contains(cache_without(es, path)[i]),
        paths_distinct(es) ==> paths_distinct(cache_without(es, path)),
    decreases es.len(),
{
    if es.len() > 0 {
        let d = es.drop_last();
        lemma_without_props(d, path);
        let rest = cache_without(d, path);
        if es.last().0 != path {
            lemma_cache_bytes_push(rest, es.last());
            assert forall|i: int| 0 <= i < rest.push(es.last()).len() implies #[trigger] rest.push(
                es.last(),
            )[i].0 != path && es.contains(rest.push(es.last())[i]) by {
                if i < rest.len() {
                    assert(rest.push(es.last())[i] == rest[i]);
                    assert(rest[i].0 != path);
                    assert(d.contains(rest[i]));
                    let k = choose|k: int| 0 <= k < d.len() && d[k] == rest[i];
                    assert(es[k] == d[k]);
                } else {
                    assert(es[es.len() - 1] == es.last());
                }
            }
            if paths_distinct(es) {
                assert(paths_distinct(d)) by {
                    assert forall|i: int, j: int| 0 <= i < j < d.len() implies d[i].0 != d[j].0 by {
                        assert(d[i] == es[i] && d[j] == es[j]);
                    }
                }
                assert forall|i: int, j: int|
                    0 <= i < j < rest.push(es.last()).len() implies rest.push(es.last())[i].0
                    != rest.push(es.last())[j].0 by {
                    if j == rest.len() {
                        assert(rest.push(es.last())[i] == rest[i]);
                        assert(rest[i].0 != path);
                        assert(d.contains(rest[i]));
                        let k = choose|k: int| 0 <= k < d.len() && d[k] == rest[i];
                        assert(es[k] == d[k]);
                        assert(es[es.len() - 1] == es.last());
                    } else {
                        assert(rest.push(es.last())[i] == rest[i]);
                        assert(rest.push(es.last())[j] == rest[j]);
                    }
                }
            }
        } else {
            if paths_distinct(es) {
                assert forall|i: int, j: int| 0 <= i < j < d.len() implies d[i].0 != d[j].0 by {
                    assert(d[i] == es[i] && d[j] == es[j]);
                }
            }
        }
    }
}

impl DecodeCache {
    /// The cached entries, oldest first.
    pub closed spec fn view_entries(&self) -> Seq<(Seq<char>, LoopBuffer)> {
        self.entries@.map_values(|e: (String, Arc<LoopBuffer>)| entry_view(e))
    }

    /// The byte count is that of the entries; paths are distinct; both
    /// limits hold.
    pub closed spec fn wf(&self) -> bool {
        &&& self.bytes == cache_bytes(self.view_entries())
        &&& paths_distinct(self.view_entries())
        &&& self.entries@.len() <= DECODE_CACHE_MAX_TRACKS
        &&& self.bytes <= DECODE_CACHE_MAX_BYTES
    }

    pub fn new() -> (r: DecodeCache)
        ensures
            r.wf(),
            r.view_entries().len() == 0,
    {
        let r = DecodeCache { entries: VecDeque::new(), bytes: 0 };
        assert(r.view_entries() =~= Seq::<(Seq<char>, LoopBuffer)>::empty());
        r
    }

    /// Bytes currently kept.
    pub fn bytes(&self) -> (r: usize)
        requires
            self.wf(),
        ensures
            r == cache_bytes(self.view_entries()),
    {
        self.bytes
    }

    /// Number of tracks currently kept.
    pub fn len(&self) -> (r: usize)
        ensures
            r == self.view_entries().len(),
    {
        self.entries.len()
    }

    /// Takes the buffer kept for `path`, if any, out of the cache.
    pub fn take(&mut self, path: &str) -> (r: Option<Arc<LoopBuffer>>)
        requires
            old(self).wf(),
        ensures
            final(self).wf(),
            match r {
                Some(b) => old(self).view_entries().contains((path@, *b)) && final(self).view_entries() == cache_without(old(self).view_entries(), path@),
                None => final(self).view_entries() == old(self).view_entries() && forall|i: int|
                    0 <= i < old(self).view_entries().len() ==> #[trigger] old(self).view_entries()[i].0 != path@,
            },
    {
        let ghost es = self.view_entries();
        let mut i: usize = 0;
        while i < self.entries.len()
            invariant
                self.wf(),
                es == self.view_entries(),
                es == old(self).view_entries(),
                i <= self.entries@.len(),
                forall|k: int| 0 <= k < i ==> #[trigger] es[k].0 != path@,
            decreases self.entries@.len() - i,
        {
            if str_eq(self.entries[i].0.as_str(), path) {
                assert(es[i as int] == entry_view(self.entries@[i as int]));
                let (p, b) = self.entries.remove(i).unwrap();
                proof {
                    let after = self.entries@.map_values(|e: (String, Arc<LoopBuffer>)| entry_view(e));
                    assert(after =~= es.remove(i as int));
                    lemma_remove_is_without(es, path@, i as int);
                    lemma_without_props(es, path@);
                    assert(es[i as int] == (path@, shared_buffer(b)));
                    assert(es.contains((path@, shared_buffer(b))));
                    assert(paths_distinct(after)) by {
                        assert forall|x: int, y: int| 0 <= x < y < after.len() implies after[x].0
                            != after[y].0 by {
                            let ex = if x < i { x } else { x + 1 };
                            let ey = if y < i { y } else { y + 1 };
                            assert(after[x] == es[ex] && after[y] == es[ey]);
                        }
                    }
                }
                self.bytes = self.bytes - b.memory_bytes();
                assert(self.view_entries() =~= es.remove(i as int));
                assert(self.view_entries() == cache_without(es, path@));
                assert(es.contains((path@, shared_buffer(b))));
                return Some(b);
            }
            i = i + 1;
        }
        None
    }

    /// Keeps `buffer` decoded for `path`: an older entry for the path
    /// leaves; a buffer above the byte limit is not kept; otherwise the
    /// oldest entries make room and the buffer comes last.
    pub fn insert(&mut self, path: String, buffer: Arc<LoopBuffer>)
        requires
            old(self).wf(),
        ensures
            final(self).wf(),
            final(self).view_entries() == cache_after_insert(
                old(self).view_entries(),
                path@,
                *buffer,
            ),
    {
        let ghost es = self.view_entries();
        let ghost bv: LoopBuffer = shared_buffer(buffer);
        let taken = self.take(path.as_str());
        proof {
            if taken is None {
                lemma_without_identity(es, path@);
            }
            lemma_without_props(es, path@);
        }
        let bytes = buffer.memory_bytes();
        if bytes > DECODE_CACHE_MAX_BYTES {
            return;
        }
        while self.entries.len() > 0 && (self.entries.len() >= DECODE_CACHE_MAX_TRACKS
            || self.bytes + bytes > DECODE_CACHE_MAX_BYTES)
            invariant
                self.wf(),
                bytes == buffer.spec_memory_bytes(),
                bytes <= DECODE_CACHE_MAX_BYTES,
                cache_evicted(self.view_entries(), bytes as nat) == cache_evicted(
                    cache_without(es, path@),
                    bytes as nat,
                ),
                forall|i: int|
                    0 <= i < self.view_entries().len() ==> #[trigger] self.view_entries()[i].0
                        != path@,
            decreases self.entries@.len(),
        {
            let ghost before = self.view_entries();
            let (gone, evicted) = self.entries.pop_front().unwrap();
            proof {
                let after = self.entries@.map_values(|e: (String, Arc<LoopBuffer>)| entry_view(e));
                assert(after =~= before.drop_first());
                lemma_cache_bytes_drop_first(before);
                assert(before[0] == entry_view((gone, evicted)));
            }
            self.bytes = self.bytes - evicted.memory_bytes();
        }
        let ghost before = self.view_entries();
        self.bytes = self.bytes + bytes;
        self.entries.push_back((path, buffer));
        proof {
            let after = self.entries@.map_values(|e: (String, Arc<LoopBuffer>)| entry_view(e));
            assert(after =~= before.push((path@, bv)));
            lemma_cache_bytes_push(before, (path@, bv));
        }
    }
}

proof fn lemma_remove_is_without(es: Seq<(Seq<char>, LoopBuffer)>, path: Seq<char>, i: int)
    requires
        0 <= i < es.len(),
        es[i].0 == path,
        paths_distinct(es),
    ensures
        es.remove(i) == cache_without(es, path),
        cache_bytes(es) == cache_bytes(es.remove(i)) + es[i].1.spec_memory_bytes(),
    decreases es.len(),
{
    let d = es.drop_last();
    if i == es.len() - 1 {
        assert(es.remove(i) =~= d);
        lemma_without_identity(d, path);
    } else {
        assert(paths_distinct(d)) by {
            assert forall|a: int, b: int| 0 <= a < b < d.len() implies d[a].0 != d[b].0 by {
                assert(d[a] == es[a] && d[b] == es[b]);
            }
        }
        lemma_remove_is_without(d, path, i);
        assert(es.remove(i) =~= d.remove(i).push(es.last()));
        assert(es.last().0 != path) by {
            assert(es[es.len() - 1] == es.last());
        }
        lemma_cache_bytes_push(d.remove(i), es.last());
    }
}

proof fn lemma_without_identity(es: Seq<(Seq<char>, LoopBuffer)>, path: Seq<char>)
    requires
        forall|i: int| 0 <= i < es.len() ==> #[trigger] es[i].0 != path,
    ensures
        cache_without(es, path) == es,
    decreases es.len(),
{
    if es.len() > 0 {
        let d = es.drop_last();
        assert forall|i: int| 0 <= i < d.len() implies #[trigger] d[i].0 != path by {
            assert(d[i] == es[i]);
        }
        lemma_without_identity(d, path);
        assert(es[es.len() - 1] == es.last());
        assert(d.push(es.last()) =~= es);
    }
}

/// The decode cache never holds more than its track and byte limits, and
/// never two entries for one path; a buffer it has just kept (within the
/// byte limit) is the newest entry, so taking its path gives it back.
pub proof fn lemma_cache_bounded(c: &DecodeCache, path: Seq<char>, buf: LoopBuffer)
    requires
        c.wf(),
    ensures
        c.view_entries().len() <= DECODE_CACHE_MAX_TRACKS,
        cache_bytes(c.view_entries()) <= DECODE_CACHE_MAX_BYTES,
        paths_distinct(c.view_entries()),
        buf.spec_memory_bytes() <= DECODE_CACHE_MAX_BYTES ==> cache_after_insert(
            c.view_entries(),
            path,
            buf,
        ).last() == (path, buf),
{
}

/// What the engine does next about loading.
#[derive(Debug, Clone)]
pub enum LoadStep {
    /// Nothing to do now.
    Idle,
    /// Start a background decode for this request.
    Decode(PendingLoad),
    /// Install the buffer for load generation `generation`.
    Apply { generation: u64 },
}

/// Load requests and the one background decode that serves them. Every
/// request gets a new generation; a finished decode is installed only if
/// it is still the latest request, and at most one decode runs at a time.
#[derive(Debug, Clone)]
pub struct LoadQueue {
    pub generation: u64,
    pub pending: Option<PendingLoad>,
    pub decode_running: bool,
    pub last_error: Option<String>,
}

impl LoadQueue {
    pub fn new() -> (r: LoadQueue)
        ensures
            r.generation == 0,
            r.pending is None,
            !r.decode_running,
            r.last_error is None,
    {
        LoadQueue { generation: 0, pending: None, decode_running: false, last_error: None }
    }

    /// A new request for `path`. With the track still decoded in the cache
    /// it is installed at once; otherwise it becomes the pending request,
    /// and a decode starts unless one is already running (that one's
    /// completion starts the newest request next).
    pub fn request(&mut self, path: &str, cached: bool) -> (r: LoadStep)
        requires
            old(self).generation < u64::MAX,
        ensures
            final(self).generation == old(self).generation + 1,
            cached ==> r == (LoadStep::Apply { generation: final(self).generation })
                && final(self).pending == old(self).pending
                && final(self).decode_running == old(self).decode_running
                && final(self).last_error == old(self).last_error,
            !cached ==> (final(self).pending matches Some(p) && p.generation == final(self).generation && p.path@ == path@),
            !cached ==> final(self).last_error is None && final(self).decode_running,
            !cached && old(self).decode_running ==> r is Idle,
            !cached && !old(self).decode_running ==> (r matches LoadStep::Decode(q) && q.generation
                == final(self).generation && q.path@ == path@),
    {
        self.generation = self.generation + 1;
        if cached {
            return LoadStep::Apply { generation: self.generation };
        }
        self.pending = Some(PendingLoad { generation: self.generation, path: String::from_str(path) });
        self.last_error = None;
        if self.decode_running {
            return LoadStep::Idle;
        }
        self.decode_running = true;
        LoadStep::Decode(PendingLoad { generation: self.generation, path: String::from_str(path) })
    }

    /// The decode worker could not be started: the request is dropped
    /// with an error.
    pub fn decode_not_started(&mut self)
        ensures
            final(self).generation == old(self).generation,
            !final(self).decode_running,
            final(self).pending is None,
            final(self).last_error matches Some(e) && e@ == "cannot start background decode"@,
    {
        self.decode_running = false;
        self.pending = None;
        self.last_error = Some("cannot start background decode".to_owned());
    }

    /// A decode for (`generation`, `path`) finished, with `error` when it
    /// failed. Only the latest request is installed; a superseded result
    /// is dropped and the newest request, if any, starts decoding.
    pub fn completed(&mut self, generation: u64, path: &str, error: Option<String>) -> (r: LoadStep)
        ensures
            final(self).generation == old(self).generation,
            if load_current(old(self).pending, generation, path@) {
                &&& final(self).pending is None
                &&& !final(self).decode_running
                &&& match error {
                    Some(e) => r is Idle && final(self).last_error == Some(e),
                    None => r == (LoadStep::Apply { generation }) && final(self).last_error
                        == old(self).last_error,
                }
            } else {
                &&& final(self).pending == old(self).pending
                &&& final(self).last_error == old(self).last_error
                &&& match old(self).pending {
                    Some(p) => final(self).decode_running && (r matches LoadStep::Decode(q)
                        && q.generation == p.generation && q.path@ == p.path@),
                    None => !final(self).decode_running && r is Idle,
                }
            },
    {
        self.decode_running = false;
        if !load_ready_current(&self.pending, generation, path) {
            return match &self.pending {
                Some(p) => {
                    self.decode_running = true;
                    LoadStep::Decode(PendingLoad { generation: p.generation, path: String::from_str(p.path.as_str()) })
                },
                None => LoadStep::Idle,
            };
        }
        self.pending = None;
        match error {
            Some(e) => {
                self.last_error = Some(e);
                LoadStep::Idle
            },
            None => LoadStep::Apply { generation },
        }
    }

    /// A decode is under way or queued.
    pub fn loading(&self) -> (r: bool)
        ensures
            r == self.pending is Some,
    {
        self.pending.is_some()
    }
}

/// Whether `pending` is the request (`generation`, `path`).
pub open spec fn load_current(pending: Option<PendingLoad>, generation: u64, path: Seq<char>) -> bool {
    pending matches Some(p) && p.generation == generation && p.path@ == path
}

/// A loop request that succeeds leaves a non-empty loop inside the track,
/// with playback resuming at its start; a refused one changes nothing.
pub proof fn lemma_set_loop_ms_ordered(t: Transport, start_ms: u64, end_ms: u64, rate: u32)
    requires
        t.wf(),
    ensures
        t.spec_set_loop_ms(start_ms, end_ms, rate) matches Ok(u) ==> u.start_frame < u.end_frame
            <= u.total_frames && u.resume_frame == u.start_frame && u.total_frames == t.total_frames
            && u.enabled == t.enabled,
{
}

/// Remapping keeps the order of frames within the old buffer, maps the old end onto the new end, leaves
/// frames alone between buffers of one length, and sends everything to 0
/// from an empty buffer.
pub proof fn lemma_remap_laws(a: usize, b: usize, old_total: usize, new_total: usize)
    ensures
        old_total > 0 && a <= b <= old_total ==> spec_remap_frame(a, old_total, new_total)
            <= spec_remap_frame(
            b,
            old_total,
            new_total,
        ),
        old_total > 0 && old_total as int * new_total as int / old_total as int <= usize::MAX
            ==> spec_remap_frame(old_total, old_total, new_total) == new_total,
        old_total > 0 ==> spec_remap_frame(a, old_total, old_total) == a,
        spec_remap_frame(a, 0, new_total) == 0,
{
    if old_total > 0 {
        let o = old_total as int;
        let n = new_total as int;
        assert(a <= b ==> (a as int) * n / o <= (b as int) * n / o) by (nonlinear_arith)
            requires
                o > 0,
                n >= 0,
                a >= 0,
        ;
        assert(o * n / o == n) by (nonlinear_arith)
            requires
                o > 0,
        ;
        assert((a as int) * o / o == a) by (nonlinear_arith)
            requires
                o > 0,
        ;
        if a <= b && b <= old_total {
            assert((b as int) * n / o <= n) by (nonlinear_arith)
                requires
                    o > 0,
                    n >= 0,
                    0 <= b <= o,
            ;
            assert((a as int) * n / o >= 0) by (nonlinear_arith)
                requires
                    o > 0,
                    n >= 0,
                    a >= 0,
            ;
        }
    }
}

/// Converting milliseconds to frames and back never lands after the
/// starting point, and returns exactly to it when the milliseconds fall on
/// a frame boundary.
pub proof fn lemma_ms_frames_roundtrip(ms: u64, rate: u32)
    requires
        rate > 0,
        (ms as int) * (rate as int) / 1000 <= usize::MAX,
    ensures
        spec_frames_to_ms(spec_ms_to_frames(ms, rate), rate) <= ms,
        (ms as int) * (rate as int) % 1000 == 0 ==> spec_frames_to_ms(spec_ms_to_frames(ms, rate), rate)
            == ms,
{
    let m = ms as int;
    let r = rate as int;
    let f = m * r / 1000;
    assert(f * 1000 <= m * r) by (nonlinear_arith)
        requires
            f == m * r / 1000,
            m >= 0,
            r > 0,
    ;
    assert(f * 1000 / r <= m) by (nonlinear_arith)
        requires
            f * 1000 <= m * r,
            r > 0,
            f >= 0,
    ;
    if m * r % 1000 == 0 {
        assert(f * 1000 == m * r) by (nonlinear_arith)
            requires
                f == m * r / 1000,
                m * r % 1000 == 0,
        ;
        assert((m * r) / r == m) by (nonlinear_arith)
            requires
                r > 0,
        ;
    }
}

/// A stretch of the loaded track, mixed to mono and thinned out, for
/// drawing loop boundaries up close.
#[derive(Debug, Clone)]
pub struct SampleWindow {
    pub start_frame: usize,
    pub end_frame: usize,
    pub sample_rate: u32,
    pub channels: u16,
    pub samples: Vec<i16>,
}

/// Mono value of frame `f` for drawing: the channel sum divided by the
/// channel count, rounding down.
pub open spec fn mono_floor(s: Seq<i16>, ch: nat, f: int) -> int {
    channel_sum(s, ch, f, ch) / (ch as int)
}

/// Bounds, stride and point count of a sample window around `center`.
pub open spec fn window_plan(total: int, center: int, radius: int, max_points: int) -> (
    int,
    int,
    int,
    int,
) {
    let lo0 = if center >= radius { center - radius } else { 0 };
    let lo = if lo0 <= total - 1 { lo0 } else { total - 1 };
    let hi0 = if center + radius <= usize::MAX { center + radius } else { usize::MAX as int };
    let hi = if hi0 <= total { hi0 } else { total };
    let count = if hi >= lo { hi - lo } else { 0 };
    let step = if count > max_points { count / max_points } else { 1 };
    let points = (count + step - 1) / step;
    (lo, hi, step, if points <= max_points { points } else { max_points })
}

/// The window around `center_frame` (`radius_frames` each way, cut to the
/// track) with at most `max_points` evenly strided mono samples.
pub open spec fn spec_sample_window(
    buf: LoopBuffer,
    center: usize,
    radius: usize,
    max_points: usize,
) -> Result<(int, int, Seq<int>), Seq<char>> {
    let total = buf.spec_frames() as int;
    let ch = frame_width(buf.channels);
    let (lo, hi, step, n) = window_plan(total, center as int, radius as int, max_points as int);
    if total == 0 {
        Err("track has no frames"@)
    } else if hi <= lo {
        Err("empty sample window"@)
    } else {
        Ok((lo, hi, Seq::new(n as nat, |k: int| mono_floor(buf.samples@, ch, lo + k * step))))
    }
}

/// Samples around `center_frame` for a close-up of a loop boundary.
pub fn sample_window(buf: &LoopBuffer, center_frame: usize, radius_frames: usize, max_points: usize) -> (r:
    Result<SampleWindow, String>)
    requires
        max_points > 0,
    ensures
        match spec_sample_window(*buf, center_frame, radius_frames, max_points) {
            Err(m) => r matches Err(e) && e@ == m,
            Ok((lo, hi, pts)) => r matches Ok(w) && w.start_frame == lo && w.end_frame == hi
                && w.sample_rate == buf.rate && w.channels == buf.channels && w.samples@.len()
                == pts.len() && forall|k: int| 0 <= k < pts.len() ==> w.samples@[k] as int == pts[k],
        },
{
    let total = buf.frames();
    if total == 0 {
        return Err("track has no frames".to_owned());
    }
    let channels: usize = if buf.channels == 0 {
        1
    } else {
        buf.channels as usize
    };
    let total_samples = buf.samples.len();
    proof {
        let len = buf.samples@.len() as int;
        let c = channels as int;
        assert(total * c <= len) by (nonlinear_arith)
            requires
                total == len / c,
                c >= 1,
        ;
    }
    let lo0 = center_frame.saturating_sub(radius_frames);
    let lo = if lo0 <= total - 1 {
        lo0
    } else {
        total - 1
    };
    let hi0 = center_frame.saturating_add(radius_frames);
    let hi = if hi0 <= total {
        hi0
    } else {
        total
    };
    let count = hi.saturating_sub(lo);
    if count == 0 {
        return Err("empty sample window".to_owned());
    }
    let step = if count > max_points {
        count / max_points
    } else {
        1
    };
    let ghost plan = window_plan(total as int, center_frame as int, radius_frames as int, max_points as int);
    proof {
        assert(step >= 1) by (nonlinear_arith)
            requires
                count > max_points ==> step == count / max_points,
                count <= max_points ==> step == 1,
                max_points > 0,
        ;
    }
    let ghost n = plan.3;
    let mut samples: Vec<i16> = Vec::new();
    let mut k: usize = 0;
    proof {
        assert(k * step == 0) by (nonlinear_arith)
            requires
                k == 0,
        ;
    }
    while k < max_points && k * step < count
        invariant
            lo < hi <= total,
            count == hi - lo,
            step >= 1,
            count > max_points ==> step == count / max_points,
            count <= max_points ==> step == 1,
            max_points > 0,
            k <= max_points,
            k * step <= count + step - 1,
            k * step <= count,
            samples@.len() == k,
            1 <= channels <= 65535,
            channels as nat == frame_width(buf.channels),
            total * channels <= total_samples,
            total_samples == buf.samples@.len(),
            forall|j: int|
                0 <= j < samples@.len() ==> samples@[j] as int == mono_floor(
                    buf.samples@,
                    channels as nat,
                    lo + j * step,
                ),
        decreases max_points - k,
    {
        let frame = lo + k * step;
        proof {
            assert(frame * channels + channels <= total * channels) by (nonlinear_arith)
                requires
                    frame + 1 <= total,
                    channels >= 1,
            ;
        }
        let sum = frame_sum(&buf.samples, channels, frame);
        proof {
            let t = sum as int;
            let c = channels as int;
            assert(-32768 <= t / c <= 32767) by (nonlinear_arith)
                requires
                    -32768 * c <= t <= 32767 * c,
                    c >= 1,
            ;
        }
        let t = sum as i64;
        let c = channels as i64;
        let m: i64 = if t >= 0 {
            t / c
        } else {
            -((-t + c - 1) / c)
        };
        proof {
            let ti = t as int;
            let ci = c as int;
            if ti < 0 {
                assert(-((-ti + ci - 1) / ci) == ti / ci) by (nonlinear_arith)
                    requires
                        ti < 0,
                        ci >= 1,
                ;
            }
        }
        samples.push(m as i16);
        proof {
            let kk = k as int;
            let st = step as int;
            let ct = count as int;
            let mp = max_points as int;
            assert((kk + 1) * st <= ct + st - 1) by (nonlinear_arith)
                requires
                    kk * st < ct,
            ;
            if kk + 1 <= mp {
                assert((kk + 1) * st <= ct) by (nonlinear_arith)
                    requires
                        kk + 1 <= mp,
                        kk * st < ct,
                        ct > mp ==> st == ct / mp,
                        ct <= mp ==> st == 1,
                        mp > 0,
                        st >= 1,
                ;
            }
        }
        k = k + 1;
    }
    proof {
        let ct = count as int;
        let st = step as int;
        let kk = k as int;
        assert(kk == (if (ct + st - 1) / st <= max_points { (ct + st - 1) / st } else {
            max_points as int
        })) by (nonlinear_arith)
            requires
                kk <= max_points,
                kk * st <= ct + st - 1,
                kk == max_points || kk * st >= ct,
                st >= 1,
                ct >= 1,
        ;
    }
    Ok(SampleWindow {
        start_frame: lo,
        end_frame: hi,
        sample_rate: buf.rate,
        channels: buf.channels,
        samples,
    })
}

/// Where a dragged loop boundary lands after snapping.
#[derive(Debug, Clone, Copy, PartialEq, Eq)]
pub struct SnappedBoundary {
    pub frame: usize,
    pub ms: u64,
    /// Jump between the sample at the snapped frame and the one asked for.
    pub discontinuity: u32,
    pub zero_crossing_found: bool,
}

/// Sample at index `i` (for a boundary, the frame index is used).
pub open spec fn boundary_sample(buf: LoopBuffer, i: int) -> int {
    buf.samples@[i] as int
}

/// The snapped boundary for `boundary` (`start` or `end`) dragged to
/// `requested_frame` while the other boundary sits at `other`.
pub open spec fn spec_snap_boundary(
    buf: LoopBuffer,
    boundary: Seq<char>,
    requested_frame: usize,
    other: usize,
) -> Result<SnappedBoundary, Seq<char>> {
    let total = buf.spec_frames() as int;
    let requested = if requested_frame <= total - 1 { requested_frame as int } else { total - 1 };
    let snapped = spec_snap(buf, requested as usize) as int;
    let jump = abs_int(boundary_sample(buf, snapped) - boundary_sample(buf, requested));
    let found = snapped != requested || (snapped > 0 && boundary_sample(buf, snapped - 1)
        * boundary_sample(buf, snapped) <= 0);
    let start_limit = if other >= 1 { other - 1 } else { 0 };
    let end_low = if snapped >= other + 1 { snapped } else { other + 1 };
    let frame = if boundary == "start"@ {
        if snapped <= start_limit { snapped } else { start_limit }
    } else {
        if end_low <= total { end_low } else { total }
    };
    if total == 0 {
        Err("track has no frames"@)
    } else if boundary != "start"@ && boundary != "end"@ {
        Err("boundary must be \"start\" or \"end\""@)
    } else {
        Ok(
            SnappedBoundary {
                frame: frame as usize,
                ms: if buf.rate > 0 { (frame * 1000 / (buf.rate as int)) as u64 } else { 0 },
                discontinuity: jump as u32,
                zero_crossing_found: found,
            },
        )
    }
}

/// Snaps a dragged loop boundary to a nearby zero crossing, keeping the
/// start before the other boundary and the end after it.
pub fn snap_loop_boundary(buf: &LoopBuffer, boundary: &str, requested_frame: usize, other: usize) -> (r:
    Result<SnappedBoundary, String>)
    requires
        other < usize::MAX,
        buf.spec_frames() * 1000 <= u64::MAX,
    ensures
        match spec_snap_boundary(*buf, boundary@, requested_frame, other) {
            Ok(b) => r == Ok::<SnappedBoundary, String>(b),
            Err(m) => r matches Err(e) && e@ == m,
        },
{
    let total = buf.frames();
    if total == 0 {
        return Err("track has no frames".to_owned());
    }
    let n_samples = buf.samples.len();
    proof {
        let len = buf.samples@.len() as int;
        let c = buf.channels as int;
        assert(total <= len) by (nonlinear_arith)
            requires
                total == len / c,
                c >= 1,
                len >= 0,
        ;
    }
    let requested = if requested_frame <= total - 1 {
        requested_frame
    } else {
        total - 1
    };
    let snapped = snap_zero_crossing(buf, requested);
    let a = buf.samples[snapped] as i32;
    let b = buf.samples[requested] as i32;
    let jump: u32 = if a >= b {
        (a - b) as u32
    } else {
        (b - a) as u32
    };
    let found = if snapped != requested {
        true
    } else if snapped > 0 {
        let p = buf.samples[snapped - 1] as i32;
        let q = buf.samples[snapped] as i32;
        assert(-1073741824 <= p * q <= 1073741824) by (nonlinear_arith)
            requires
                -32768 <= p <= 32767,
                -32768 <= q <= 32767,
        ;
        p * q <= 0
    } else {
        false
    };
    let frame = if str_eq(boundary, "start") {
        let limit = if other >= 1 {
            other - 1
        } else {
            0
        };
        if snapped <= limit {
            snapped
        } else {
            limit
        }
    } else if str_eq(boundary, "end") {
        let low = if snapped >= other + 1 {
            snapped
        } else {
            other + 1
        };
        if low <= total {
            low
        } else {
            total
        }
    } else {
        return Err("boundary must be \"start\" or \"end\"".to_owned());
    };
    let ms: u64 = if buf.rate > 0 {
        frame as u64 * 1000 / buf.rate as u64
    } else {
        0
    };
    Ok(SnappedBoundary { frame, ms, discontinuity: jump, zero_crossing_found: found })
}

/// A snapped start stays before the other boundary and a snapped end
/// after it, as far as the track allows: loop boundaries never cross.
pub proof fn lemma_snapped_boundaries_keep_order(
    buf: LoopBuffer,
    boundary: Seq<char>,
    requested_frame: usize,
    other: usize,
)
    requires
        other < usize::MAX,
    ensures
        spec_snap_boundary(buf, boundary, requested_frame, other) matches Ok(b) ==> {
            &&& boundary == "start"@ && other >= 1 ==> b.frame < other
            &&& boundary == "end"@ && other + 1 <= buf.spec_frames() ==> b.frame > other
            &&& b.frame <= buf.spec_frames()
        },
{
    reveal_strlit("start");
    reveal_strlit("end");
    assert("end"@.len() != "start"@.len());
    let total = buf.spec_frames() as int;
    if total > 0 {
        let requested = if requested_frame <= total - 1 { requested_frame as int } else { total - 1 };
        let snapped = spec_snap(buf, requested as usize) as int;
        if total >= 2 {
            lemma_snap_in_track(buf, requested as usize);
        } else {
            assert(requested == 0);
        }
        assert(snapped <= total);
        let start_limit = if other >= 1 { other - 1 } else { 0 };
        let end_low = if snapped >= other + 1 { snapped } else { other + 1 };
        let frame = if boundary == "start"@ {
            if snapped <= start_limit { snapped } else { start_limit }
        } else {
            if end_low <= total { end_low } else { total }
        };
        assert(0 <= frame <= total);
        assert(frame <= usize::MAX);
    }
}

proof fn lemma_snap_in_track(buf: LoopBuffer, requested: usize)
    requires
        buf.spec_frames() >= 2,
    ensures
        spec_snap(buf, requested) < buf.spec_frames(),
{
    let frames = buf.spec_frames() as int;
    let radius = if buf.rate / 100 >= 1 { buf.rate / 100 } else { 1 };
    let ch = buf.channels as nat;
    let (lo, hi) = snap_window(frames, requested as int, radius as int);
    lemma_best_bounds(buf.samples@, ch, requested as int, lo, hi);
    crate::autoloop::lemma_quietest_bounds(buf.samples@, ch, lo, hi + 1);
}

/// A sample window holds at most the points asked for, lies inside the
/// track and spans at most twice the radius (a single frame when the
/// centre lies past the end).
pub proof fn lemma_sample_window_bounded(buf: LoopBuffer, center: usize, radius: usize, max_points: usize)
    requires
        max_points > 0,
    ensures
        spec_sample_window(buf, center, radius, max_points) matches Ok((lo, hi, pts)) ==> {
            &&& pts.len() <= max_points
            &&& 0 <= lo < hi <= buf.spec_frames()
            &&& hi - lo <= 2 * radius || hi - lo == 1
        },
{
    let total = buf.spec_frames() as int;
    let (lo, hi, step, n) = window_plan(total, center as int, radius as int, max_points as int);
    let count = if hi >= lo { hi - lo } else { 0 };
    assert(step >= 1) by (nonlinear_arith)
        requires
            step == (if count > max_points { count / (max_points as int) } else { 1 }),
            max_points > 0,
    ;
    assert((count + step - 1) / step >= 0) by (nonlinear_arith)
        requires
            step >= 1,
            count >= 0,
    ;
    assert(0 <= n <= max_points);
}

} // verus!
