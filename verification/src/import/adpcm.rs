//! Flash ADPCM decoding (`DefineSound` format 1) into a PCM16 WAV image.
//!
//! The stream starts with a 2-bit code size; every 4095 frames each channel
//! stores a fresh 16-bit predictor and 6-bit step index, and every other
//! frame carries one `code_bits`-wide delta code per channel.
use vstd::prelude::*;
use vstd::arithmetic::power2::*;
use crate::bytes::{le16_bytes, push_le16};
use crate::import::bits::{BitReader, bits_val, sign_extend, lemma_bits_val_bound, pow2_u32};
use crate::wav::{pcm16_wav, spec_pcm16_wav};

verus! {

/// Longest ADPCM sound we decode: 15 minutes at 44.1 kHz.
pub const ADPCM_MAX_SAMPLES: u32 = 15 * 60 * 44_100;

/// IMA step sizes indexed by the step index (0..=88).
pub open spec fn step_table() -> Seq<i32> {
    seq![
        7i32, 8, 9, 10, 11, 12, 13, 14, 16, 17, 19, 21, 23, 25, 28, 31, 34, 37, 41, 45, 50, 55, 60,
        66, 73, 80, 88, 97, 107, 118, 130, 143, 157, 173, 190, 209, 230, 253, 279, 307, 337, 371,
        408, 449, 494, 544, 598, 658, 724, 796, 876, 963, 1060, 1166, 1282, 1411, 1552, 1707, 1878,
        2066, 2272, 2499, 2749, 3024, 3327, 3660, 4026, 4428, 4871, 5358, 5894, 6484, 7132, 7845,
        8630, 9493, 10442, 11487, 12635, 13899, 15289, 16818, 18500, 20350, 22385, 24623, 27086,
        29794, 32767,
    ]
}

/// Step-index adjustment per magnitude code, for each code size.
pub open spec fn index_adjust_table(code_bits: nat) -> Seq<i32> {
    if code_bits == 2 {
        seq![-1i32, 2i32]
    } else if code_bits == 3 {
        seq![-1i32, -1i32, 2i32, 4i32]
    } else if code_bits == 4 {
        seq![-1i32, -1i32, -1i32, -1i32, 2i32, 4i32, 6i32, 8i32]
    } else {
        seq![-1i32, -1i32, -1i32, -1i32, -1i32, -1i32, -1i32, -1i32, 1i32, 2i32, 4i32, 6i32, 8i32, 10i32, 13i32, 16i32]
    }
}

pub open spec fn clamp(v: int, lo: int, hi: int) -> int {
    if v < lo {
        lo
    } else if v > hi {
        hi
    } else {
        v
    }
}

/// Whether bit `bit` of `code` is set.
pub open spec fn code_bit(code: int, bit: nat) -> bool {
    (code / (pow2(bit) as int)) % 2 == 1
}

/// Contribution of the magnitude bits below `bits` to the delta.
pub open spec fn diff_tail(step: int, code: int, code_bits: nat, bits: nat) -> int
    decreases bits,
{
    if bits == 0 {
        0
    } else {
        diff_tail(step, code, code_bits, (bits - 1) as nat) + if code_bit(code, (bits - 1) as nat) {
            step / (pow2((code_bits - 2 - (bits - 1)) as nat) as int)
        } else {
            0
        }
    }
}

/// Delta magnitude encoded by `code` at step size `step`.
pub open spec fn adpcm_diff(step: int, code: int, code_bits: nat) -> int {
    step / (pow2((code_bits - 1) as nat) as int) + diff_tail(step, code, code_bits, (code_bits - 1) as nat)
}

/// Predictor after applying `code`; the top bit of the code is the sign.
pub open spec fn sample_next(sample: int, index: int, code: int, code_bits: nat) -> int {
    let d = adpcm_diff(step_table()[index] as int, code, code_bits);
    clamp(
        if code_bit(code, (code_bits - 1) as nat) {
            sample - d
        } else {
            sample + d
        },
        -32768,
        32767,
    )
}

/// Step index after applying `code`.
pub open spec fn index_next(index: int, code: int, code_bits: nat) -> int {
    clamp(
        index + index_adjust_table(code_bits)[code % (pow2((code_bits - 1) as nat) as int)] as int,
        0,
        88,
    )
}

/// Little-endian bytes of a PCM16 sample.
pub open spec fn sample_bytes(v: i32) -> Seq<u8> {
    le16_bytes((if v < 0 { v + 65536 } else { v as int }) as u16)
}

/// Decoder state: next bit to read, per-channel predictor and step index,
/// and the PCM bytes produced so far.
pub struct AdpcmState {
    pub bit: int,
    pub samples: Seq<i32>,
    pub indices: Seq<usize>,
    pub pcm: Seq<u8>,
}

/// Reads the per-channel headers (16-bit predictor, 6-bit index) of
/// channels `0..c` at a reset frame.
pub open spec fn adpcm_reset(p: Seq<u8>, st: AdpcmState, c: nat) -> Option<AdpcmState>
    decreases c,
{
    if c == 0 {
        Some(AdpcmState { bit: st.bit, samples: seq![], indices: seq![], pcm: st.pcm })
    } else {
        match adpcm_reset(p, st, (c - 1) as nat) {
            None => None,
            Some(s) => if s.bit + 22 > 8 * p.len() {
                None
            } else {
                Some(
                    AdpcmState {
                        bit: s.bit + 22,
                        samples: s.samples.push(sign_extend(bits_val(p, s.bit, 16), 16) as i32),
                        indices: s.indices.push(
                            (if bits_val(p, s.bit + 16, 6) < 88 {
                                bits_val(p, s.bit + 16, 6)
                            } else {
                                88
                            }) as usize,
                        ),
                        pcm: s.pcm,
                    },
                )
            },
        }
    }
}

/// PCM bytes of the first `c` channel predictors.
pub open spec fn pcm_of(samples: Seq<i32>, c: nat) -> Seq<u8>
    decreases c,
{
    if c == 0 {
        seq![]
    } else {
        pcm_of(samples, (c - 1) as nat) + sample_bytes(samples[c - 1])
    }
}

/// Decodes one delta code for each of channels `0..c` of a regular frame.
pub open spec fn adpcm_decode_channels(p: Seq<u8>, cb: nat, st: AdpcmState, c: nat) -> Option<
    AdpcmState,
>
    decreases c,
{
    if c == 0 {
        Some(st)
    } else {
        match adpcm_decode_channels(p, cb, st, (c - 1) as nat) {
            None => None,
            Some(s) => if s.bit + cb > 8 * p.len() {
                None
            } else {
                let code = bits_val(p, s.bit, cb);
                let ns = sample_next(s.samples[c - 1] as int, s.indices[c - 1] as int, code, cb);
                let ni = index_next(s.indices[c - 1] as int, code, cb);
                Some(
                    AdpcmState {
                        bit: s.bit + cb,
                        samples: s.samples.update(c - 1, ns as i32),
                        indices: s.indices.update(c - 1, ni as usize),
                        pcm: s.pcm + sample_bytes(ns as i32),
                    },
                )
            },
        }
    }
}

/// One frame: a reset frame every 4095 frames, a delta frame otherwise.
#[verifier::opaque]
pub open spec fn adpcm_frame(p: Seq<u8>, cb: nat, ch: nat, frame: nat, st: AdpcmState) -> Option<
    AdpcmState,
> {
    if frame % 4095 == 0 {
        match adpcm_reset(p, st, ch) {
            None => None,
            Some(s) => Some(
                AdpcmState { bit: s.bit, samples: s.samples, indices: s.indices, pcm: s.pcm + pcm_of(s.samples, ch) },
            ),
        }
    } else {
        adpcm_decode_channels(p, cb, st, ch)
    }
}

/// Decoder state after `n` frames (`None` once the payload runs out).
pub open spec fn adpcm_run(p: Seq<u8>, cb: nat, ch: nat, n: nat) -> Option<AdpcmState>
    decreases n,
{
    if n == 0 {
        Some(AdpcmState { bit: 2, samples: seq![], indices: seq![], pcm: seq![] })
    } else {
        match adpcm_run(p, cb, ch, (n - 1) as nat) {
            None => None,
            Some(s) => adpcm_frame(p, cb, ch, (n - 1) as nat, s),
        }
    }
}

/// Sample rate selected by the `DefineSound` rate bits.
pub open spec fn adpcm_rate(flags: u8) -> u32 {
    let r = (flags / 4) % 4;
    if r == 0 {
        5512
    } else if r == 1 {
        11025
    } else if r == 2 {
        22050
    } else {
        44100
    }
}

/// Channel count selected by the `DefineSound` stereo bit.
pub open spec fn adpcm_channels(flags: u8) -> nat {
    if flags % 2 == 1 {
        2
    } else {
        1
    }
}

/// The WAV image of an ADPCM sound, or `None` when the payload is empty,
/// the sample count is zero or above the cap, or the payload runs out.
pub open spec fn spec_wav_from_adpcm(payload: Seq<u8>, flags: u8, sample_count: u32) -> Option<
    Seq<u8>,
> {
    if payload.len() == 0 || sample_count == 0 || sample_count > ADPCM_MAX_SAMPLES {
        None
    } else {
        let cb = (bits_val(payload, 0, 2) + 2) as nat;
        let ch = adpcm_channels(flags);
        match adpcm_run(payload, cb, ch, sample_count as nat) {
            None => None,
            Some(s) => Some(spec_pcm16_wav(ch as u16, adpcm_rate(flags), s.pcm)),
        }
    }
}

proof fn lemma_step_table_range(i: int)
    requires
        0 <= i < 89,
    ensures
        7 <= step_table()[i] <= 32767,
        step_table().len() == 89,
{
}

proof fn lemma_adjust_table(cb: nat, i: int)
    requires
        2 <= cb <= 5,
        0 <= i < pow2((cb - 1) as nat),
    ensures
        index_adjust_table(cb).len() == pow2((cb - 1) as nat),
        -1 <= index_adjust_table(cb)[i] <= 16,
{
    lemma2_to64();
}

/// Applies one delta code to a channel's predictor and step index.
fn apply_code(
    sample: i32,
    index: usize,
    code: u32,
    code_bits: usize,
    steps: &[i32; 89],
    adjust: &Vec<i32>,
) -> (r: (i32, usize))
    requires
        2 <= code_bits <= 5,
        index <= 88,
        steps@ == step_table(),
        adjust@ == index_adjust_table(code_bits as nat),
        code < pow2(code_bits as nat),
        -32768 <= sample <= 32767,
    ensures
        r.0 as int == sample_next(sample as int, index as int, code as int, code_bits as nat),
        r.1 as int == index_next(index as int, code as int, code_bits as nat),
        -32768 <= r.0 <= 32767,
        r.1 <= 88,
{
    let ghost cb = code_bits as nat;
    proof {
        lemma_step_table_range(index as int);
        lemma2_to64();
        lemma_pow2_strictly_increases((code_bits - 1) as nat, 32);
    }
    let step = steps[index];
    let top = pow2_u32(code_bits - 1);
    let mut diff: i32 = step / (top as i32);
    proof {
        let si = step as int;
        let ti = top as int;
        assert(0 <= si / ti <= si) by (nonlinear_arith)
            requires
                si >= 0,
                ti >= 1,
        ;
    }
    let mut bit: usize = 0;
    while bit < code_bits - 1
        invariant
            2 <= code_bits <= 5,
            cb == code_bits as nat,
            bit <= code_bits - 1,
            7 <= step <= 32767,
            step as int == step_table()[index as int] as int,
            top as int == pow2((cb - 1) as nat),
            diff as int == (step as int) / (top as int) + diff_tail(step as int, code as int, cb, bit as nat),
            0 <= diff <= 32767 * (bit + 1),
        decreases code_bits - 1 - bit,
    {
        proof {
            lemma2_to64();
            lemma_pow2_strictly_increases(bit as nat, 32);
            lemma_pow2_strictly_increases((code_bits - 2 - bit) as nat, 32);
        }
        let pb = pow2_u32(bit);
        if (code / pb) % 2 == 1 {
            let sh = pow2_u32(code_bits - 2 - bit);
            proof {
                let si = step as int;
                let hi = sh as int;
                assert(0 <= si / hi <= si) by (nonlinear_arith)
                    requires
                        si >= 0,
                        hi >= 1,
                ;
            }
            diff = diff + step / (sh as i32);
        }
        bit = bit + 1;
    }
    let mut next = if (code / top) % 2 == 1 {
        sample - diff
    } else {
        sample + diff
    };
    if next < -32768 {
        next = -32768;
    } else if next > 32767 {
        next = 32767;
    }
    let k = (code % top) as usize;
    proof {
        lemma_adjust_table(cb, k as int);
    }
    let adjusted = index as i32 + adjust[k];
    let new_index: usize = if adjusted < 0 {
        0
    } else if adjusted > 88 {
        88
    } else {
        adjusted as usize
    };
    (next, new_index)
}

/// Below the sign bit, a code and the same code with the sign bit set
/// have the same bits; the sign bit itself is set exactly for the latter.
proof fn lemma_sign_bit_only(code: int, cb: nat, k: nat)
    requires
        2 <= cb <= 5,
        0 <= code < pow2((cb - 1) as nat),
        k < cb - 1,
    ensures
        code_bit(code + pow2((cb - 1) as nat), k) == code_bit(code, k),
        !code_bit(code, (cb - 1) as nat),
        code_bit(code + pow2((cb - 1) as nat), (cb - 1) as nat),
{
    lemma2_to64();
    let t = pow2((cb - 1) as nat) as int;
    let q = pow2(k) as int;
    if cb == 2 {
        assert(t == 2 && q == 1);
    } else if cb == 3 {
        assert(t == 4);
        if k == 0 { assert(q == 1); } else { assert(q == 2); }
    } else if cb == 4 {
        assert(t == 8);
        if k == 0 { assert(q == 1); } else if k == 1 { assert(q == 2); } else { assert(q == 4); }
    } else {
        assert(t == 16);
        if k == 0 {
            assert(q == 1);
        } else if k == 1 {
            assert(q == 2);
        } else if k == 2 {
            assert(q == 4);
        } else {
            assert(q == 8);
        }
    }
}

proof fn lemma_diff_tail_mirror(step: int, code: int, cb: nat, bits: nat)
    requires
        2 <= cb <= 5,
        0 <= code < pow2((cb - 1) as nat),
        bits <= cb - 1,
        step >= 0,
    ensures
        diff_tail(step, code + pow2((cb - 1) as nat), cb, bits) == diff_tail(step, code, cb, bits),
        diff_tail(step, code, cb, bits) >= 0,
    decreases bits,
{
    if bits > 0 {
        lemma_diff_tail_mirror(step, code, cb, (bits - 1) as nat);
        lemma_sign_bit_only(code, cb, (bits - 1) as nat);
        lemma2_to64();
        let q = pow2((cb - 2 - (bits - 1)) as nat) as int;
        assert(q >= 1);
        assert(step / q >= 0) by (nonlinear_arith)
            requires
                step >= 0,
                q >= 1,
        ;
    }
}

/// The sign bit of an IMA ADPCM code gives the direction of the step and
/// nothing else: with the sign bit clear the predictor moves up (it never
/// decreases), with it set it moves down (it never increases), by the same
/// amount either way unless the move is clipped at the 16-bit range; the
/// step index adapts the same way for both.
pub proof fn lemma_adpcm_sign_bit(sample: int, index: int, code: int, cb: nat)
    requires
        2 <= cb <= 5,
        0 <= index <= 88,
        0 <= code < pow2((cb - 1) as nat),
        -32768 <= sample <= 32767,
    ensures
        ({
            let up = sample_next(sample, index, code, cb);
            let down = sample_next(sample, index, code + pow2((cb - 1) as nat), cb);
            &&& sample <= up <= 32767
            &&& -32768 <= down <= sample
            &&& (up < 32767 && down > -32768) ==> up - sample == sample - down
            &&& index_next(index, code + pow2((cb - 1) as nat), cb) == index_next(index, code, cb)
        }),
{
    lemma2_to64();
    lemma_step_table_range(index);
    let step = step_table()[index] as int;
    let top = pow2((cb - 1) as nat) as int;
    lemma_sign_bit_only(code, cb, 0);
    lemma_diff_tail_mirror(step, code, cb, (cb - 1) as nat);
    assert(step / top >= 0) by (nonlinear_arith)
        requires
            step >= 0,
            top >= 1,
    ;
    assert((code + top) % top == code % top) by (nonlinear_arith)
        requires
            0 <= code < top,
            top >= 1,
    ;
}

/// Flash's 2-bit ADPCM: the step size `step` at the current index, code
/// bit 0 adds a full step to the half step, code bit 1 is the sign (clear:
/// add, set: subtract), and the index moves down by 1 for a small code and
/// up by 2 for a large one.
pub proof fn lemma_adpcm_two_bit(sample: int, index: int, code: int)
    requires
        0 <= index <= 88,
        0 <= code < 4,
        -32768 <= sample <= 32767,
    ensures
        ({
            let step = step_table()[index] as int;
            let delta = step / 2 + (if code % 2 == 1 { step } else { 0 });
            &&& sample_next(sample, index, code, 2) == clamp(
                if code < 2 { sample + delta } else { sample - delta },
                -32768,
                32767,
            )
            &&& index_next(index, code, 2) == clamp(
                index + (if code % 2 == 1 { 2int } else { -1int }),
                0,
                88,
            )
        }),
{
    lemma2_to64();
    assert(diff_tail(step_table()[index] as int, code, 2, 1) == diff_tail(
        step_table()[index] as int,
        code,
        2,
        0,
    ) + if code_bit(code, 0) { step_table()[index] as int / (pow2(0) as int) } else { 0 });
}

/// In a mono stream, every frame between header frames adds exactly one
/// sample to the PCM, and it moves away from the previous predictor in
/// the direction the code's sign bit gives: up (or level) when the code
/// read at the current bit position is below `2^(cb-1)`, down (or level)
/// otherwise.
pub proof fn lemma_adpcm_mono_frame_direction(p: Seq<u8>, cb: nat, n: nat)
    requires
        2 <= cb <= 5,
        n % 4095 != 0,
        adpcm_run(p, cb, 1, n) matches Some(st) && {
            &&& st.samples.len() == 1
            &&& st.indices.len() == 1
            &&& st.indices[0] <= 88
            &&& -32768 <= st.samples[0] <= 32767
            &&& 0 <= st.bit
            &&& st.bit + cb <= 8 * p.len()
        },
    ensures
        ({
            let st = adpcm_run(p, cb, 1, n)->Some_0;
            let prev = st.samples[0] as int;
            let code = bits_val(p, st.bit, cb);
            &&& adpcm_run(p, cb, 1, n + 1) matches Some(next) && {
                let b = next.samples[0] as int;
                &&& next.pcm == st.pcm + sample_bytes(b as i32)
                &&& next.bit == st.bit + cb
                &&& code < pow2((cb - 1) as nat) ==> prev <= b
                &&& code >= pow2((cb - 1) as nat) ==> b <= prev
            }
        }),
{
    reveal(adpcm_frame);
    let st = adpcm_run(p, cb, 1, n)->Some_0;
    let code = bits_val(p, st.bit, cb);
    lemma_bits_val_bound(p, st.bit, cb);
    lemma2_to64();
    let top = pow2((cb - 1) as nat) as int;
    assert(pow2(cb) == 2 * top) by {
        lemma_pow2_unfold(cb);
    }
    assert(adpcm_run(p, cb, 1, n + 1) == adpcm_frame(p, cb, 1, n, st));
    assert(adpcm_decode_channels(p, cb, st, 0) == Some(st));
    let prev = st.samples[0] as int;
    assert(-32768 <= prev <= 32767);
    if code < top {
        lemma_adpcm_sign_bit(prev, st.indices[0] as int, code, cb);
    } else {
        lemma_adpcm_sign_bit(prev, st.indices[0] as int, code - top, cb);
        assert(code - top + top == code);
    }
    let ns = sample_next(prev, st.indices[0] as int, code, cb);
    assert(-32768 <= ns <= 32767);
}

proof fn lemma_run_none_stays(p: Seq<u8>, cb: nat, ch: nat, n: nat, m: nat)
    requires
        n <= m,
        adpcm_run(p, cb, ch, n) is None,
    ensures
        adpcm_run(p, cb, ch, m) is None,
    decreases m - n,
{
    if n < m {
        lemma_run_none_stays(p, cb, ch, n, (m - 1) as nat);
    }
}


proof fn lemma_reset_none_stays(p: Seq<u8>, st: AdpcmState, c: nat, m: nat)
    requires
        c <= m,
        adpcm_reset(p, st, c) is None,
    ensures
        adpcm_reset(p, st, m) is None,
    decreases m - c,
{
    if c < m {
        lemma_reset_none_stays(p, st, c, (m - 1) as nat);
    }
}

proof fn lemma_decode_none_stays(p: Seq<u8>, cb: nat, st: AdpcmState, c: nat, m: nat)
    requires
        c <= m,
        adpcm_decode_channels(p, cb, st, c) is None,
    ensures
        adpcm_decode_channels(p, cb, st, m) is None,
    decreases m - c,
{
    if c < m {
        lemma_decode_none_stays(p, cb, st, c, (m - 1) as nat);
    }
}

/// Appends the little-endian bytes of a PCM16 sample.
fn push_sample(pcm: &mut Vec<u8>, v: i32)
    requires
        -32768 <= v <= 32767,
    ensures
        final(pcm)@ == old(pcm)@ + sample_bytes(v),
{
    let u: u16 = if v < 0 {
        (v + 65536) as u16
    } else {
        v as u16
    };
    push_le16(pcm, u);
}

/// Abstract decoder state of the executable one.
pub open spec fn state_of(bit: usize, sample: Seq<i32>, index: Seq<usize>, pcm: Seq<u8>) -> AdpcmState {
    AdpcmState { bit: bit as int, samples: sample, indices: index, pcm: pcm }
}

pub open spec fn channels_in_range(sample: Seq<i32>, index: Seq<usize>) -> bool {
    &&& forall|i: int| 0 <= i < index.len() ==> #[trigger] index[i] <= 88
    &&& forall|i: int| 0 <= i < sample.len() ==> -32768 <= #[trigger] sample[i] <= 32767
}

/// Reads the reset headers of all channels; `false` when the payload runs out.
fn read_headers(
    bits: &mut BitReader,
    sample: &mut Vec<i32>,
    index: &mut Vec<usize>,
    channels: usize,
    pcm: &Vec<u8>,
) -> (ok: bool)
    requires
        old(bits).wf(),
        1 <= channels <= 2,
    ensures
        final(bits).wf(),
        final(bits).data@ == old(bits).data@,
        ok ==> adpcm_reset(
            old(bits).data@,
            state_of(old(bits).bit, old(sample)@, old(index)@, pcm@),
            channels as nat,
        ) == Some(state_of(final(bits).bit, final(sample)@, final(index)@, pcm@)),
        ok ==> final(sample)@.len() == channels && final(index)@.len() == channels,
        ok ==> channels_in_range(final(sample)@, final(index)@),
        !ok ==> adpcm_reset(
            old(bits).data@,
            state_of(old(bits).bit, old(sample)@, old(index)@, pcm@),
            channels as nat,
        ) is None,
{
    let ghost p = bits.data@;
    let ghost st0 = state_of(bits.bit, sample@, index@, pcm@);
    sample.clear();
    index.clear();
    let mut c: usize = 0;
    while c < channels
        invariant
            bits.wf(),
            bits.data@ == p,
            p == old(bits).data@,
            st0 == state_of(old(bits).bit, old(sample)@, old(index)@, pcm@),
            1 <= channels <= 2,
            c <= channels,
            adpcm_reset(p, st0, c as nat) == Some(state_of(bits.bit, sample@, index@, pcm@)),
            sample@.len() == c,
            index@.len() == c,
            channels_in_range(sample@, index@),
        decreases channels - c,
    {
        let ghost before = bits.bit as int;
        let s = match bits.read_signed(16) {
            Ok(v) => v,
            Err(_) => {
                proof {
                    lemma_reset_none_stays(p, st0, (c + 1) as nat, channels as nat);
                }
                return false;
            },
        };
        let i = match bits.read_bits(6) {
            Ok(v) => v,
            Err(_) => {
                proof {
                    lemma_reset_none_stays(p, st0, (c + 1) as nat, channels as nat);
                }
                return false;
            },
        };
        proof {
            lemma_bits_val_bound(p, before, 16);
            lemma2_to64();
        }
        sample.push(s);
        index.push(
            if i < 88 {
                i as usize
            } else {
                88
            },
        );
        c = c + 1;
    }
    true
}

/// Decodes one delta code per channel; `false` when the payload runs out.
fn decode_deltas(
    bits: &mut BitReader,
    sample: &mut Vec<i32>,
    index: &mut Vec<usize>,
    pcm: &mut Vec<u8>,
    channels: usize,
    code_bits: usize,
    steps: &[i32; 89],
    adjust: &Vec<i32>,
) -> (ok: bool)
    requires
        old(bits).wf(),
        1 <= channels <= 2,
        2 <= code_bits <= 5,
        steps@ == step_table(),
        adjust@ == index_adjust_table(code_bits as nat),
        old(sample)@.len() == channels,
        old(index)@.len() == channels,
        channels_in_range(old(sample)@, old(index)@),
    ensures
        final(bits).wf(),
        final(bits).data@ == old(bits).data@,
        ok ==> adpcm_decode_channels(
            old(bits).data@,
            code_bits as nat,
            state_of(old(bits).bit, old(sample)@, old(index)@, old(pcm)@),
            channels as nat,
        ) == Some(state_of(final(bits).bit, final(sample)@, final(index)@, final(pcm)@)),
        ok ==> final(sample)@.len() == channels && final(index)@.len() == channels,
        ok ==> channels_in_range(final(sample)@, final(index)@),
        ok ==> final(pcm)@.len() == old(pcm)@.len() + 2 * channels,
        !ok ==> adpcm_decode_channels(
            old(bits).data@,
            code_bits as nat,
            state_of(old(bits).bit, old(sample)@, old(index)@, old(pcm)@),
            channels as nat,
        ) is None,
{
    let ghost p = bits.data@;
    let ghost cb = code_bits as nat;
    let ghost st0 = state_of(bits.bit, sample@, index@, pcm@);
    let mut channel: usize = 0;
    while channel < channels
        invariant
            bits.wf(),
            bits.data@ == p,
            p == old(bits).data@,
            st0 == state_of(old(bits).bit, old(sample)@, old(index)@, old(pcm)@),
            2 <= code_bits <= 5,
            cb == code_bits as nat,
            1 <= channels <= 2,
            steps@ == step_table(),
            adjust@ == index_adjust_table(cb),
            channel <= channels,
            sample@.len() == channels,
            index@.len() == channels,
            channels_in_range(sample@, index@),
            pcm@.len() == old(pcm)@.len() + 2 * channel,
            adpcm_decode_channels(p, cb, st0, channel as nat) == Some(
                state_of(bits.bit, sample@, index@, pcm@),
            ),
        decreases channels - channel,
    {
        let ghost before = bits.bit as int;
        let code = match bits.read_bits(code_bits) {
            Ok(v) => v,
            Err(_) => {
                proof {
                    lemma_decode_none_stays(p, cb, st0, (channel + 1) as nat, channels as nat);
                }
                return false;
            },
        };
        proof {
            lemma_bits_val_bound(p, before, cb);
        }
        let (ns, ni) = apply_code(sample[channel], index[channel], code, code_bits, steps, adjust);
        sample.set(channel, ns);
        index.set(channel, ni);
        push_sample(pcm, ns);
        channel = channel + 1;
    }
    true
}

/// Appends the PCM bytes of every channel predictor.
fn push_predictors(pcm: &mut Vec<u8>, sample: &Vec<i32>, channels: usize)
    requires
        channels == sample@.len(),
        channels <= 2,
        forall|i: int| 0 <= i < sample@.len() ==> -32768 <= #[trigger] sample@[i] <= 32767,
    ensures
        final(pcm)@ == old(pcm)@ + pcm_of(sample@, channels as nat),
{
    let mut c: usize = 0;
    while c < channels
        invariant
            channels == sample@.len(),
            c <= channels,
            forall|i: int| 0 <= i < sample@.len() ==> -32768 <= #[trigger] sample@[i] <= 32767,
            pcm@ == old(pcm)@ + pcm_of(sample@, c as nat),
        decreases channels - c,
    {
        push_sample(pcm, sample[c]);
        c = c + 1;
        assert(pcm@ =~= old(pcm)@ + pcm_of(sample@, c as nat));
    }
}

/// Decodes frame number `frame`; `false` when the payload runs out.
fn decode_frame(
    bits: &mut BitReader,
    sample: &mut Vec<i32>,
    index: &mut Vec<usize>,
    pcm: &mut Vec<u8>,
    frame: usize,
    channels: usize,
    code_bits: usize,
    steps: &[i32; 89],
    adjust: &Vec<i32>,
) -> (ok: bool)
    requires
        old(bits).wf(),
        1 <= channels <= 2,
        2 <= code_bits <= 5,
        steps@ == step_table(),
        adjust@ == index_adjust_table(code_bits as nat),
        frame > 0 ==> old(sample)@.len() == channels && old(index)@.len() == channels,
        channels_in_range(old(sample)@, old(index)@),
    ensures
        final(bits).wf(),
        final(bits).data@ == old(bits).data@,
        ok ==> adpcm_frame(
            old(bits).data@,
            code_bits as nat,
            channels as nat,
            frame as nat,
            state_of(old(bits).bit, old(sample)@, old(index)@, old(pcm)@),
        ) == Some(state_of(final(bits).bit, final(sample)@, final(index)@, final(pcm)@)),
        ok ==> final(sample)@.len() == channels && final(index)@.len() == channels,
        ok ==> channels_in_range(final(sample)@, final(index)@),
        ok ==> final(pcm)@.len() == old(pcm)@.len() + 2 * channels,
        !ok ==> adpcm_frame(
            old(bits).data@,
            code_bits as nat,
            channels as nat,
            frame as nat,
            state_of(old(bits).bit, old(sample)@, old(index)@, old(pcm)@),
        ) is None,
{
    reveal(adpcm_frame);
    if frame % 4095 == 0 {
        if !read_headers(bits, sample, index, channels, pcm) {
            return false;
        }
        push_predictors(pcm, sample, channels);
        proof {
            lemma_pcm_of_len(sample@, channels as nat);
        }
        true
    } else {
        decode_deltas(bits, sample, index, pcm, channels, code_bits, steps, adjust)
    }
}

/// Decodes a Flash ADPCM payload into a PCM16 WAV image; `None` when the
/// payload is empty, the sample count is zero or above the cap, or the
/// payload ends before `sample_count` frames are decoded.
pub fn wav_from_adpcm(payload: &[u8], flags: u8, sample_count: u32) -> (r: Option<Vec<u8>>)
    requires
        8 * payload@.len() <= usize::MAX,
    ensures
        match r {
            Some(w) => spec_wav_from_adpcm(payload@, flags, sample_count) == Some(w@),
            None => spec_wav_from_adpcm(payload@, flags, sample_count) is None,
        },
{
    if payload.len() == 0 || sample_count == 0 || sample_count > ADPCM_MAX_SAMPLES {
        return None;
    }
    let rate: u32 = match (flags >> 2) & 0x03 {
        0 => 5_512,
        1 => 11_025,
        2 => 22_050,
        _ => 44_100,
    };
    proof {
        assert((flags >> 2) & 0x03 == (flags / 4) % 4) by (bit_vector);
        assert((flags & 1 != 0) == (flags % 2 == 1)) by (bit_vector);
    }
    let channels: usize = if flags & 0x01 != 0 {
        2
    } else {
        1
    };
    let mut bits = BitReader::new(payload);
    proof {
        lemma_bits_val_bound(payload@, 0, 2);
        lemma2_to64();
    }
    let code_bits = match bits.read_bits(2) {
        Ok(v) => v as usize + 2,
        Err(_) => return None,
    };
    let steps: [i32; 89] = [
        7, 8, 9, 10, 11, 12, 13, 14, 16, 17, 19, 21, 23, 25, 28, 31, 34, 37, 41, 45, 50, 55, 60,
        66, 73, 80, 88, 97, 107, 118, 130, 143, 157, 173, 190, 209, 230, 253, 279, 307, 337, 371,
        408, 449, 494, 544, 598, 658, 724, 796, 876, 963, 1060, 1166, 1282, 1411, 1552, 1707, 1878,
        2066, 2272, 2499, 2749, 3024, 3327, 3660, 4026, 4428, 4871, 5358, 5894, 6484, 7132, 7845,
        8630, 9493, 10442, 11487, 12635, 13899, 15289, 16818, 18500, 20350, 22385, 24623, 27086,
        29794, 32767,
    ];
    assert(steps@ =~= step_table());
    let index_adjust: Vec<i32> = if code_bits == 2 {
        vec![-1, 2]
    } else if code_bits == 3 {
        vec![-1, -1, 2, 4]
    } else if code_bits == 4 {
        vec![-1, -1, -1, -1, 2, 4, 6, 8]
    } else if code_bits == 5 {
        vec![-1, -1, -1, -1, -1, -1, -1, -1, 1, 2, 4, 6, 8, 10, 13, 16]
    } else {
        return None;
    };
    assert(index_adjust@ =~= index_adjust_table(code_bits as nat));
    let ghost p = payload@;
    let ghost cb = code_bits as nat;
    let ghost ch = channels as nat;
    let mut sample: Vec<i32> = Vec::new();
    let mut index: Vec<usize> = Vec::new();
    let total = sample_count as usize;
    let mut pcm: Vec<u8> = Vec::new();
    let mut frame: usize = 0;
    while frame < total
        invariant
            bits.wf(),
            bits.data@ == p,
            p == payload@,
            2 <= code_bits <= 5,
            cb == code_bits as nat,
            1 <= channels <= 2,
            ch == channels as nat,
            steps@ == step_table(),
            index_adjust@ == index_adjust_table(cb),
            frame <= total,
            total == sample_count,
            total <= ADPCM_MAX_SAMPLES,
            p.len() > 0,
            sample_count > 0,
            cb == (bits_val(payload@, 0, 2) + 2) as nat,
            ch == adpcm_channels(flags),
            rate == adpcm_rate(flags),
            adpcm_run(p, cb, ch, frame as nat) == Some(state_of(bits.bit, sample@, index@, pcm@)),
            frame > 0 ==> sample@.len() == channels && index@.len() == channels,
            channels_in_range(sample@, index@),
            pcm@.len() <= 4 * frame,
        decreases total - frame,
    {
        let ok = decode_frame(
            &mut bits,
            &mut sample,
            &mut index,
            &mut pcm,
            frame,
            channels,
            code_bits,
            &steps,
            &index_adjust,
        );
        if !ok {
            proof {
                lemma_run_none_stays(p, cb, ch, (frame + 1) as nat, total as nat);
            }
            return None;
        }
        frame = frame + 1;
    }
    let w = pcm16_wav(channels as u16, rate, pcm.as_slice());
    Some(w)
}

proof fn lemma_pcm_of_len(samples: Seq<i32>, c: nat)
    ensures
        pcm_of(samples, c).len() == 2 * c,
    decreases c,
{
    if c > 0 {
        lemma_pcm_of_len(samples, (c - 1) as nat);
    }
}

} // verus!
