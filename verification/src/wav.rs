//! Minimal PCM16 RIFF/WAVE encoding, used for decoded ADPCM sounds and for
//! gapless-trimmed MP3 sounds written back to the library.
use vstd::prelude::*;
use crate::bytes::{le16_bytes, le32_bytes, push_le16, push_le32, push_all};

verus! {

/// `RIFF`
pub open spec fn riff_tag() -> Seq<u8> { seq![82u8, 73u8, 70u8, 70u8] }
/// `WAVEfmt `
pub open spec fn wave_fmt_tag() -> Seq<u8> { seq![87u8, 65u8, 86u8, 69u8, 102u8, 109u8, 116u8, 32u8] }
/// `data`
pub open spec fn data_tag() -> Seq<u8> { seq![100u8, 97u8, 116u8, 97u8] }

/// `x` reduced to 32 bits, as unsigned 32-bit arithmetic wraps.
pub open spec fn wrap32(x: int) -> u32 {
    (x % 0x1_0000_0000) as u32
}

/// The 44-byte canonical header of a PCM16 WAV file holding `data_len`
/// bytes of interleaved samples. Size fields are 32-bit and wrap, as the
/// format's fields do; they are exact whenever the file is under 4 GiB.
pub open spec fn wav_header(channels: u16, rate: u32, data_len: int) -> Seq<u8> {
    riff_tag()
        + le32_bytes(wrap32(36 + wrap32(data_len)))
        + wave_fmt_tag()
        + le32_bytes(16u32)
        + le16_bytes(1u16)
        + le16_bytes(channels)
        + le32_bytes(rate)
        + le32_bytes(wrap32(rate * (channels * 2)))
        + le16_bytes(((channels * 2) % 0x1_0000) as u16)
        + le16_bytes(16u16)
        + data_tag()
        + le32_bytes(wrap32(data_len))
}

/// A complete PCM16 WAV file: header followed by the sample bytes.
pub open spec fn spec_pcm16_wav(channels: u16, rate: u32, pcm: Seq<u8>) -> Seq<u8> {
    wav_header(channels, rate, pcm.len() as int) + pcm
}

fn push_tag(out: &mut Vec<u8>, tag: &[u8])
    ensures
        final(out)@ == old(out)@ + tag@,
{
    push_all(out, tag);
}

/// Encodes interleaved little-endian PCM16 bytes as a WAV file.
pub fn pcm16_wav(channels: u16, rate: u32, pcm: &[u8]) -> (r: Vec<u8>)
    ensures
        r@ == spec_pcm16_wav(channels, rate, pcm@),
{
    let len = pcm.len() as u64;
    let data_len = (#[verifier::truncate] (len as u32));
    assert(data_len == len % 0x1_0000_0000) by (bit_vector)
        requires
            data_len == (len as u32),
    ;
    let size_field = 36u32.wrapping_add(data_len);
    assert(size_field == wrap32(36 + wrap32(pcm@.len() as int)));
    let byte_align: u32 = channels as u32 * 2;
    let byte_rate = rate.wrapping_mul(byte_align);
    assert(byte_rate == wrap32(rate * (channels * 2)));
    let block_align = (#[verifier::truncate] (byte_align as u16));
    assert(block_align == byte_align % 0x1_0000) by (bit_vector)
        requires
            block_align == (byte_align as u16),
    ;
    assert(data_len == wrap32(pcm@.len() as int));
    let mut wav: Vec<u8> = Vec::new();
    let riff: [u8; 4] = [82, 73, 70, 70];
    let fmt: [u8; 8] = [87, 65, 86, 69, 102, 109, 116, 32];
    let data: [u8; 4] = [100, 97, 116, 97];
    assert(riff@ =~= riff_tag());
    assert(fmt@ =~= wave_fmt_tag());
    assert(data@ =~= data_tag());
    push_tag(&mut wav, &riff);
    push_le32(&mut wav, size_field);
    push_tag(&mut wav, &fmt);
    push_le32(&mut wav, 16);
    push_le16(&mut wav, 1);
    push_le16(&mut wav, channels);
    push_le32(&mut wav, rate);
    push_le32(&mut wav, byte_rate);
    push_le16(&mut wav, block_align);
    push_le16(&mut wav, 16);
    push_tag(&mut wav, &data);
    push_le32(&mut wav, data_len);
    push_all(&mut wav, pcm);
    assert(wav@ =~= spec_pcm16_wav(channels, rate, pcm@));
    wav
}

/// Little-endian bytes of interleaved 16-bit samples.
pub open spec fn pcm16_bytes(s: Seq<i16>) -> Seq<u8>
    decreases s.len(),
{
    if s.len() == 0 {
        Seq::empty()
    } else {
        pcm16_bytes(s.drop_last()) + le16_bytes(s.last() as u16)
    }
}

/// The little-endian bytes of `samples`.
pub fn pcm16_from_samples(samples: &[i16]) -> (r: Vec<u8>)
    ensures
        r@ == pcm16_bytes(samples@),
{
    let mut out: Vec<u8> = Vec::new();
    let mut i: usize = 0;
    while i < samples.len()
        invariant
            i <= samples@.len(),
            out@ == pcm16_bytes(samples@.take(i as int)),
        decreases samples@.len() - i,
    {
        push_le16(&mut out, samples[i] as u16);
        proof {
            let t = samples@.take(i + 1);
            assert(t.drop_last() =~= samples@.take(i as int));
            assert(t.last() == samples@[i as int]);
        }
        i = i + 1;
    }
    assert(samples@.take(samples@.len() as int) =~= samples@);
    out
}

} // verus!
