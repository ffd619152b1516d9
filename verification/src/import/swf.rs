//! SWF container parsing + `DefineSound` MP3 extraction.
//!
//! Supports `FWS` (raw) and `CWS` (zlib) containers. `ZWS` (LZMA) is reported
//! as unsupported, never guessed. All reads are bounds-checked; allocations
//! are capped by the header-declared length.
use vstd::prelude::*;
use vstd::arithmetic::power2::*;
use crate::bytes::{le16, le32, read_le16, read_le32};
use crate::import::bits::{BitReader, bits_val, lemma_bits_val_bound};
use crate::import::adpcm::{wav_from_adpcm, spec_wav_from_adpcm};
use vstd::slice::slice_to_vec;
use crate::text::{decimal, hex2, push_decimal, push_hex2, push_str};

verus! {

/// Hard cap for any SWF-declared length (256 MiB). Above this we reject
/// instead of allocating on a file-controlled size.
pub const MAX_SWF_LEN: u32 = 256 * 1024 * 1024;

/// `DefineSound` tag id.
pub const TAG_DEFINE_SOUND: u16 = 14;
pub const TAG_SOUND_STREAM_HEAD: u16 = 18;
pub const TAG_SOUND_STREAM_BLOCK: u16 = 19;
pub const TAG_SOUND_STREAM_HEAD2: u16 = 45;
/// `DefineSound` format id for MP3.
pub const FORMAT_MP3: u8 = 2;
pub const FORMAT_ADPCM: u8 = 1;
/// Highest SWF version we accept.
pub const MAX_VERSION: u8 = 40;

#[derive(Debug, Clone, PartialEq, Eq)]
pub enum SwfError {
    TooSmall,
    BadMagic([u8; 3]),
    UnsupportedCompression(&'static str),
    VersionTooNew(u8),
    DeclaredTooLarge(u32),
    Truncated { declared: u32, actual: usize },
    LengthMismatch { declared: u32, actual: usize },
    Decompress(String),
    BadRect,
    TagOverrun,
}

/// Mathematical reading of [`SwfError`]: texts as character sequences.
pub enum SwfErrorView {
    TooSmall,
    BadMagic(Seq<u8>),
    UnsupportedCompression(Seq<char>),
    VersionTooNew(u8),
    DeclaredTooLarge(u32),
    Truncated { declared: u32, actual: int },
    LengthMismatch { declared: u32, actual: int },
    Decompress(Seq<char>),
    BadRect,
    TagOverrun,
}

impl View for SwfError {
    type V = SwfErrorView;

    open spec fn view(&self) -> SwfErrorView {
        match self {
            SwfError::TooSmall => SwfErrorView::TooSmall,
            SwfError::BadMagic(m) => SwfErrorView::BadMagic(m@),
            SwfError::UnsupportedCompression(c) => SwfErrorView::UnsupportedCompression(c@),
            SwfError::VersionTooNew(v) => SwfErrorView::VersionTooNew(*v),
            SwfError::DeclaredTooLarge(n) => SwfErrorView::DeclaredTooLarge(*n),
            SwfError::Truncated { declared, actual } => SwfErrorView::Truncated {
                declared: *declared,
                actual: *actual as int,
            },
            SwfError::LengthMismatch { declared, actual } => SwfErrorView::LengthMismatch {
                declared: *declared,
                actual: *actual as int,
            },
            SwfError::Decompress(e) => SwfErrorView::Decompress(e@),
            SwfError::BadRect => SwfErrorView::BadRect,
            SwfError::TagOverrun => SwfErrorView::TagOverrun,
        }
    }
}

/// One extracted sound in file order.
#[derive(Debug, Clone, PartialEq, Eq)]
pub struct Sound {
    pub id: u16,
    pub format: u8,
    /// Container produced for the library. ADPCM is decoded to WAV; MP3 stays raw.
    pub codec: String,
    /// Raw sample count from `DefineSound`.
    pub sample_count: u32,
    /// MP3 `SeekSamples` prefix (not audio); frames exclude it.
    pub seek_samples: u16,
    /// Leading non-frame bytes stripped before the first frame
    /// (e.g. zero padding some authoring tools prepend). Frames are
    /// preserved byte-identical; stripping is de-containering, not transcoding.
    pub trimmed_leading: usize,
    /// Audio payload bytes (MP3 frames for format 2), preserved as-is.
    pub frames: Vec<u8>,
}

/// A `DefineSound` we deliberately did not extract.
#[derive(Debug, Clone, PartialEq, Eq)]
pub struct SkippedSound {
    pub id: u16,
    pub format: u8,
    pub reason: &'static str,
}

#[derive(Debug, Clone, PartialEq, Eq)]
pub struct SwfSounds {
    pub version: u8,
    pub sounds: Vec<Sound>,
    pub skipped: Vec<SkippedSound>,
}

pub struct SoundView {
    pub id: u16,
    pub format: u8,
    pub codec: Seq<char>,
    pub sample_count: u32,
    pub seek_samples: u16,
    pub trimmed_leading: usize,
    pub frames: Seq<u8>,
}

pub struct SkippedView {
    pub id: u16,
    pub format: u8,
    pub reason: Seq<char>,
}

pub struct SwfSoundsView {
    pub version: u8,
    pub sounds: Seq<SoundView>,
    pub skipped: Seq<SkippedView>,
}

impl View for Sound {
    type V = SoundView;

    open spec fn view(&self) -> SoundView {
        SoundView {
            id: self.id,
            format: self.format,
            codec: self.codec@,
            sample_count: self.sample_count,
            seek_samples: self.seek_samples,
            trimmed_leading: self.trimmed_leading,
            frames: self.frames@,
        }
    }
}

impl View for SkippedSound {
    type V = SkippedView;

    open spec fn view(&self) -> SkippedView {
        SkippedView { id: self.id, format: self.format, reason: self.reason@ }
    }
}

pub open spec fn sounds_view(v: Seq<Sound>) -> Seq<SoundView> {
    v.map_values(|s: Sound| s@)
}

pub open spec fn skipped_view(v: Seq<SkippedSound>) -> Seq<SkippedView> {
    v.map_values(|s: SkippedSound| s@)
}

impl View for SwfSounds {
    type V = SwfSoundsView;

    open spec fn view(&self) -> SwfSoundsView {
        SwfSoundsView {
            version: self.version,
            sounds: sounds_view(self.sounds@),
            skipped: skipped_view(self.skipped@),
        }
    }
}

/// Byte length of the frame-size RECT at the start of `body`: a 5-bit field
/// width `n` followed by four `n`-bit fields, padded to a byte boundary.
/// `None` when the record does not fit in `body`.
pub open spec fn spec_rect_len(body: Seq<u8>) -> Option<int> {
    if body.len() == 0 {
        None
    } else {
        let nbits = bits_val(body, 0, 5);
        if 5 + 4 * nbits > 8 * body.len() {
            None
        } else {
            Some((5 + 4 * nbits + 7) / 8)
        }
    }
}

/// Byte length of the RECT starting at `body[0]` (frame size record).
fn rect_len(body: &[u8]) -> (r: Result<usize, SwfError>)
    requires
        8 * body@.len() <= usize::MAX,
    ensures
        r matches Ok(n) ==> spec_rect_len(body@) == Some(n as int),
        r matches Err(e) ==> spec_rect_len(body@) is None && e == SwfError::BadRect,
{
    let mut r = BitReader::new(body);
    let nbits = r.read_bits(5)? as usize;
    proof {
        lemma_bits_val_bound(body@, 0, 5);
        lemma2_to64();
    }
    if nbits > 32 {
        return Err(SwfError::BadRect);
    }
    r.read_bits(nbits)?;
    r.read_bits(nbits)?;
    r.read_bits(nbits)?;
    r.read_bits(nbits)?;
    Ok((r.bit + 7) / 8)
}


/// What `flate2`'s zlib reader yields for `input` when at most `limit`
/// bytes of output are read: the inflated bytes, or the text of the I/O
/// error it reports.
pub uninterp spec fn zlib_inflate(input: Seq<u8>, limit: nat) -> Result<Seq<u8>, Seq<char>>;

/// Inflates the zlib stream `input` with `flate2::read::ZlibDecoder`,
/// reading through `std::io::Read::take(limit)` to the end. The contract
/// claims that the outcome is a function of the input bytes and the limit
/// (named [`zlib_inflate`]) and, as `take` documents, that no more than
/// `limit` bytes come out.
#[verifier::external_body]
fn inflate_zlib(input: &[u8], limit: u64) -> (r: Result<Vec<u8>, String>)
    ensures
        match r {
            Ok(v) => zlib_inflate(input@, limit as nat) == Ok::<Seq<u8>, Seq<char>>(v@) && v@.len()
                <= limit,
            Err(e) => zlib_inflate(input@, limit as nat) == Err::<Seq<u8>, Seq<char>>(e@),
        },
{
    let decoder = flate2::read::ZlibDecoder::new(input);
    let mut out = Vec::new();
    match std::io::Read::read_to_end(&mut std::io::Read::take(decoder, limit), &mut out) {
        Ok(_) => Ok(out),
        Err(e) => Err(e.to_string()),
    }
}

pub open spec fn is_magic(data: Seq<u8>, a: u8, b: u8, c: u8) -> bool {
    data[0] == a && data[1] == b && data[2] == c
}

/// `FWS`
pub open spec fn is_fws(data: Seq<u8>) -> bool {
    is_magic(data, 70, 87, 83)
}

/// `CWS`
pub open spec fn is_cws(data: Seq<u8>) -> bool {
    is_magic(data, 67, 87, 83)
}

/// `ZWS`
pub open spec fn is_zws(data: Seq<u8>) -> bool {
    is_magic(data, 90, 87, 83)
}

/// Length declared in the SWF header (the size of the uncompressed image).
pub open spec fn declared_len(data: Seq<u8>) -> int {
    le32(data, 4)
}

/// The body of a compressed movie declaring `declared` bytes, from what the
/// inflater gave: a failure is a decompression error, and the body must
/// be exactly the declared length less the header.
pub open spec fn spec_inflated(declared: u32, inflated: Result<Seq<u8>, Seq<char>>) -> Result<
    Seq<u8>,
    SwfErrorView,
> {
    match inflated {
        Err(e) => Err(SwfErrorView::Decompress(e)),
        Ok(out) => if out.len() != declared - 8 {
            Err(SwfErrorView::LengthMismatch { declared, actual: out.len() as int + 8 })
        } else {
            Ok(out)
        },
    }
}

/// Checks what the inflater gave for a compressed movie declaring
/// `declared` bytes.
pub fn inflated_body(declared: u32, inflated: Result<Vec<u8>, String>) -> (r: Result<Vec<u8>, SwfError>)
    requires
        8 <= declared <= MAX_SWF_LEN,
        inflated matches Ok(v) ==> v@.len() <= declared - 7,
    ensures
        match r {
            Ok(b) => spec_inflated(
                declared,
                match inflated {
                    Ok(v) => Ok::<Seq<u8>, Seq<char>>(v@),
                    Err(e) => Err::<Seq<u8>, Seq<char>>(e@),
                },
            ) == Ok::<Seq<u8>, SwfErrorView>(b@),
            Err(e) => spec_inflated(
                declared,
                match inflated {
                    Ok(v) => Ok::<Seq<u8>, Seq<char>>(v@),
                    Err(e) => Err::<Seq<u8>, Seq<char>>(e@),
                },
            ) == Err::<Seq<u8>, SwfErrorView>(e@),
        },
{
    let expected = declared as usize - 8;
    match inflated {
        Err(e) => Err(SwfError::Decompress(e)),
        Ok(out) => {
            if out.len() != expected {
                Err(SwfError::LengthMismatch { declared, actual: out.len() + 8 })
            } else {
                Ok(out)
            }
        },
    }
}

/// Version and uncompressed body (everything after the 8-byte header).
pub open spec fn spec_body(data: Seq<u8>) -> Result<(u8, Seq<u8>), SwfErrorView> {
    if data.len() < 8 {
        Err(SwfErrorView::TooSmall)
    } else {
        let version = data[3];
        let declared = declared_len(data);
        if version == 0 || version > MAX_VERSION {
            Err(SwfErrorView::VersionTooNew(version))
        } else if declared > MAX_SWF_LEN {
            Err(SwfErrorView::DeclaredTooLarge(declared as u32))
        } else if is_fws(data) {
            if data.len() < declared {
                Err(SwfErrorView::Truncated { declared: declared as u32, actual: data.len() as int })
            } else if declared < 8 {
                Err(SwfErrorView::LengthMismatch { declared: declared as u32, actual: data.len() as int })
            } else {
                Ok((version, data.subrange(8, declared)))
            }
        } else if is_cws(data) && declared < 8 {
            Err(SwfErrorView::LengthMismatch { declared: declared as u32, actual: data.len() as int })
        } else if is_cws(data) {
            match spec_inflated(
                declared as u32,
                zlib_inflate(data.subrange(8, data.len() as int), (declared - 8 + 1) as nat),
            ) {
                Err(e) => Err(e),
                Ok(out) => Ok((version, out)),
            }
        } else if is_zws(data) {
            Err(SwfErrorView::UnsupportedCompression("ZWS/LZMA"@))
        } else {
            Err(SwfErrorView::BadMagic(data.subrange(0, 3)))
        }
    }
}

/// Decompress the body; returns owned bytes so FWS/CWS share one code path.
fn body_bytes(data: &[u8]) -> (r: Result<(u8, Vec<u8>), SwfError>)
    ensures
        match r {
            Ok((v, b)) => spec_body(data@) == Ok::<(u8, Seq<u8>), SwfErrorView>((v, b@)),
            Err(e) => spec_body(data@) == Err::<(u8, Seq<u8>), SwfErrorView>(e@),
        },
        r matches Ok((v, b)) ==> b@.len() <= MAX_SWF_LEN,
{
    if data.len() < 8 {
        return Err(SwfError::TooSmall);
    }
    let magic: [u8; 3] = [data[0], data[1], data[2]];
    let version = data[3];
    let declared = read_le32(data, 4);
    if version == 0 || version > MAX_VERSION {
        return Err(SwfError::VersionTooNew(version));
    }
    if declared > MAX_SWF_LEN {
        return Err(SwfError::DeclaredTooLarge(declared));
    }
    if magic[0] == 70 && magic[1] == 87 && magic[2] == 83 {
        if data.len() < declared as usize {
            return Err(SwfError::Truncated { declared, actual: data.len() });
        }
        if declared < 8 {
            return Err(SwfError::LengthMismatch { declared, actual: data.len() });
        }
        let body = slice_to_vec(&data[8..declared as usize]);
        Ok((version, body))
    } else if magic[0] == 67 && magic[1] == 87 && magic[2] == 83 && declared < 8 {
        Err(SwfError::LengthMismatch { declared, actual: data.len() })
    } else if magic[0] == 67 && magic[1] == 87 && magic[2] == 83 {
        // The header length is for the decompressed FWS image. A valid
        // compressed stream is normally much smaller, so do not compare
        // the on-disk length with `declared` before decompression.
        let expected = declared as usize - 8;
        let inflated = inflate_zlib(&data[8..data.len()], (expected + 1) as u64);
        match inflated_body(declared, inflated) {
            Err(e) => Err(e),
            Ok(out) => Ok((version, out)),
        }
    } else if magic[0] == 90 && magic[1] == 87 && magic[2] == 83 {
        Err(SwfError::UnsupportedCompression("ZWS/LZMA"))
    } else {
        assert(magic@ =~= data@.subrange(0, 3));
        Err(SwfError::BadMagic(magic))
    }
}


/// A plausible MPEG audio frame header at `d[i..i + 4]`: frame sync, no
/// reserved version or layer, a usable bitrate index and sample-rate index.
pub open spec fn mp3_header_at(d: Seq<u8>, i: int) -> bool {
    let b1 = d[i + 1];
    let b2 = d[i + 2];
    &&& d[i] == 0xFFu8
    &&& b1 & 0xE0u8 == 0xE0u8
    &&& (b1 >> 3u8) & 0x03u8 != 1u8
    &&& (b1 >> 1u8) & 0x03u8 != 0u8
    &&& (b2 >> 4u8) & 0x0Fu8 != 0u8
    &&& (b2 >> 4u8) & 0x0Fu8 != 15u8
    &&& (b2 >> 2u8) & 0x03u8 != 3u8
}

/// All MPEG audio versions count alike: a header's second byte may say
/// MPEG-1 (`11`), MPEG-2 (`10`) or MPEG-2.5 (`00`) and the bytes are a
/// frame header exactly when the same bytes marked MPEG-1 are; the
/// reserved version `01` never is. Frame sync (`FF` then three set bits), a
/// layer other than the reserved `00`, a bitrate index in 1..=14 and a
/// sample-rate index in 0..=2 are what is asked of the rest.
pub proof fn lemma_frame_header_any_version(d: Seq<u8>, i: int)
    requires
        0 <= i && i + 4 <= d.len(),
    ensures
        ({
            let b1 = d[i + 1];
            let b2 = d[i + 2];
            let as_mpeg1 = d.update(i + 1, (b1 & 0xE7u8) | 0x18u8);
            &&& (b1 >> 3u8) & 0x03u8 != 1u8 ==> (mp3_header_at(d, i) <==> mp3_header_at(as_mpeg1, i))
            &&& (b1 >> 3u8) & 0x03u8 == 1u8 ==> !mp3_header_at(d, i)
            &&& mp3_header_at(as_mpeg1, i) <==> {
                &&& d[i] == 0xFFu8
                &&& b1 >= 0xE0u8
                &&& (b1 >> 1u8) & 0x03u8 != 0u8
                &&& 1u8 <= b2 >> 4u8 <= 14u8
                &&& (b2 >> 2u8) & 0x03u8 <= 2u8
            }
        }),
{
    let b1 = d[i + 1];
    let b2 = d[i + 2];
    let w = (b1 & 0xE7u8) | 0x18u8;
    let as_mpeg1 = d.update(i + 1, w);
    assert(as_mpeg1[i] == d[i] && as_mpeg1[i + 1] == w && as_mpeg1[i + 2] == b2);
    assert(w & 0xE0u8 == 0xE0u8 <==> b1 & 0xE0u8 == 0xE0u8) by (bit_vector)
        requires
            w == (b1 & 0xE7u8) | 0x18u8,
    ;
    assert((w >> 3u8) & 0x03u8 == 3u8) by (bit_vector)
        requires
            w == (b1 & 0xE7u8) | 0x18u8,
    ;
    assert((w >> 1u8) & 0x03u8 == (b1 >> 1u8) & 0x03u8) by (bit_vector)
        requires
            w == (b1 & 0xE7u8) | 0x18u8,
    ;
    assert(b1 & 0xE0u8 == 0xE0u8 <==> b1 >= 0xE0u8) by (bit_vector);
    assert((b2 >> 4u8) & 0x0Fu8 == b2 >> 4u8) by (bit_vector);
    assert(b2 >> 4u8 <= 15u8) by (bit_vector);
    assert((b2 >> 2u8) & 0x03u8 <= 3u8) by (bit_vector);
}

/// First offset at or after `k` holding a plausible frame header.
pub open spec fn frame_start_from(d: Seq<u8>, k: int) -> Option<int>
    decreases d.len() - k,
{
    if k < 0 || k + 4 > d.len() {
        None
    } else if mp3_header_at(d, k) {
        Some(k)
    } else {
        frame_start_from(d, k + 1)
    }
}

/// Offset of the first plausible MPEG frame header in `d`.
pub open spec fn spec_mp3_frame_start(d: Seq<u8>) -> Option<int> {
    frame_start_from(d, 0)
}

/// Offset of the first plausible MPEG frame header, or `None`.
///
/// Validates the 4-byte header (sync, version/layer reserved values excluded,
/// bitrate and sample-rate indices valid) to avoid false positives inside
/// audio data.
fn mp3_frame_start(data: &[u8]) -> (r: Option<usize>)
    ensures
        match r {
            Some(i) => spec_mp3_frame_start(data@) == Some(i as int),
            None => spec_mp3_frame_start(data@) is None,
        },
        r matches Some(i) ==> i + 4 <= data@.len(),
{
    if data.len() < 4 {
        return None;
    }
    let mut i: usize = 0;
    while i < data.len() - 3
        invariant
            4 <= data@.len(),
            i <= data@.len() - 3,
            spec_mp3_frame_start(data@) == frame_start_from(data@, i as int),
        decreases data@.len() - i,
    {
        let b0 = data[i];
        let b1 = data[i + 1];
        let b2 = data[i + 2];
        if b0 != 0xFF || b1 & 0xE0 != 0xE0 {
            i = i + 1;
            continue;
        }
        let version = (b1 >> 3) & 0x03;
        let layer = (b1 >> 1) & 0x03;
        let bitrate = (b2 >> 4) & 0x0F;
        let freq = (b2 >> 2) & 0x03;
        if version == 1 || layer == 0 || bitrate == 0 || bitrate == 15 || freq == 3 {
            i = i + 1;
            continue;
        }
        return Some(i);
    }
    None
}

/// What a `DefineSound` tag body yields: an extracted sound, or the reason
/// it was skipped.
pub open spec fn spec_define_sound(tag: Seq<u8>) -> Result<SoundView, SkippedView> {
    if tag.len() < 7 {
        Err(
            SkippedView {
                id: ((if tag.len() > 0 { tag[0] as int } else { 0 }) + 256 * (if tag.len() > 1 {
                    tag[1] as int
                } else {
                    0
                })) as u16,
                format: (if tag.len() > 2 { tag[2] } else { 0u8 }) >> 4u8,
                reason: "tag too short"@,
            },
        )
    } else {
        let id = le16(tag, 0) as u16;
        let format = tag[2] >> 4u8;
        let sample_count = le32(tag, 3) as u32;
        if format != FORMAT_MP3 && format != FORMAT_ADPCM {
            Err(SkippedView { id, format, reason: "non-MP3 sound codec not supported yet"@ })
        } else if format == FORMAT_ADPCM {
            match spec_wav_from_adpcm(tag.subrange(7, tag.len() as int), tag[2], sample_count) {
                None => Err(SkippedView { id, format, reason: "malformed or oversized ADPCM sound"@ }),
                Some(wav) => Ok(
                    SoundView {
                        id,
                        format,
                        codec: "wav"@,
                        sample_count,
                        seek_samples: 0,
                        trimmed_leading: 0,
                        frames: wav,
                    },
                ),
            }
        } else if tag.len() < 9 {
            Err(SkippedView { id, format, reason: "MP3 sound has no audio data"@ })
        } else {
            let payload = tag.subrange(9, tag.len() as int);
            match spec_mp3_frame_start(payload) {
                None => Err(SkippedView { id, format, reason: "MP3 sound contains no frame sync"@ }),
                Some(start) => Ok(
                    SoundView {
                        id,
                        format,
                        codec: "mp3"@,
                        sample_count,
                        seek_samples: le16(tag, 7) as u16,
                        trimmed_leading: start as usize,
                        frames: payload.subrange(start, payload.len() as int),
                    },
                ),
            }
        }
    }
}

proof fn lemma_frame_start_from(d: Seq<u8>, k: int)
    requires
        k >= 0,
    ensures
        frame_start_from(d, k) matches Some(i) ==> k <= i && i + 4 <= d.len() && mp3_header_at(d, i)
            && forall|j: int| k <= j < i ==> !mp3_header_at(d, j),
        frame_start_from(d, k) is None ==> forall|j: int|
            k <= j && j + 4 <= d.len() ==> !mp3_header_at(d, j),
    decreases d.len() - k,
{
    if k + 4 <= d.len() && !mp3_header_at(d, k) {
        lemma_frame_start_from(d, k + 1);
    }
}

/// The first frame header is found: the offset given is the least one at
/// which a plausible MPEG frame header starts, and `None` means that no
/// offset holds one.
pub proof fn lemma_first_frame_header(d: Seq<u8>)
    ensures
        spec_mp3_frame_start(d) matches Some(i) ==> 0 <= i && i + 4 <= d.len() && mp3_header_at(d, i)
            && forall|j: int| 0 <= j < i ==> !mp3_header_at(d, j),
        spec_mp3_frame_start(d) is None ==> forall|j: int|
            0 <= j && j + 4 <= d.len() ==> !mp3_header_at(d, j),
{
    lemma_frame_start_from(d, 0);
}

/// An extracted MP3 sound is the tag's audio bytes taken verbatim from its
/// first plausible frame header to the end of the tag: nothing is
/// re-encoded, and only bytes before which no frame header starts are
/// dropped.
pub proof fn lemma_mp3_sound_is_verbatim(tag: Seq<u8>)
    requires
        tag.len() <= usize::MAX,
        spec_define_sound(tag) matches Ok(s) && s.format == FORMAT_MP3,
    ensures
        ({
            let s = spec_define_sound(tag)->Ok_0;
            let payload = tag.subrange(9, tag.len() as int);
            &&& s.frames == tag.subrange(9 + s.trimmed_leading, tag.len() as int)
            &&& s.frames.len() >= 4
            &&& mp3_header_at(s.frames, 0)
            &&& forall|j: int| 0 <= j < s.trimmed_leading ==> !mp3_header_at(payload, j)
        }),
{
    let payload = tag.subrange(9, tag.len() as int);
    lemma_frame_start_from(payload, 0);
    let s = spec_define_sound(tag)->Ok_0;
    let start = spec_mp3_frame_start(payload)->Some_0;
    assert(s.trimmed_leading == start);
    assert(s.frames =~= tag.subrange(9 + s.trimmed_leading, tag.len() as int));
    assert(s.frames[0] == payload[start] && s.frames[1] == payload[start + 1] && s.frames[2]
        == payload[start + 2]);
}

/// An MP3 `DefineSound` tag is extracted exactly when its audio bytes
/// (from offset 9) hold a plausible frame header, at the first such offset
/// `k`: the sound keeps the tag's id, sample count and seek samples, is
/// coded `mp3`, and its frames are the tag's bytes from `9 + k` to the end,
/// untouched. With no frame header the tag is skipped as having no frame
/// sync.
pub proof fn lemma_mp3_define_sound(tag: Seq<u8>)
    requires
        tag.len() >= 9,
        tag[2] >> 4u8 == FORMAT_MP3,
    ensures
        ({
            let payload = tag.subrange(9, tag.len() as int);
            &&& spec_define_sound(tag) is Ok <==> spec_mp3_frame_start(payload) is Some
            &&& match spec_mp3_frame_start(payload) {
                Some(k) => {
                    &&& 0 <= k && k + 4 <= payload.len()
                    &&& mp3_header_at(payload, k)
                    &&& forall|j: int| 0 <= j < k ==> !mp3_header_at(payload, j)
                    &&& spec_define_sound(tag) == Ok::<SoundView, SkippedView>(
                        SoundView {
                            id: le16(tag, 0) as u16,
                            format: FORMAT_MP3,
                            codec: "mp3"@,
                            sample_count: le32(tag, 3) as u32,
                            seek_samples: le16(tag, 7) as u16,
                            trimmed_leading: k as usize,
                            frames: tag.subrange(9 + k, tag.len() as int),
                        },
                    )
                },
                None => spec_define_sound(tag) == Err::<SoundView, SkippedView>(
                    SkippedView {
                        id: le16(tag, 0) as u16,
                        format: FORMAT_MP3,
                        reason: "MP3 sound contains no frame sync"@,
                    },
                ),
            }
        }),
{
    let payload = tag.subrange(9, tag.len() as int);
    lemma_first_frame_header(payload);
    if let Some(k) = spec_mp3_frame_start(payload) {
        assert(payload.subrange(k, payload.len() as int) =~= tag.subrange(9 + k, tag.len() as int));
    }
}

/// Extracts one `DefineSound` tag body.
fn parse_define_sound(tag: &[u8]) -> (r: Result<Sound, SkippedSound>)
    requires
        8 * tag@.len() <= usize::MAX,
    ensures
        match r {
            Ok(s) => spec_define_sound(tag@) == Ok::<SoundView, SkippedView>(s@),
            Err(k) => spec_define_sound(tag@) == Err::<SoundView, SkippedView>(k@),
        },
{
    if tag.len() < 7 {
        let lo: u16 = if tag.len() > 0 {
            tag[0] as u16
        } else {
            0
        };
        let hi: u16 = if tag.len() > 1 {
            tag[1] as u16
        } else {
            0
        };
        let f: u8 = if tag.len() > 2 {
            tag[2]
        } else {
            0
        };
        return Err(SkippedSound { id: lo + hi * 256, format: f >> 4, reason: "tag too short" });
    }
    let id = read_le16(tag, 0);
    let format = tag[2] >> 4;
    let sample_count = read_le32(tag, 3);
    if format != FORMAT_MP3 && format != FORMAT_ADPCM {
        return Err(SkippedSound { id, format, reason: "non-MP3 sound codec not supported yet" });
    }
    if format == FORMAT_ADPCM {
        let frames = match wav_from_adpcm(&tag[7..tag.len()], tag[2], sample_count) {
            Some(w) => w,
            None => {
                return Err(
                    SkippedSound { id, format, reason: "malformed or oversized ADPCM sound" },
                );
            },
        };
        return Ok(
            Sound {
                id,
                format,
                codec: "wav".to_owned(),
                sample_count,
                seek_samples: 0,
                trimmed_leading: 0,
                frames,
            },
        );
    }
    if tag.len() < 9 {
        return Err(SkippedSound { id, format, reason: "MP3 sound has no audio data" });
    }
    let payload = &tag[9..tag.len()];
    let start = match mp3_frame_start(payload) {
        Some(start) => start,
        None => {
            return Err(SkippedSound { id, format, reason: "MP3 sound contains no frame sync" });
        },
    };
    Ok(
        Sound {
            id,
            format,
            codec: "mp3".to_owned(),
            sample_count,
            seek_samples: read_le16(tag, 7),
            trimmed_leading: start,
            frames: slice_to_vec(&payload[start..payload.len()]),
        },
    )
}


/// A streaming (`SoundStreamHead` + `SoundStreamBlock`) MP3 sound being
/// assembled.
pub struct StreamSound {
    pub id: u16,
    pub sample_count: u32,
    pub seek_samples: u16,
    pub frames: Vec<u8>,
}

pub struct StreamView {
    pub id: u16,
    pub sample_count: u32,
    pub seek_samples: u16,
    pub frames: Seq<u8>,
}

impl View for StreamSound {
    type V = StreamView;

    open spec fn view(&self) -> StreamView {
        StreamView {
            id: self.id,
            sample_count: self.sample_count,
            seek_samples: self.seek_samples,
            frames: self.frames@,
        }
    }
}

/// Everything collected while walking the tag list.
pub struct TagState {
    pub sounds: Seq<SoundView>,
    pub skipped: Seq<SkippedView>,
    pub stream: Option<StreamView>,
    pub next_stream_id: u16,
}

/// A finished stream becomes a sound, or a skip when it holds no frames.
pub open spec fn finish_stream_view(st: TagState) -> TagState {
    match st.stream {
        None => st,
        Some(s) => if s.frames.len() == 0 {
            TagState {
                skipped: st.skipped.push(
                    SkippedView { id: s.id, format: FORMAT_MP3, reason: "MP3 stream contains no frame sync"@ },
                ),
                stream: None,
                ..st
            }
        } else {
            TagState {
                sounds: st.sounds.push(
                    SoundView {
                        id: s.id,
                        format: FORMAT_MP3,
                        codec: "mp3"@,
                        sample_count: s.sample_count,
                        seek_samples: s.seek_samples,
                        trimmed_leading: 0,
                        frames: s.frames,
                    },
                ),
                stream: None,
                ..st
            }
        },
    }
}

/// Effect of one non-End tag with code `code` and body `tag`.
#[verifier::opaque]
pub open spec fn apply_tag(st: TagState, code: u16, tag: Seq<u8>) -> TagState {
    if code == TAG_DEFINE_SOUND {
        match spec_define_sound(tag) {
            Ok(s) => TagState { sounds: st.sounds.push(s), ..st },
            Err(k) => TagState { skipped: st.skipped.push(k), ..st },
        }
    } else if code == TAG_SOUND_STREAM_HEAD || code == TAG_SOUND_STREAM_HEAD2 {
        let st1 = finish_stream_view(st);
        let format = (if tag.len() > 1 { tag[1] } else { 0u8 }) >> 4u8;
        let next = (if st1.next_stream_id == u16::MAX { 0 } else { st1.next_stream_id + 1 }) as u16;
        if format == FORMAT_MP3 && tag.len() >= 6 {
            TagState {
                stream: Some(
                    StreamView {
                        id: st1.next_stream_id,
                        sample_count: 0,
                        seek_samples: le16(tag, 4) as u16,
                        frames: seq![],
                    },
                ),
                next_stream_id: next,
                ..st1
            }
        } else {
            TagState {
                skipped: st1.skipped.push(
                    SkippedView {
                        id: st1.next_stream_id,
                        format,
                        reason: "non-MP3 or malformed streaming sound"@,
                    },
                ),
                next_stream_id: next,
                ..st1
            }
        }
    } else if code == TAG_SOUND_STREAM_BLOCK {
        match st.stream {
            Some(a) => if tag.len() >= 4 {
                let total = a.sample_count + le16(tag, 0);
                let payload = tag.subrange(4, tag.len() as int);
                TagState {
                    stream: Some(
                        StreamView {
                            sample_count: (if total > u32::MAX { u32::MAX as int } else { total }) as u32,
                            frames: match spec_mp3_frame_start(payload) {
                                Some(k) => a.frames + payload.subrange(k, payload.len() as int),
                                None => a.frames,
                            },
                            ..a
                        },
                    ),
                    ..st
                }
            } else {
                st
            },
            None => st,
        }
    } else {
        st
    }
}

/// Header of the tag at `off`: its code and the bounds of its body, or
/// `None` when the header or the body runs past `body`.
pub open spec fn tag_bounds(body: Seq<u8>, off: int) -> Option<(int, int, int)> {
    if off < 0 || off + 2 > body.len() {
        None
    } else {
        let head = le16(body, off);
        let short = head % 64;
        let start = if short == 63 { off + 6 } else { off + 2 };
        if start > body.len() {
            None
        } else {
            let len = if short == 63 { le32(body, off + 2) } else { short };
            if start + len > body.len() {
                None
            } else {
                Some((head / 64, start, start + len))
            }
        }
    }
}

/// Walks the tag list from `off` to the End tag: the state reached there,
/// or `TagOverrun` when a tag header or body runs past `body` or the list
/// ends without an End tag.
pub open spec fn spec_tags(body: Seq<u8>, off: int, st: TagState) -> Result<TagState, SwfErrorView>
    decreases body.len() - off,
{
    match tag_bounds(body, off) {
        None => Err(SwfErrorView::TagOverrun),
        Some((code, start, end)) => if code == 0 {
            Ok(st)
        } else if end <= off {
            Err(SwfErrorView::TagOverrun)
        } else {
            spec_tags(body, end, apply_tag(st, code as u16, body.subrange(start, end)))
        },
    }
}

/// The sounds of a SWF file image, in file order, with the `DefineSound`s
/// and streams that were skipped and why.
pub open spec fn spec_parse(data: Seq<u8>) -> Result<SwfSoundsView, SwfErrorView> {
    match spec_body(data) {
        Err(e) => Err(e),
        Ok((version, body)) => spec_parse_body(version, body),
    }
}

/// The sounds of an uncompressed movie body (everything after the 8-byte
/// header): the frame-size RECT, frame rate and count are skipped, then
/// the tags are walked to the End tag.
pub open spec fn spec_parse_body(version: u8, body: Seq<u8>) -> Result<SwfSoundsView, SwfErrorView> {
    match spec_rect_len(body) {
        None => Err(SwfErrorView::BadRect),
        Some(r) => if r + 4 > body.len() {
            Err(SwfErrorView::TagOverrun)
        } else {
            let init = TagState {
                sounds: seq![],
                skipped: seq![],
                stream: None,
                next_stream_id: 0x8000,
            };
            match spec_tags(body, r + 4, init) {
                Err(e) => Err(e),
                Ok(st) => {
                    let f = finish_stream_view(st);
                    Ok(SwfSoundsView { version, sounds: f.sounds, skipped: f.skipped })
                },
            }
        },
    }
}

/// Abstract tag-walk state of the executable one.
pub open spec fn state_view(
    sounds: Seq<Sound>,
    skipped: Seq<SkippedSound>,
    stream: Option<StreamSound>,
    next: u16,
) -> TagState {
    TagState {
        sounds: sounds_view(sounds),
        skipped: skipped_view(skipped),
        stream: match stream {
            Some(s) => Some(s@),
            None => None,
        },
        next_stream_id: next,
    }
}

fn finish_stream(stream: StreamSound, sounds: &mut Vec<Sound>, skipped: &mut Vec<SkippedSound>)
    ensures
        state_view(final(sounds)@, final(skipped)@, None, 0) == finish_stream_view(
            state_view(old(sounds)@, old(skipped)@, Some(stream), 0),
        ),
{
    if stream.frames.len() == 0 {
        skipped.push(
            SkippedSound { id: stream.id, format: FORMAT_MP3, reason: "MP3 stream contains no frame sync" },
        );
        assert(skipped_view(skipped@) =~= skipped_view(old(skipped)@).push(
            SkippedView { id: stream.id, format: FORMAT_MP3, reason: "MP3 stream contains no frame sync"@ },
        ));
        return ;
    }
    let ghost sv = stream@;
    sounds.push(
        Sound {
            id: stream.id,
            format: FORMAT_MP3,
            codec: "mp3".to_owned(),
            sample_count: stream.sample_count,
            seek_samples: stream.seek_samples,
            trimmed_leading: 0,
            frames: stream.frames,
        },
    );
    assert(sounds_view(sounds@) =~= sounds_view(old(sounds)@).push(
        SoundView {
            id: sv.id,
            format: FORMAT_MP3,
            codec: "mp3"@,
            sample_count: sv.sample_count,
            seek_samples: sv.seek_samples,
            trimmed_leading: 0,
            frames: sv.frames,
        },
    ));
}


/// Applies one non-End tag to the executable walk state.
fn apply_tag_exec(
    code: u16,
    tag: &[u8],
    sounds: &mut Vec<Sound>,
    skipped: &mut Vec<SkippedSound>,
    stream: &mut Option<StreamSound>,
    next_stream_id: &mut u16,
)
    requires
        8 * tag@.len() <= usize::MAX,
    ensures
        state_view(final(sounds)@, final(skipped)@, *final(stream), *final(next_stream_id))
            == apply_tag(
            state_view(old(sounds)@, old(skipped)@, *old(stream), *old(next_stream_id)),
            code,
            tag@,
        ),
{
    reveal(apply_tag);
    if code == TAG_DEFINE_SOUND {
        match parse_define_sound(tag) {
            Ok(s) => {
                let ghost v = s@;
                sounds.push(s);
                assert(sounds_view(sounds@) =~= sounds_view(old(sounds)@).push(v));
            },
            Err(k) => {
                let ghost v = k@;
                skipped.push(k);
                assert(skipped_view(skipped@) =~= skipped_view(old(skipped)@).push(v));
            },
        }
    } else if code == TAG_SOUND_STREAM_HEAD || code == TAG_SOUND_STREAM_HEAD2 {
        if let Some(previous) = stream.take() {
            finish_stream(previous, sounds, skipped);
        }
        // StreamSoundCompression is the upper nibble of byte 1.
        let b1: u8 = if tag.len() > 1 {
            tag[1]
        } else {
            0
        };
        let format = b1 >> 4;
        let id = *next_stream_id;
        *next_stream_id = id.wrapping_add(1);
        if format == FORMAT_MP3 && tag.len() >= 6 {
            *stream = Some(
                StreamSound { id, sample_count: 0, seek_samples: read_le16(tag, 4), frames: Vec::new() },
            );
        } else {
            let ghost before = skipped_view(skipped@);
            skipped.push(SkippedSound { id, format, reason: "non-MP3 or malformed streaming sound" });
            assert(skipped_view(skipped@) =~= before.push(
                SkippedView { id, format, reason: "non-MP3 or malformed streaming sound"@ },
            ));
        }
    } else if code == TAG_SOUND_STREAM_BLOCK {
        if let Some(mut active) = stream.take() {
            // MP3 blocks start with sample count and seek samples; the
            // remaining bytes are one or more MPEG frames.
            if tag.len() >= 4 {
                active.sample_count = active.sample_count.saturating_add(read_le16(tag, 0) as u32);
                let payload = &tag[4..tag.len()];
                if let Some(start) = mp3_frame_start(payload) {
                    crate::bytes::push_all(&mut active.frames, &payload[start..payload.len()]);
                }
            }
            *stream = Some(active);
        }
    }
}

/// Reads the header of the tag at `off`.
fn tag_at(body: &[u8], off: usize) -> (r: Option<(u16, usize, usize)>)
    requires
        off <= body@.len(),
    ensures
        match r {
            Some((code, start, end)) => tag_bounds(body@, off as int) == Some(
                (code as int, start as int, end as int),
            ) && off < end <= body@.len() && start <= end,
            None => tag_bounds(body@, off as int) is None,
        },
{
    if body.len() - off < 2 {
        return None;
    }
    let head = read_le16(body, off);
    let code = head / 64;
    let mut start = off + 2;
    let mut len = (head % 64) as usize;
    if len == 0x3F {
        if body.len() - start < 4 {
            return None;
        }
        len = read_le32(body, start) as usize;
        start = start + 4;
    }
    if len > body.len() - start {
        return None;
    }
    Some((code, start, start + len))
}

/// Parse a SWF file image, extracting MP3 and ADPCM `DefineSound`s and
/// streaming MP3 sounds in file order.
pub fn parse(data: &[u8]) -> (r: Result<SwfSounds, SwfError>)
    ensures
        match r {
            Ok(s) => spec_parse(data@) == Ok::<SwfSoundsView, SwfErrorView>(s@),
            Err(e) => spec_parse(data@) == Err::<SwfSoundsView, SwfErrorView>(e@),
        },
{
    let (version, body) = body_bytes(data)?;
    parse_body(version, body.as_slice())
}

/// Extracts the sounds of an uncompressed movie body (everything after the
/// 8-byte header), in file order.
pub fn parse_body(version: u8, body: &[u8]) -> (r: Result<SwfSounds, SwfError>)
    requires
        body@.len() <= MAX_SWF_LEN,
    ensures
        match r {
            Ok(s) => spec_parse_body(version, body@) == Ok::<SwfSoundsView, SwfErrorView>(s@),
            Err(e) => spec_parse_body(version, body@) == Err::<SwfSoundsView, SwfErrorView>(e@),
        },
{
    // Skip FrameSize RECT + FrameRate (2) + FrameCount (2).
    let rect = match rect_len(body) {
        Ok(n) => n,
        Err(e) => return Err(e),
    };
    if body.len() < 4 || rect > body.len() - 4 {
        return Err(SwfError::TagOverrun);
    }
    let mut off = rect + 4;
    let ghost b = body@;
    let ghost init = TagState { sounds: seq![], skipped: seq![], stream: None, next_stream_id: 0x8000 };
    let mut sounds: Vec<Sound> = Vec::new();
    let mut skipped: Vec<SkippedSound> = Vec::new();
    let mut stream: Option<StreamSound> = None;
    let mut next_stream_id = 0x8000u16;
    assert(sounds_view(sounds@) =~= Seq::<SoundView>::empty());
    assert(skipped_view(skipped@) =~= Seq::<SkippedView>::empty());
    assert(state_view(sounds@, skipped@, stream, next_stream_id) == init);
    loop
        invariant
            b == body@,
            init == (TagState {
                sounds: seq![],
                skipped: seq![],
                stream: None,
                next_stream_id: 0x8000,
            }),
            b.len() <= MAX_SWF_LEN,
            spec_rect_len(b) == Some(rect as int),
            rect + 4 <= b.len(),
            off <= b.len(),
            spec_tags(b, rect + 4, init) == spec_tags(
                b,
                off as int,
                state_view(sounds@, skipped@, stream, next_stream_id),
            ),
        ensures
            init == (TagState {
                sounds: seq![],
                skipped: seq![],
                stream: None,
                next_stream_id: 0x8000,
            }),
            spec_rect_len(b) == Some(rect as int),
            rect + 4 <= b.len(),
            spec_tags(b, rect + 4, init) == Ok::<TagState, SwfErrorView>(
                state_view(sounds@, skipped@, stream, next_stream_id),
            ),
        decreases b.len() - off,
    {
        let (code, start, end) = match tag_at(body, off) {
            Some(t) => t,
            None => {
                proof {
                    let cur = state_view(sounds@, skipped@, stream, next_stream_id);
                    assert(spec_tags(b, off as int, cur) == Err::<TagState, SwfErrorView>(
                        SwfErrorView::TagOverrun,
                    ));
                    assert(spec_tags(b, rect + 4, init) == Err::<TagState, SwfErrorView>(
                        SwfErrorView::TagOverrun,
                    ));
                    assert(spec_parse_body(version, b) == Err::<SwfSoundsView, SwfErrorView>(
                        SwfErrorView::TagOverrun,
                    ));
                }
                return Err(SwfError::TagOverrun);
            },
        };
        if code == 0 {
            break;
        }
        let tag = &body[start..end];
        apply_tag_exec(code, tag, &mut sounds, &mut skipped, &mut stream, &mut next_stream_id);
        off = end;
    }
    let ghost st = state_view(sounds@, skipped@, stream, next_stream_id);
    if let Some(s) = stream {
        finish_stream(s, &mut sounds, &mut skipped);
    }
    Ok(SwfSounds { version, sounds, skipped })
}

/// `[AA, BB, CC]`: the three magic bytes in upper-case hexadecimal.
pub open spec fn magic_text(m: Seq<u8>) -> Seq<char> {
    "["@ + hex2(m[0]) + ", "@ + hex2(m[1]) + ", "@ + hex2(m[2]) + "]"@
}

/// What went wrong, in words.
pub open spec fn swf_error_text(e: SwfErrorView) -> Seq<char> {
    match e {
        SwfErrorView::TooSmall => "file too small to be a SWF"@,
        SwfErrorView::BadMagic(m) => "not a SWF file (magic "@ + magic_text(m) + ")"@,
        SwfErrorView::UnsupportedCompression(c) => "SWF compression '"@ + c
            + "' is not supported yet"@,
        SwfErrorView::VersionTooNew(v) => "SWF version "@ + decimal(v as nat)
            + " is newer than supported"@,
        SwfErrorView::DeclaredTooLarge(n) => "SWF declares "@ + decimal(n as nat)
            + " bytes, above the safety limit"@,
        SwfErrorView::Truncated { declared, actual } => "SWF truncated: declares "@ + decimal(
            declared as nat,
        ) + " bytes but file has "@ + decimal(actual as nat),
        SwfErrorView::LengthMismatch { declared, actual } =>
            "SWF body length mismatch: declares "@ + decimal(declared as nat) + " bytes, got "@
                + decimal(actual as nat),
        SwfErrorView::Decompress(d) => "SWF decompression failed: "@ + d,
        SwfErrorView::BadRect => "SWF frame-size record is malformed"@,
        SwfErrorView::TagOverrun => "SWF tag overruns the file"@,
    }
}

/// Appends the description of `e`.
pub fn push_error_text(out: &mut String, e: &SwfError)
    ensures
        final(out)@ == old(out)@ + swf_error_text(e@),
{
    match e {
        SwfError::TooSmall => push_str(out, "file too small to be a SWF"),
        SwfError::BadMagic(m) => {
            push_str(out, "not a SWF file (magic ");
            push_str(out, "[");
            push_hex2(out, m[0]);
            push_str(out, ", ");
            push_hex2(out, m[1]);
            push_str(out, ", ");
            push_hex2(out, m[2]);
            push_str(out, "]");
            push_str(out, ")");
        },
        SwfError::UnsupportedCompression(c) => {
            push_str(out, "SWF compression '");
            push_str(out, c);
            push_str(out, "' is not supported yet");
        },
        SwfError::VersionTooNew(v) => {
            push_str(out, "SWF version ");
            push_decimal(out, *v as u64);
            push_str(out, " is newer than supported");
        },
        SwfError::DeclaredTooLarge(n) => {
            push_str(out, "SWF declares ");
            push_decimal(out, *n as u64);
            push_str(out, " bytes, above the safety limit");
        },
        SwfError::Truncated { declared, actual } => {
            push_str(out, "SWF truncated: declares ");
            push_decimal(out, *declared as u64);
            push_str(out, " bytes but file has ");
            push_decimal(out, *actual as u64);
        },
        SwfError::LengthMismatch { declared, actual } => {
            push_str(out, "SWF body length mismatch: declares ");
            push_decimal(out, *declared as u64);
            push_str(out, " bytes, got ");
            push_decimal(out, *actual as u64);
        },
        SwfError::Decompress(d) => {
            push_str(out, "SWF decompression failed: ");
            push_str(out, d.as_str());
        },
        SwfError::BadRect => push_str(out, "SWF frame-size record is malformed"),
        SwfError::TagOverrun => push_str(out, "SWF tag overruns the file"),
    }
    assert(final(out)@ =~= old(out)@ + swf_error_text(e@));
}

/// User-facing message for `e`.
pub open spec fn swf_user_message(e: SwfErrorView) -> Seq<char> {
    swf_error_text(e) + ". The original file was not modified. Try another file or report it."@
}

/// User-facing message: what failed, that the source is intact, and what
/// to do next.
pub fn user_message(e: &SwfError) -> (r: String)
    ensures
        r@ == swf_user_message(e@),
{
    let mut out = String::new();
    push_error_text(&mut out, e);
    push_str(&mut out, ". The original file was not modified. Try another file or report it.");
    out
}

} // verus!
