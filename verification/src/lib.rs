//! oLooper core: container parsing, loop arithmetic and catalog rules for
//! practising with audio loops extracted from Flash `.swf` and projector
//! `.exe` files.
use vstd::prelude::*;
use crate::import::swf::{SwfSounds, SwfSoundsView, SoundView, SkippedView, spec_parse, parse, swf_user_message};
use crate::text::push_str;
use vstd::string::StringExecFns;
use crate::import::exe::{EmbeddedSwf, ExeErrorView, spec_locate, candidate_bytes, locate, parse_located, exe_user_message};

pub mod import;
pub mod bytes;
pub mod wav;
pub mod text;
pub mod player;
pub mod autoloop;
pub mod library;
pub mod paths;
pub mod analysis;
pub mod waveform;

verus! {

/// Typed status shown by the frontend.
#[derive(Debug, Clone, PartialEq, Eq)]
pub struct AppStatus {
    pub version: String,
    pub platform: String,
    pub library_set: bool,
}

/// Per-sound entry in an inspection report.
#[derive(Debug, Clone, Copy, PartialEq, Eq)]
pub struct SoundReport {
    pub id: u16,
    pub format: u8,
    pub sample_count: u32,
    pub bytes: usize,
}

/// Human-usable report for a `.swf` file.
#[derive(Debug, Clone)]
pub struct SwfReport {
    pub version: u8,
    pub sounds: Vec<SoundReport>,
    pub skipped: Vec<SoundReport>,
}

/// Report for a `.exe` projector: embedded SWF location and its sounds.
#[derive(Debug, Clone)]
pub struct ExeReport {
    pub swf_offset: usize,
    pub swf_length: usize,
    pub inner: SwfReport,
}

/// The report entry of an extracted sound.
pub open spec fn sound_report(s: SoundView) -> SoundReport {
    SoundReport {
        id: s.id,
        format: s.format,
        sample_count: s.sample_count,
        bytes: s.frames.len() as usize,
    }
}

/// The report entry of a skipped sound: no samples, no bytes.
pub open spec fn skipped_report(k: SkippedView) -> SoundReport {
    SoundReport { id: k.id, format: k.format, sample_count: 0, bytes: 0 }
}

/// `r` reports exactly the sounds of `v`, in order.
pub open spec fn report_matches(r: SwfReport, v: SwfSoundsView) -> bool {
    &&& r.version == v.version
    &&& r.sounds@.len() == v.sounds.len()
    &&& forall|i: int| 0 <= i < v.sounds.len() ==> r.sounds@[i] == sound_report(#[trigger] v.sounds[i])
    &&& r.skipped@.len() == v.skipped.len()
    &&& forall|i: int|
        0 <= i < v.skipped.len() ==> r.skipped@[i] == skipped_report(#[trigger] v.skipped[i])
}

/// Summarises parsed sounds for display.
pub fn to_report(s: SwfSounds) -> (r: SwfReport)
    ensures
        report_matches(r, s@),
{
    let mut sounds: Vec<SoundReport> = Vec::new();
    let mut i: usize = 0;
    while i < s.sounds.len()
        invariant
            i <= s.sounds@.len(),
            sounds@.len() == i,
            forall|k: int| 0 <= k < i ==> sounds@[k] == sound_report(s@.sounds[k]),
        decreases s.sounds@.len() - i,
    {
        let x = &s.sounds[i];
        sounds.push(
            SoundReport {
                id: x.id,
                format: x.format,
                sample_count: x.sample_count,
                bytes: x.frames.len(),
            },
        );
        i = i + 1;
    }
    let mut skipped: Vec<SoundReport> = Vec::new();
    let mut j: usize = 0;
    while j < s.skipped.len()
        invariant
            j <= s.skipped@.len(),
            skipped@.len() == j,
            forall|k: int| 0 <= k < j ==> skipped@[k] == skipped_report(s@.skipped[k]),
        decreases s.skipped@.len() - j,
    {
        let x = &s.skipped[j];
        skipped.push(SoundReport { id: x.id, format: x.format, sample_count: 0, bytes: 0 });
        j = j + 1;
    }
    SwfReport { version: s.version, sounds, skipped }
}

/// Inspects an SWF image: its report, or the user-facing message of why
/// it is not usable.
pub fn inspect_swf_bytes(data: &[u8]) -> (r: Result<SwfReport, String>)
    ensures
        match spec_parse(data@) {
            Ok(v) => r matches Ok(rep) && report_matches(rep, v),
            Err(e) => r matches Err(m) && m@ == swf_user_message(e),
        },
{
    match parse(data) {
        Ok(s) => Ok(to_report(s)),
        Err(e) => Err(crate::import::swf::user_message(&e)),
    }
}

/// Inspects a projector executable: where its SWF lies and what it holds,
/// or the user-facing message of why it is not usable.
pub fn inspect_exe_bytes(data: &[u8]) -> (r: Result<ExeReport, String>)
    ensures
        match spec_locate(data@) {
            Err(e) => r matches Err(m) && m@ == exe_user_message(e),
            Ok(c) => match spec_parse(candidate_bytes(data@, c)) {
                Ok(v) => r matches Ok(rep) && rep.swf_offset == c.offset && rep.swf_length
                    == c.length && report_matches(rep.inner, v),
                Err(e) => r matches Err(m) && m@ == swf_user_message(e),
            },
        },
{
    let found = match locate(data) {
        Ok(f) => f,
        Err(e) => return Err(crate::import::exe::user_message(&e)),
    };
    match parse_located(data, found) {
        Ok(s) => Ok(ExeReport { swf_offset: found.offset, swf_length: found.length, inner: to_report(s) }),
        Err(e) => Err(crate::import::swf::user_message(&e)),
    }
}

/// Greeting shown on the start screen.
pub fn greet(name: &str) -> (r: String)
    ensures
        r@ == "Hello, "@ + name@ + "! Drop a .swf, .exe or audio file to begin."@,
{
    let mut out = String::from_str("Hello, ");
    push_str(&mut out, name);
    push_str(&mut out, "! Drop a .swf, .exe or audio file to begin.");
    out
}

/// Largest file accepted for inspection and import (512 MiB).
pub const MAX_INPUT_LEN: u64 = 512 * 1024 * 1024;

/// Files inspected (`.swf`, `.exe`, audio for waveforms) may be at most
/// [`MAX_INPUT_LEN`] bytes long.
pub fn check_inspection_size(len: u64) -> (r: Result<(), String>)
    ensures
        r is Ok <==> len <= MAX_INPUT_LEN,
        r matches Err(m) ==> m@ == "file exceeds the 512 MiB inspection limit"@,
{
    if len > MAX_INPUT_LEN {
        Err("file exceeds the 512 MiB inspection limit".to_owned())
    } else {
        Ok(())
    }
}

/// Audio files imported as custom loops may be at most [`MAX_INPUT_LEN`]
/// bytes long.
pub fn check_custom_size(len: u64) -> (r: Result<(), String>)
    ensures
        r is Ok <==> len <= MAX_INPUT_LEN,
        r matches Err(m) ==> m@ == "file exceeds the 512 MiB limit"@,
{
    if len > MAX_INPUT_LEN {
        Err("file exceeds the 512 MiB limit".to_owned())
    } else {
        Ok(())
    }
}

} // verus!
