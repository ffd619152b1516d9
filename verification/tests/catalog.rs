//! Catalog rules: safe names, tags, hashes, cue/loop validation, import
//! bookkeeping and schema migration planning.

use olooper::library::{
    check_slot_number, check_slot_values, cue_loop_frames, loop_buffer_to_wav, migration_steps, normalize_tags,
    nothing_to_import, sanitize_name, sha256_hex, sound_file_name, sound_title, trim_mp3_gapless,
    ImportReport,
};
use olooper::player::{decode_bytes, LoopBuffer};

fn pcm_wav(samples: &[i16], channels: u16, rate: u32) -> Vec<u8> {
    let n = samples.len();
    let mut v = b"RIFF".to_vec();
    v.extend_from_slice(&((36 + n * 2) as u32).to_le_bytes());
    v.extend_from_slice(b"WAVEfmt ");
    v.extend_from_slice(&16u32.to_le_bytes());
    v.extend_from_slice(&1u16.to_le_bytes());
    v.extend_from_slice(&channels.to_le_bytes());
    v.extend_from_slice(&rate.to_le_bytes());
    v.extend_from_slice(&(rate * channels as u32 * 2).to_le_bytes());
    v.extend_from_slice(&(channels * 2).to_le_bytes());
    v.extend_from_slice(&16u16.to_le_bytes());
    v.extend_from_slice(b"data");
    v.extend_from_slice(&((n * 2) as u32).to_le_bytes());
    for s in samples {
        v.extend_from_slice(&s.to_le_bytes());
    }
    v
}

#[test]
fn sanitize_confines_names() {
    assert_eq!(sanitize_name("../../etc/passwd"), "etc_passwd");
    assert_eq!(sanitize_name(""), "untitled");
    assert_eq!(sanitize_name("The Seventeenth (Wave) 01"), "The Seventeenth (Wave) 01");
    assert!(!sanitize_name("a/b\\c").chars().any(|c| c == '/' || c == '\\'));
}

#[test]
fn sanitize_collapses_trims_and_caps() {
    assert_eq!(sanitize_name("a***b"), "a_b");
    assert_eq!(sanitize_name("  ..__x__.. "), "x");
    assert_eq!(sanitize_name("tab\there"), "tab_here");
    assert_eq!(sanitize_name("Étude №5"), "Étude _5");
    assert_eq!(sanitize_name("..."), "untitled");
    assert_eq!(sanitize_name("a..b"), "a.b");
    assert!(!sanitize_name("x.../..y").contains(".."));
    let long = "x".repeat(200);
    assert_eq!(sanitize_name(&long).chars().count(), 80);
}

#[test]
fn tags_are_made_safe_and_joined() {
    assert_eq!(normalize_tags("drums, bass/line ,,untitled, keys"), "drums, bass_line, keys");
    assert_eq!(normalize_tags(""), "");
    assert_eq!(normalize_tags(" , ,"), "");
}

#[test]
fn sha256_hex_is_the_lowercase_digest() {
    assert_eq!(
        sha256_hex(b"abc"),
        "ba7816bf8f01cfea414140de5dae2223b00361a396177a9cb410ff61f20015ad"
    );
    assert_eq!(sha256_hex(b"").len(), 64);
}

#[test]
fn cue_and_loop_are_checked_against_the_row() {
    // 10 s at 1000 Hz with a stored total of 10000 frames.
    assert_eq!(cue_loop_frames(500, 1000, 4000, 10_000, 1000, 10_000).unwrap(), (1000, 4000));
    assert_eq!(cue_loop_frames(-1, 0, 10, 10_000, 1000, 10_000).unwrap_err(), "cue outside track duration");
    assert_eq!(cue_loop_frames(10_001, 0, 10, 10_000, 1000, 10_000).unwrap_err(), "cue outside track duration");
    assert_eq!(cue_loop_frames(0, 10, 10, 10_000, 1000, 10_000).unwrap_err(), "loop start must be before loop end");
    assert_eq!(
        cue_loop_frames(0, 0, 20_000, 10_000, 1000, 10_000).unwrap_err(),
        "loop end 20000 ms exceeds duration 10000 ms"
    );
    // Rows without a stored total fall back to duration x rate.
    assert_eq!(cue_loop_frames(0, 0, 1000, 2000, 44100, 0).unwrap(), (0, 44100));
    // Frames are cut to the stored total and the end is at least frame 1.
    assert_eq!(cue_loop_frames(0, 0, 1000, 2000, 44100, 30_000).unwrap(), (0, 30_000));
    assert_eq!(cue_loop_frames(0, 0, 1, 2000, 100, 0).unwrap(), (0, 1));
}

#[test]
fn migrations_follow_the_schema_version() {
    assert_eq!(migration_steps(0).unwrap(), vec![1, 2, 3, 4, 5, 6]);
    assert_eq!(migration_steps(3).unwrap(), vec![4, 5, 6]);
    assert_eq!(migration_steps(6).unwrap(), Vec::<i32>::new());
    assert_eq!(migration_steps(7).unwrap_err(), "database schema v7 is newer than supported v6");
}

#[test]
fn slots_are_numbered_one_to_four() {
    assert!(check_slot_number(1).is_ok());
    assert!(check_slot_number(4).is_ok());
    assert_eq!(check_slot_number(0).unwrap_err(), "slot must be 1–4");
    assert!(check_slot_number(5).is_err());
}

#[test]
fn sound_files_and_titles_are_numbered() {
    assert_eq!(sound_file_name(1, 7, "mp3"), "01_7.mp3");
    assert_eq!(sound_file_name(12, 300, "wav"), "12_300.wav");
    assert_eq!(sound_file_name(123, 1, "wav"), "123_1.wav");
    assert_eq!(sound_title(3, "Looper"), "03 · Looper");
}

#[test]
fn import_report_counts_every_sound_once() {
    let mut r = ImportReport::begin("My/Looper");
    assert_eq!(r.looper, "My_Looper");
    r.record_present(11);
    r.record_added(12);
    r.record_empty(3);
    r.record_failed(4, "cannot decode audio: bad".to_string());
    assert_eq!((r.added, r.already_there), (1, 1));
    assert_eq!(r.track_ids, vec![11, 12]);
    assert_eq!(r.failed.len(), 2);
    assert_eq!(r.failed[0].reason, "unsupported or empty sound");
    assert!(r.finish().is_ok());
}

#[test]
fn import_with_nothing_usable_fails() {
    let mut r = ImportReport::begin("L");
    r.record_empty(1);
    let (partial, msg) = r.finish().unwrap_err();
    assert_eq!(msg, "no sounds could be imported");
    assert_eq!(partial.failed.len(), 1);
    let (empty, why) = nothing_to_import("raw/name");
    assert_eq!(empty.looper, "raw/name");
    assert_eq!(why, "no extractable sounds");
}

#[test]
fn buffer_round_trips_through_wav() {
    let buf = LoopBuffer { samples: vec![0, -1, 300, -300], channels: 2, rate: 8000 };
    let wav = loop_buffer_to_wav(&buf);
    assert_eq!(wav.len(), 44 + 8);
    assert_eq!(&wav[0..4], b"RIFF");
    let back = decode_bytes(&wav).unwrap();
    assert_eq!((back.channels, back.rate), (2, 8000));
    assert_eq!(back.samples, buf.samples);
}

#[test]
fn gapless_trim_keeps_the_declared_range() {
    let samples: Vec<i16> = (0..20).collect();
    let data = pcm_wav(&samples, 1, 8000);
    let (trimmed, wav) = trim_mp3_gapless(&data, 2, 5).unwrap();
    assert_eq!(trimmed.samples, vec![2, 3, 4, 5, 6]);
    assert_eq!(decode_bytes(&wav).unwrap().samples, vec![2, 3, 4, 5, 6]);
    // A zero sample count keeps everything after the delay.
    assert_eq!(trim_mp3_gapless(&data, 18, 0).unwrap().0.samples, vec![18, 19]);
    // A count past the end is cut to the end.
    assert_eq!(trim_mp3_gapless(&data, 15, 100).unwrap().0.samples.len(), 5);
    assert!(trim_mp3_gapless(&data, 0, 0).is_none());
    assert!(trim_mp3_gapless(&data, 20, 1).is_none());
    assert!(trim_mp3_gapless(b"not audio", 1, 1).is_none());
}

#[test]
fn import_steps_route_each_sound() {
    let mut r = ImportReport::begin("Loops");
    // Known row: counted as present, nothing more to do.
    assert!(!r.route_sound(1, Some(40), 100));
    // No payload: fails as empty.
    assert!(!r.route_sound(2, None, 0));
    // Anything else goes on to decoding.
    assert!(r.route_sound(3, None, 100));
    assert!(r.route_decoded(3, Err("cannot decode audio: bad".to_string())).is_none());
    let buf = LoopBuffer { samples: vec![1, 2], channels: 1, rate: 8000 };
    let back = r.route_decoded(5, Ok(buf)).unwrap();
    assert_eq!(back.samples, vec![1, 2]);
    r.route_stored(41, true);
    r.route_stored(42, false);
    assert_eq!((r.added, r.already_there), (1, 2));
    assert_eq!(r.track_ids, vec![40, 41, 42]);
    assert_eq!(r.failed.len(), 2);
    assert_eq!((r.failed[0].id, r.failed[0].reason.as_str()), (2, "unsupported or empty sound"));
    assert_eq!((r.failed[1].id, r.failed[1].reason.as_str()), (3, "cannot decode audio: bad"));
}

#[test]
fn slot_values_must_fit_the_track() {
    assert!(check_slot_values(0, 0, 1000, 1000).is_ok());
    assert!(check_slot_values(500, 100, 900, 1000).is_ok());
    assert_eq!(check_slot_values(-1, 0, 10, 1000).unwrap_err(), "cue outside track duration");
    assert_eq!(check_slot_values(1001, 0, 10, 1000).unwrap_err(), "cue outside track duration");
    assert_eq!(
        check_slot_values(0, 0, 1500, 1000).unwrap_err(),
        "loop end 1500 ms exceeds duration 1000 ms"
    );
    assert_eq!(check_slot_values(0, 10, 10, 1000).unwrap_err(), "loop start must be before loop end");
    assert!(check_slot_values(0, -5, 10, 1000).is_err());
    assert!(check_slot_values(0, 0, -5, 1000).is_err());
}
