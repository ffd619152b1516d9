//! Portable library location, looper names and inspection reports.

use olooper::paths::{
    custom_codec, custom_copy_name, legacy_looper_name, looper_name, numbered_file_name,
    portable_root_for_executable, source_copy_name, source_copy_step, SourceCopyStep,
};
use olooper::import::swf::{parse, FORMAT_MP3};
use olooper::import::exe::locate;
use olooper::{check_custom_size, check_inspection_size, greet, inspect_exe_bytes, inspect_swf_bytes, to_report};

fn fws_with_sound(id: u16) -> Vec<u8> {
    let mut body = vec![0x00u8, 0x00, 0x00, 0x01, 0x00];
    let mut snd = id.to_le_bytes().to_vec();
    snd.push(FORMAT_MP3 << 4);
    snd.extend_from_slice(&1000u32.to_le_bytes());
    snd.extend_from_slice(&[0x00, 0x00, 0xFF, 0xFB, 0x90, 0x00]);
    let mut tag = ((14u16 << 6) | snd.len() as u16).to_le_bytes().to_vec();
    tag.extend_from_slice(&snd);
    body.extend_from_slice(&tag);
    body.extend_from_slice(&[0x00, 0x00]);
    let mut f = b"FWS".to_vec();
    f.push(5);
    f.extend_from_slice(&((body.len() + 8) as u32).to_le_bytes());
    f.extend_from_slice(&body);
    f
}

#[test]
fn portable_root_uses_parent_of_macos_app_bundle() {
    let executable = "/Applications/oLooper.app/Contents/MacOS/oLooper";
    assert_eq!(portable_root_for_executable(executable).unwrap(), "/Applications");
}

#[test]
fn portable_root_uses_executable_parent_outside_app_bundle() {
    let executable = "/tmp/olooper/olooper";
    assert_eq!(portable_root_for_executable(executable).unwrap(), "/tmp/olooper");
}

#[test]
fn portable_root_without_parent_is_an_error() {
    assert_eq!(portable_root_for_executable("/").unwrap_err(), "executable has no parent directory");
}

#[test]
fn looper_names_come_from_file_stems() {
    assert_eq!(looper_name("/drop/My Looper.swf"), "My Looper");
    assert_eq!(looper_name("/"), "looper");
    assert_eq!(legacy_looper_name("custom", "/x/beat.wav"), "Custom Loops");
    assert_eq!(legacy_looper_name("swf", "/x/The Wave!.swf"), "The Wave");
}

#[test]
fn source_copies_keep_swf_and_exe_only() {
    assert_eq!(source_copy_name("/drop/My Looper.SWF", 1).unwrap(), "My Looper.swf");
    assert_eq!(source_copy_name("/drop/My Looper.swf", 2).unwrap(), "My Looper (2).swf");
    assert_eq!(
        source_copy_name("/drop/song.mp3", 1).unwrap_err(),
        "only .swf and .exe files can be copied to loopersFlash"
    );
}

#[test]
fn swf_report_lists_sounds() {
    let data = fws_with_sound(7);
    let rep = inspect_swf_bytes(&data).unwrap();
    assert_eq!(rep.version, 5);
    assert_eq!(rep.sounds.len(), 1);
    assert_eq!((rep.sounds[0].id, rep.sounds[0].format, rep.sounds[0].sample_count), (7, 2, 1000));
    assert_eq!(rep.sounds[0].bytes, 4);
    let again = to_report(parse(&data).unwrap());
    assert_eq!(again.sounds, rep.sounds);
}

#[test]
fn swf_report_errors_are_user_messages() {
    let e = inspect_swf_bytes(b"XWS\x05\x10\x00\x00\x00").unwrap_err();
    assert_eq!(
        e,
        "not a SWF file (magic [58, 57, 53]). The original file was not modified. Try another file or report it."
    );
}

#[test]
fn exe_report_locates_the_embedded_swf() {
    let swf = fws_with_sound(9);
    let mut exe = b"MZ".to_vec();
    exe.extend_from_slice(&[0xAA; 100]);
    exe.extend_from_slice(&swf);
    let rep = inspect_exe_bytes(&exe).unwrap();
    assert_eq!((rep.swf_offset, rep.swf_length), (102, swf.len()));
    assert_eq!(rep.inner.sounds[0].id, 9);
    let found = locate(&exe).unwrap();
    assert_eq!(found.offset, 102);
    assert_eq!(
        inspect_exe_bytes(b"PK").unwrap_err(),
        "not a Windows executable (no MZ header). The original file was not modified. Only Flash projector executables with an embedded SWF are supported. Try the raw .swf if you have it."
    );
}

#[test]
fn greet_names_user_without_echoing_raw_input_twice() {
    let out = greet("DJ");
    assert!(out.contains("DJ"));
    assert_eq!(out.matches("DJ").count(), 1);
}

#[test]
fn numbered_names_count_from_two() {
    assert_eq!(numbered_file_name("beat", 1, "wav"), "beat.wav");
    assert_eq!(numbered_file_name("beat", 2, "wav"), "beat (2).wav");
}

#[test]
fn input_size_limits() {
    assert!(check_inspection_size(512 * 1024 * 1024).is_ok());
    assert_eq!(
        check_inspection_size(512 * 1024 * 1024 + 1).unwrap_err(),
        "file exceeds the 512 MiB inspection limit"
    );
    assert_eq!(check_custom_size(u64::MAX).unwrap_err(), "file exceeds the 512 MiB limit");
}

#[test]
fn custom_loops_are_named_from_their_path() {
    assert_eq!(custom_copy_name("/music/My Beat.WAV", 1), "My Beat.wav");
    assert_eq!(custom_copy_name("/music/My Beat.WAV", 3), "My Beat (3).wav");
    assert_eq!(custom_copy_name("/music/drums", 1), "drums.wav");
    assert_eq!(custom_codec("/x/a.MP3"), "mp3");
    assert_eq!(custom_codec("/x/a"), "wav");
    assert_eq!(custom_codec("/x/a.ÄIF"), "äif");
}

#[test]
fn dropped_source_copies_reuse_or_move_on() {
    assert_eq!(source_copy_step(1, false, false), SourceCopyStep::WriteNew);
    assert_eq!(source_copy_step(1, true, true), SourceCopyStep::UseExisting);
    assert_eq!(source_copy_step(1, true, false), SourceCopyStep::TryNext(2));
    assert_eq!(source_copy_step(9999, true, false), SourceCopyStep::TooMany);
}
