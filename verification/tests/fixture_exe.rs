//! Projector `.exe` locator scenarios on synthetic stubs.

use std::io::Write as _;
use olooper::import::exe::{extract, locate, scan, user_message, ExeError};
use olooper::import::swf::FORMAT_MP3;

fn fws_payload(sound_id: u16) -> Vec<u8> {
    // Minimal FWS v5: empty RECT + rate + count + one MP3 DefineSound + End.
    let mut body = vec![0x00u8, 0x00, 0x00, 0x01, 0x00];
    let mut snd = sound_id.to_le_bytes().to_vec();
    snd.push(FORMAT_MP3 << 4);
    snd.extend_from_slice(&1000u32.to_le_bytes());
    snd.extend_from_slice(&[0x00, 0x00, 0xFF, 0xFB, 0x90, 0x00]);
    let mut tag = ((14u16 << 6) | snd.len() as u16).to_le_bytes().to_vec();
    tag.extend_from_slice(&snd);
    body.extend_from_slice(&tag);
    body.extend_from_slice(&[0x00, 0x00]);
    let mut f = b"FWS".to_vec();
    f.push(5);
    f.extend_from_slice(&((body.len() + 8) as u32).to_le_bytes());
    f.extend_from_slice(&body);
    f
}

fn projector_stub(payload: &[u8]) -> Vec<u8> {
    let mut exe = b"MZ".to_vec();
    exe.extend_from_slice(&[0x90, 0x00, b'S', b'T', b'U', b'B']);
    exe.extend_from_slice(&[0xAA; 512]);
    exe.extend_from_slice(payload);
    exe.extend_from_slice(&[0x00; 8]);
    exe
}

fn cws_payload(sound_id: u16) -> Vec<u8> {
    let fws = fws_payload(sound_id);
    let mut encoder = flate2::write::ZlibEncoder::new(Vec::new(), flate2::Compression::default());
    encoder.write_all(&fws[8..]).unwrap();
    let mut cws = b"CWS".to_vec();
    cws.push(fws[3]);
    cws.extend_from_slice(&fws[4..8]);
    cws.extend_from_slice(&encoder.finish().unwrap());
    cws
}

#[test]
fn stub_with_appended_swf_locates_and_extracts() {
    let swf = fws_payload(9);
    let exe = projector_stub(&swf);
    let found = locate(&exe).unwrap();
    assert_eq!(found.offset, 2 + 6 + 512);
    assert_eq!(found.length, swf.len());
    let sounds = extract(&exe).unwrap();
    assert_eq!(sounds.sounds.len(), 1);
    assert_eq!(sounds.sounds[0].id, 9);
}

#[test]
fn stub_with_compressed_swf_uses_remaining_overlay_bytes() {
    let cws = cws_payload(11);
    let exe = projector_stub(&cws);
    let found = locate(&exe).unwrap();
    assert_eq!(found.offset, 2 + 6 + 512);
    assert_eq!(extract(&exe).unwrap().sounds[0].id, 11);
}

#[test]
fn exe_without_swf_is_unsupported() {
    let exe = b"MZSTUB".to_vec();
    assert!(matches!(locate(&exe), Err(ExeError::UnsupportedExe { .. })));
}

#[test]
fn non_exe_rejected() {
    assert_eq!(locate(b"FWS...").unwrap_err(), ExeError::NotAnExe);
    assert_eq!(locate(&[]).unwrap_err(), ExeError::TooSmall);
}

#[test]
fn truncated_embedded_swf_is_skipped_safely() {
    let mut swf = fws_payload(1);
    swf.truncate(swf.len() - 12);
    let exe = projector_stub(&swf);
    assert!(matches!(locate(&exe), Err(ExeError::UnsupportedExe { .. })));
}

#[test]
fn largest_valid_candidate_wins() {
    let small = fws_payload(1);
    let mut big = fws_payload(2);
    big.pop();
    big.pop();
    big.extend_from_slice(&[0x00, 0x00, 0x00, 0x00, 0x00, 0x00]);
    let new_len = big.len() as u32;
    big[4..8].copy_from_slice(&new_len.to_le_bytes());
    let mut exe = projector_stub(&small);
    exe.extend_from_slice(&big);
    let found = locate(&exe).unwrap();
    assert_eq!(found.length, big.len());
}

#[test]
fn larger_content_wins_over_earlier_cws_stub() {
    let mut big_fws = fws_payload(2);
    big_fws.pop();
    big_fws.pop();
    big_fws.extend_from_slice(&[0x00u8; 64]);
    let new_len = big_fws.len() as u32;
    big_fws[4..8].copy_from_slice(&new_len.to_le_bytes());
    let mut enc = flate2::write::ZlibEncoder::new(Vec::new(), flate2::Compression::default());
    enc.write_all(&big_fws[8..]).unwrap();
    let mut big = b"CWS".to_vec();
    big.push(big_fws[3]);
    big.extend_from_slice(&big_fws[4..8]);
    big.extend_from_slice(&enc.finish().unwrap());
    let small = cws_payload(1);
    assert!(big.len() > small.len());
    let mut exe = b"MZ".to_vec();
    exe.extend_from_slice(&[0xAA; 64]);
    let big_off = exe.len() + small.len();
    exe.extend_from_slice(&small);
    exe.extend_from_slice(&big);
    let found = locate(&exe).unwrap();
    assert_eq!(found.offset, big_off);
    assert_eq!(extract(&exe).unwrap().sounds[0].id, 2);
}

#[test]
fn zws_only_candidates_are_reported_as_lzma() {
    let mut swf = fws_payload(3);
    swf[0] = b'Z';
    let exe = projector_stub(&swf);
    assert_eq!(
        locate(&exe).unwrap_err(),
        ExeError::UnsupportedExe { candidates: 1, detail: "only LZMA-compressed candidates" }
    );
}

#[test]
fn scan_lists_headers_in_file_order() {
    let swf = fws_payload(4);
    let mut exe = projector_stub(&swf);
    exe.extend_from_slice(&swf);
    let found = scan(&exe);
    assert_eq!(found.len(), 2);
    assert_eq!(found[0].offset, 520);
    assert!(found[0].offset < found[1].offset);
}

#[test]
fn equal_length_fws_is_tried_before_earlier_cws() {
    // A broken CWS header of the same declared length precedes a valid FWS.
    let swf = fws_payload(6);
    let mut fake = swf.clone();
    fake[0] = b'C';
    let mut exe = projector_stub(&fake);
    let fws_off = exe.len();
    exe.extend_from_slice(&swf);
    assert_eq!(locate(&exe).unwrap().offset, fws_off);
}

#[test]
fn compressed_candidate_takes_the_rest_of_the_file() {
    let cws = cws_payload(12);
    let exe = projector_stub(&cws);
    let found = locate(&exe).unwrap();
    assert_eq!(found.length, exe.len() - found.offset);
}

#[test]
fn zws_header_must_fit_and_keeps_its_declared_length() {
    // Declares 100 bytes in an 8-byte file: no candidate.
    let short = [b'Z', b'W', b'S', 5, 100, 0, 0, 0];
    assert!(scan(&short).is_empty());
    // Declares 8 bytes with more data after it: stored length is 8.
    let mut fits = vec![b'Z', b'W', b'S', 5, 8, 0, 0, 0];
    fits.extend_from_slice(&[0u8; 20]);
    let found = scan(&fits);
    assert_eq!(found.len(), 1);
    assert_eq!((found[0].offset, found[0].length), (0, 8));
}

#[test]
fn every_exe_failure_suggests_the_raw_swf() {
    for e in [ExeError::TooSmall, ExeError::NotAnExe, ExeError::UnsupportedExe { candidates: 0, detail: "no candidate parsed as SWF" }] {
        let m = user_message(&e);
        assert!(m.contains("The original file was not modified."));
        assert!(m.ends_with("Try the raw .swf if you have it."));
    }
}
