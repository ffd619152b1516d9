//! SWF parser scenarios on synthetic, in-code fixtures.

use std::io::Write as _;
use olooper::import::adpcm::wav_from_adpcm;
use olooper::import::swf::{inflated_body, parse, parse_body, SwfError, FORMAT_ADPCM, FORMAT_MP3};

/// Minimal MP3-ish payload: SeekSamples + two fake frames with sync bytes.
fn fake_mp3(seek: u16) -> Vec<u8> {
    let mut v = seek.to_le_bytes().to_vec();
    v.extend_from_slice(&[0xFF, 0xFB, 0x90, 0x00, 0x01, 0x02]);
    v.extend_from_slice(&[0xFF, 0xFB, 0x90, 0x00, 0x03, 0x04]);
    v
}

fn define_sound_tag(id: u16, format: u8, payload: &[u8]) -> Vec<u8> {
    const TAG_DEFINE_SOUND: u16 = 14;
    let mut body = id.to_le_bytes().to_vec();
    body.push(format << 4);
    body.extend_from_slice(&44100u32.to_le_bytes());
    body.extend_from_slice(payload);
    let mut tag = Vec::new();
    if body.len() < 0x3F {
        tag.extend_from_slice(&((TAG_DEFINE_SOUND << 6) | body.len() as u16).to_le_bytes());
    } else {
        tag.extend_from_slice(&((TAG_DEFINE_SOUND << 6) | 0x3F).to_le_bytes());
        tag.extend_from_slice(&(body.len() as u32).to_le_bytes());
    }
    tag.extend_from_slice(&body);
    tag
}

fn swf_tag(code: u16, body: &[u8]) -> Vec<u8> {
    let mut tag = Vec::new();
    if body.len() < 0x3F {
        tag.extend_from_slice(&((code << 6) | body.len() as u16).to_le_bytes());
    } else {
        tag.extend_from_slice(&((code << 6) | 0x3F).to_le_bytes());
        tag.extend_from_slice(&(body.len() as u32).to_le_bytes());
    }
    tag.extend_from_slice(body);
    tag
}

fn swf_body(tags: &[u8]) -> Vec<u8> {
    let mut b = vec![0x00];
    b.extend_from_slice(&[0x00, 0x00]);
    b.extend_from_slice(&[0x01, 0x00]);
    b.extend_from_slice(tags);
    b.extend_from_slice(&[0x00, 0x00]);
    b
}

fn fws_file(version: u8, tags: &[u8]) -> Vec<u8> {
    let body = swf_body(tags);
    let mut f = b"FWS".to_vec();
    f.push(version);
    f.extend_from_slice(&((body.len() + 8) as u32).to_le_bytes());
    f.extend_from_slice(&body);
    f
}

fn cws_file(version: u8, tags: &[u8]) -> Vec<u8> {
    let body = swf_body(tags);
    let mut enc = flate2::write::ZlibEncoder::new(Vec::new(), flate2::Compression::default());
    enc.write_all(&body).unwrap();
    let comp = enc.finish().unwrap();
    let mut f = b"CWS".to_vec();
    f.push(version);
    f.extend_from_slice(&((body.len() + 8) as u32).to_le_bytes());
    f.extend_from_slice(&comp);
    f
}

fn push_bits(value: u32, width: usize, bits: &mut Vec<u8>, current: &mut u8, count: &mut usize) {
    for shift in (0..width).rev() {
        *current = (*current << 1) | ((value >> shift) & 1) as u8;
        *count += 1;
        if *count == 8 {
            bits.push(*current);
            *current = 0;
            *count = 0;
        }
    }
}

fn finish_bits(bits: &mut Vec<u8>, current: u8, count: usize) {
    if count != 0 {
        bits.push(current << (8 - count));
    }
}

#[test]
fn valid_fws_extracts_mp3_in_order() {
    let mut tags = define_sound_tag(7, FORMAT_MP3, &fake_mp3(0));
    tags.extend(define_sound_tag(3, FORMAT_MP3, &fake_mp3(2112)));
    let r = parse(&fws_file(5, &tags)).unwrap();
    assert_eq!(r.version, 5);
    assert_eq!(r.sounds.len(), 2);
    assert_eq!(r.sounds[0].id, 7);
    assert_eq!(r.sounds[1].id, 3);
    assert_eq!(r.sounds[1].seek_samples, 2112);
    assert_eq!(r.sounds[0].frames, fake_mp3(0)[2..]);
    assert!(r.skipped.is_empty());
}

#[test]
fn valid_cws_extracts_mp3() {
    let mut payload = vec![0; 4096];
    payload.extend(fake_mp3(0));
    let tags = define_sound_tag(1, FORMAT_MP3, &payload);
    let file = cws_file(6, &tags);
    let declared = u32::from_le_bytes(file[4..8].try_into().unwrap()) as usize;
    assert!(
        file.len() < declared,
        "fixture must exercise compressed CWS sizing"
    );
    let r = parse(&file).unwrap();
    assert_eq!(r.sounds.len(), 1);
    assert_eq!(r.sounds[0].frames, fake_mp3(0)[2..]);
}

#[test]
fn leading_zero_padding_is_stripped() {
    let mut payload = vec![0u8; 417];
    payload.extend_from_slice(&fake_mp3(0));
    let tags = define_sound_tag(5, FORMAT_MP3, &payload);
    let r = parse(&fws_file(5, &tags)).unwrap();
    assert_eq!(r.sounds.len(), 1);
    assert_eq!(r.sounds[0].trimmed_leading, 417);
    assert_eq!(r.sounds[0].frames, fake_mp3(0)[2..]);
}

#[test]
fn mp3_without_frame_sync_is_skipped() {
    let tags = define_sound_tag(5, FORMAT_MP3, &[0x00, 0x00, 0x11, 0x22, 0x33]);
    let r = parse(&fws_file(5, &tags)).unwrap();
    assert!(r.sounds.is_empty());
    assert_eq!(r.skipped.len(), 1);
}

#[test]
fn streaming_mp3_blocks_are_assembled() {
    let head = swf_tag(18, &[0x0F, 0x2F, 0x00, 0x00, 0x00, 0x00]);
    let mut first = 3u16.to_le_bytes().to_vec();
    first.extend_from_slice(&0i16.to_le_bytes());
    first.extend_from_slice(&fake_mp3(0)[2..8]);
    let mut second = 3u16.to_le_bytes().to_vec();
    second.extend_from_slice(&0i16.to_le_bytes());
    second.extend_from_slice(&fake_mp3(0)[8..]);
    let mut tags = head;
    tags.extend(swf_tag(19, &first));
    tags.extend(swf_tag(19, &second));
    let parsed = parse(&fws_file(10, &tags)).unwrap();
    assert_eq!(parsed.sounds.len(), 1);
    assert_eq!(parsed.sounds[0].id, 0x8000);
    assert_eq!(parsed.sounds[0].sample_count, 6);
    assert_eq!(parsed.sounds[0].frames, fake_mp3(0)[2..]);
}

#[test]
fn adpcm_sound_is_decoded_to_wav() {
    let mut bits = Vec::new();
    let mut current = 0u8;
    let mut count = 0usize;
    push_bits(0, 2, &mut bits, &mut current, &mut count);
    push_bits(0, 16, &mut bits, &mut current, &mut count);
    push_bits(0, 6, &mut bits, &mut current, &mut count);
    push_bits(0, 2, &mut bits, &mut current, &mut count);
    finish_bits(&mut bits, current, count);
    let mut tag = define_sound_tag(9, FORMAT_ADPCM, &bits);
    tag[5..9].copy_from_slice(&2u32.to_le_bytes());
    let parsed = parse(&fws_file(10, &tag)).unwrap();
    assert_eq!(parsed.sounds[0].codec, "wav");
    assert_eq!(&parsed.sounds[0].frames[..4], b"RIFF");
}

#[test]
fn adpcm_resets_its_predictor_every_4095_samples() {
    let mut bits = Vec::new();
    let mut current = 0u8;
    let mut count = 0usize;
    push_bits(0, 2, &mut bits, &mut current, &mut count);
    push_bits(1_000, 16, &mut bits, &mut current, &mut count);
    push_bits(0, 6, &mut bits, &mut current, &mut count);
    for _ in 1..4095 {
        push_bits(0, 2, &mut bits, &mut current, &mut count);
    }
    push_bits(2_000, 16, &mut bits, &mut current, &mut count);
    push_bits(0, 6, &mut bits, &mut current, &mut count);
    finish_bits(&mut bits, current, count);
    let wav = wav_from_adpcm(&bits, 0x1E, 4096).expect("valid ADPCM");
    let offset = 44 + 4095 * 2;
    assert_eq!(
        i16::from_le_bytes(wav[offset..offset + 2].try_into().unwrap()),
        2_000
    );
}

#[test]
fn unsupported_codec_is_skipped_not_fatal() {
    let mut tags = define_sound_tag(1, 1, &[0x00, 0x00, 0xAA]);
    tags.extend(define_sound_tag(2, FORMAT_MP3, &fake_mp3(0)));
    let r = parse(&fws_file(5, &tags)).unwrap();
    assert_eq!(r.sounds.len(), 1);
    assert_eq!(r.sounds[0].id, 2);
    assert_eq!(r.skipped.len(), 1);
    assert_eq!(r.skipped[0].id, 1);
}

#[test]
fn bad_magic_rejected() {
    let mut f = fws_file(5, &[]);
    f[0] = b'X';
    assert_eq!(parse(&f).unwrap_err(), SwfError::BadMagic(*b"XWS"));
}

#[test]
fn truncated_rejected_without_panic() {
    let mut f = fws_file(5, &define_sound_tag(1, FORMAT_MP3, &fake_mp3(0)));
    f.truncate(f.len() - 4);
    assert!(matches!(parse(&f), Err(SwfError::Truncated { .. })));
}

#[test]
fn zws_reported_unsupported() {
    let mut f = fws_file(5, &[]);
    f[0] = b'Z';
    assert_eq!(
        parse(&f).unwrap_err(),
        SwfError::UnsupportedCompression("ZWS/LZMA")
    );
}

#[test]
fn oversized_declaration_rejected() {
    let mut f = fws_file(5, &[]);
    f[4..8].copy_from_slice(&u32::MAX.to_le_bytes());
    assert_eq!(parse(&f).unwrap_err(), SwfError::DeclaredTooLarge(u32::MAX));
}

#[test]
fn tag_overrun_rejected() {
    let mut tags = vec![0xFF, 0xFF];
    tags.extend_from_slice(&u32::MAX.to_le_bytes());
    let r = parse(&fws_file(5, &tags));
    assert_eq!(r.unwrap_err(), SwfError::TagOverrun);
}

#[test]
fn body_parser_sees_what_the_file_parser_sees() {
    let tags = define_sound_tag(5, FORMAT_MP3, &fake_mp3(0));
    let from_file = parse(&fws_file(8, &tags)).unwrap();
    let from_body = parse_body(8, &swf_body(&tags)).unwrap();
    assert_eq!(from_file, from_body);
}

#[test]
fn inflated_body_must_have_the_declared_length() {
    assert_eq!(inflated_body(20, Ok(vec![0; 12])).unwrap(), vec![0; 12]);
    assert_eq!(
        inflated_body(20, Ok(vec![0; 5])).unwrap_err(),
        SwfError::LengthMismatch { declared: 20, actual: 13 }
    );
    assert_eq!(
        inflated_body(20, Err("corrupt deflate stream".to_string())).unwrap_err(),
        SwfError::Decompress("corrupt deflate stream".to_string())
    );
}

#[test]
fn header_declaring_less_than_a_header_is_refused_without_panic() {
    let mut f = fws_file(5, &[]);
    f[4..8].copy_from_slice(&5u32.to_le_bytes());
    let len = f.len();
    assert_eq!(parse(&f).unwrap_err(), SwfError::LengthMismatch { declared: 5, actual: len });
    f[0] = b'C';
    assert_eq!(parse(&f).unwrap_err(), SwfError::LengthMismatch { declared: 5, actual: len });
}
