//! Hardware-free player core scenarios: loop math, region sources, region
//! validation, decoding of a hand-built WAV, transport and load bookkeeping.

use std::sync::Arc;
use olooper::player::{
    buffer_from_decoded, check_region, decode_bytes, frames_to_ms, load_ready_current, ms_to_frames, remap_frame,
    snap_loop, snap_zero_crossing, waveform_snapshot_current, DecodeCache, LoadQueue, LoadStep,
    LoadedSnapshot, LoopBuffer, LoopRegion, PendingLoad, Transport, sample_window,
    snap_loop_boundary, SnappedBoundary,
};

fn mono(frames: Vec<i16>) -> Arc<LoopBuffer> {
    Arc::new(LoopBuffer { samples: frames, channels: 1, rate: 1000 })
}

fn take(src: &mut LoopRegion, n: usize) -> Vec<i16> {
    let mut out = Vec::new();
    while out.len() < n {
        match src.next() {
            Some(s) => out.push(s),
            None => break,
        }
    }
    out
}

/// Minimal PCM16 mono WAV: 8000 Hz, samples 0, 1, 2, ...
fn pcm_wav(n: usize) -> Vec<u8> {
    let mut v = Vec::new();
    v.extend_from_slice(b"RIFF");
    v.extend_from_slice(&((36 + n * 2) as u32).to_le_bytes());
    v.extend_from_slice(b"WAVEfmt ");
    v.extend_from_slice(&16u32.to_le_bytes());
    v.extend_from_slice(&1u16.to_le_bytes());
    v.extend_from_slice(&1u16.to_le_bytes());
    v.extend_from_slice(&8000u32.to_le_bytes());
    v.extend_from_slice(&16000u32.to_le_bytes());
    v.extend_from_slice(&2u16.to_le_bytes());
    v.extend_from_slice(&16u16.to_le_bytes());
    v.extend_from_slice(b"data");
    v.extend_from_slice(&((n * 2) as u32).to_le_bytes());
    for i in 0..n {
        v.extend_from_slice(&(i as i16).to_le_bytes());
    }
    v
}

#[test]
fn loop_region_wraps_without_gaps() {
    let buf = mono(vec![0, 1, 2, 3, 4, 5]);
    let mut src = LoopRegion::new(buf, 2, 2, 5, true);
    let got = take(&mut src, 9);
    assert_eq!(got, vec![2, 3, 4, 2, 3, 4, 2, 3, 4]);
    assert_eq!(src.cursor(), 4);
}

#[test]
fn loop_region_repeats_exact_boundary_frames() {
    let buf = mono(vec![-4, -2, 0, 3, 5, 2, 0, -3]);
    let mut src = LoopRegion::new(buf, 2, 2, 7, true);
    let got = take(&mut src, 15);
    assert_eq!(got, vec![0, 3, 5, 2, 0, 0, 3, 5, 2, 0, 0, 3, 5, 2, 0]);
}

#[test]
fn zero_crossing_snap_prefers_nearest_crossing() {
    let buf = LoopBuffer { samples: vec![-5, -2, 0, 3, 5, 2, -1, -4], channels: 1, rate: 1000 };
    assert_eq!(snap_zero_crossing(&buf, 3), 3);
    assert_eq!(snap_zero_crossing(&buf, 6), 6);
}

#[test]
fn one_shot_region_ends() {
    let buf = mono(vec![0, 1, 2, 3, 4]);
    let mut src = LoopRegion::new(buf, 0, 0, 3, false);
    let got = take(&mut src, 100);
    assert_eq!(got, vec![0, 1, 2]);
    assert_eq!(src.next(), None);
}

#[test]
fn from_frame_clamps_into_region() {
    let buf = mono(vec![0, 1, 2, 3]);
    let mut src = LoopRegion::new(buf, 99, 1, 3, true);
    assert_eq!(src.next(), Some(1));
    assert_eq!(src.cursor(), 1);
}

#[test]
fn stereo_region_wraps_on_frame_boundaries() {
    let buf = Arc::new(LoopBuffer { samples: vec![0, 10, 1, 11, 2, 12, 3, 13], channels: 2, rate: 1000 });
    let mut src = LoopRegion::new(buf, 1, 1, 3, true);
    assert_eq!(take(&mut src, 8), vec![1, 11, 2, 12, 1, 11, 2, 12]);
    assert_eq!(src.cursor(), 2);
}

#[test]
fn stereo_cursor_follows_each_frame_start() {
    let buf = Arc::new(LoopBuffer { samples: vec![0, 10, 1, 11, 2, 12, 3, 13], channels: 2, rate: 1000 });
    let mut src = LoopRegion::new(buf, 1, 1, 3, true);
    let mut cursors = Vec::new();
    for _ in 0..6 {
        src.next();
        cursors.push(src.cursor());
    }
    assert_eq!(cursors, vec![1, 1, 2, 2, 1, 1]);
}

#[test]
fn ms_frame_conversions_roundtrip() {
    assert_eq!(ms_to_frames(1500, 44100), 66150);
    assert_eq!(frames_to_ms(66150, 44100), 1500);
    assert_eq!(ms_to_frames(0, 0), 0);
    assert_eq!(frames_to_ms(10, 0), 0);
}

#[test]
fn ms_to_frames_rounds_down_and_back_lands_before() {
    // 1 ms at 44.1 kHz is 44.1 frames: 44 whole frames, which is 0.997 ms.
    assert_eq!(ms_to_frames(1, 44100), 44);
    assert_eq!(frames_to_ms(44, 44100), 0);
}

#[test]
fn region_validation_rejects_bad_ranges() {
    assert!(check_region(0, 1000, 5000).is_ok());
    assert!(check_region(1000, 1000, 5000).is_err());
    assert!(check_region(2000, 1000, 5000).is_err());
    assert!(check_region(0, 6000, 5000).is_err());
}

#[test]
fn region_errors_say_what_is_wrong() {
    assert_eq!(check_region(0, 6000, 5000).unwrap_err(), "loop end 6000 ms exceeds duration 5000 ms");
    assert_eq!(check_region(1000, 1000, 5000).unwrap_err(), "loop start must be before loop end");
}

#[test]
fn synthetic_wav_decodes_end_to_end() {
    let buf = decode_bytes(&pcm_wav(800)).unwrap();
    assert_eq!(buf.channels, 1);
    assert_eq!(buf.rate, 8000);
    assert_eq!(buf.frames(), 800);
    assert_eq!(buf.duration_ms(), 100);
    assert_eq!(&buf.samples[0..4], &[0, 1, 2, 3]);
}

#[test]
fn garbage_is_not_audio() {
    assert!(decode_bytes(b"definitely not audio").is_err());
    assert!(decode_bytes(&[]).is_err());
}

#[test]
fn decode_errors_are_prefixed_for_the_user() {
    let e = decode_bytes(b"definitely not audio").unwrap_err();
    assert!(e.starts_with("cannot decode audio: "), "{e}");
}

#[test]
fn memory_bytes_counts_two_bytes_per_sample() {
    let buf = decode_bytes(&pcm_wav(800)).unwrap();
    assert_eq!(buf.memory_bytes(), 1600);
}

#[test]
fn waveform_snapshot_current_matches_path_and_generation() {
    let loaded: LoadedSnapshot = Some(("/a.wav".to_string(), 1, mono(vec![1, 2, 3])));
    assert!(waveform_snapshot_current(&loaded, "/a.wav", 1));
    assert!(!waveform_snapshot_current(&loaded, "/a.wav", 2));
    assert!(!waveform_snapshot_current(&loaded, "/b.wav", 1));
    assert!(!waveform_snapshot_current(&None, "/a.wav", 1));
}

#[test]
fn load_completion_applies_only_to_latest_request() {
    let pending = Some(PendingLoad { generation: 2, path: "/b.wav".to_string() });
    assert!(load_ready_current(&pending, 2, "/b.wav"));
    assert!(!load_ready_current(&pending, 1, "/b.wav"));
    assert!(!load_ready_current(&pending, 2, "/a.wav"));
    assert!(!load_ready_current(&None, 2, "/b.wav"));
}

#[test]
fn frame_remap_scales_across_buffers() {
    assert_eq!(remap_frame(50, 100, 200), 100);
    assert_eq!(remap_frame(0, 100, 200), 0);
    assert_eq!(remap_frame(7, 0, 200), 0);
}

#[test]
fn remap_maps_the_old_end_onto_the_new_end() {
    assert_eq!(remap_frame(100, 100, 173), 173);
    assert_eq!(remap_frame(33, 100, 100), 33);
}

#[test]
fn transport_loop_from_milliseconds() {
    let mut t = Transport::loaded(1000);
    assert_eq!((t.start_frame, t.end_frame, t.enabled, t.resume_frame), (0, 1000, true, 0));
    t.set_loop_ms(100, 400, 1000).unwrap();
    assert_eq!((t.start_frame, t.end_frame, t.resume_frame), (100, 400, 100));
    // End past the track is cut to the track.
    t.set_loop_ms(100, 5000, 1000).unwrap();
    assert_eq!(t.end_frame, 1000);
    // Refused requests change nothing.
    assert_eq!(t.set_loop_ms(500, 500, 1000).unwrap_err(), "loop start must be before loop end");
    assert_eq!((t.start_frame, t.end_frame), (100, 1000));
    let mut empty = Transport::loaded(0);
    assert_eq!(empty.set_loop_ms(0, 10, 1000).unwrap_err(), "track has no frames");
}

#[test]
fn transport_frames_stop_seek_and_retime() {
    let mut t = Transport::loaded(100);
    assert!(t.set_loop_frames(10, 101).is_err());
    t.set_loop_frames(10, 50).unwrap();
    t.pause(42);
    assert_eq!(t.resume_frame, 42);
    t.stop();
    assert_eq!(t.resume_frame, 10);
    // Seek is cut to the duration, then to the track.
    assert_eq!(t.seek(5000, 1000, 80), 80);
    assert_eq!(t.resume_frame, 80);
    t.set_enabled(false, true, 33);
    assert!(!t.enabled);
    assert_eq!(t.resume_frame, 33);
    let cursor = t.retime(200, 40);
    assert_eq!(cursor, 80);
    assert_eq!((t.total_frames, t.start_frame, t.end_frame, t.resume_frame), (200, 20, 100, 66));
}

#[test]
fn snapped_loop_moves_ends_to_zero_crossings() {
    let buf = LoopBuffer { samples: vec![-5, -2, 0, 3, 5, 2, -1, -4], channels: 1, rate: 1000 };
    assert_eq!(snap_loop(&buf, 3, 6).unwrap(), (3, 6));
    assert_eq!(snap_loop(&buf, 3, 3).unwrap_err(), "snapped loop start must be before end");
}

#[test]
fn decode_cache_keeps_newest_and_hands_back() {
    let mut cache = DecodeCache::new();
    for i in 0..8 {
        cache.insert(format!("/{i}.wav"), mono(vec![i as i16; 4]));
    }
    assert_eq!(cache.len(), 6);
    assert_eq!(cache.bytes(), 6 * 8);
    assert!(cache.take("/0.wav").is_none());
    let b = cache.take("/7.wav").unwrap();
    assert_eq!(b.samples, vec![7i16; 4]);
    assert_eq!(cache.len(), 5);
    assert!(cache.take("/7.wav").is_none());
    // Re-inserting a path replaces its entry.
    cache.insert("/3.wav".to_string(), mono(vec![9; 2]));
    cache.insert("/3.wav".to_string(), mono(vec![8; 2]));
    assert_eq!(cache.len(), 5);
    assert_eq!(cache.take("/3.wav").unwrap().samples, vec![8i16; 2]);
}

#[test]
fn load_queue_installs_only_the_latest_request() {
    let mut q = LoadQueue::new();
    match q.request("/a.wav", false) {
        LoadStep::Decode(p) => assert_eq!((p.generation, p.path.as_str()), (1, "/a.wav")),
        other => panic!("expected a decode, got {other:?}"),
    }
    // A second request while /a decodes only queues.
    assert!(matches!(q.request("/b.wav", false), LoadStep::Idle));
    assert!(q.loading());
    // /a finishes: superseded, so /b starts.
    match q.completed(1, "/a.wav", None) {
        LoadStep::Decode(p) => assert_eq!((p.generation, p.path.as_str()), (2, "/b.wav")),
        other => panic!("expected a decode, got {other:?}"),
    }
    assert!(matches!(q.completed(2, "/b.wav", None), LoadStep::Apply { generation: 2 }));
    assert!(!q.loading());
    // A cached track is installed at once.
    assert!(matches!(q.request("/a.wav", true), LoadStep::Apply { generation: 3 }));
    // A failed decode keeps its error.
    let _ = q.request("/c.wav", false);
    assert!(matches!(q.completed(4, "/c.wav", Some("boom".to_string())), LoadStep::Idle));
    assert_eq!(q.last_error.as_deref(), Some("boom"));
}

#[test]
fn sample_window_is_cut_to_the_track_and_strided() {
    let buf = LoopBuffer { samples: (0..10).collect(), channels: 1, rate: 1000 };
    let w = sample_window(&buf, 5, 2, 100).unwrap();
    assert_eq!((w.start_frame, w.end_frame, w.samples.clone()), (3, 7, vec![3, 4, 5, 6]));
    let w = sample_window(&buf, 5, 2, 2).unwrap();
    assert_eq!(w.samples, vec![3, 5]);
    let w = sample_window(&buf, 50, 2, 100).unwrap();
    assert_eq!((w.start_frame, w.end_frame), (9, 10));
    // Stereo mixes down rounding toward negative infinity.
    let st = LoopBuffer { samples: vec![-3, 0, 5, 0], channels: 2, rate: 1000 };
    assert_eq!(sample_window(&st, 0, 5, 10).unwrap().samples, vec![-2, 2]);
    let empty = LoopBuffer { samples: vec![], channels: 1, rate: 1000 };
    assert_eq!(sample_window(&empty, 0, 5, 10).unwrap_err(), "track has no frames");
}

#[test]
fn loop_boundaries_snap_and_stay_ordered() {
    let buf = LoopBuffer { samples: vec![-5, -2, 0, 3, 5, 2, -1, -4], channels: 1, rate: 1000 };
    assert_eq!(
        snap_loop_boundary(&buf, "start", 3, 6).unwrap(),
        SnappedBoundary { frame: 3, ms: 3, discontinuity: 0, zero_crossing_found: true }
    );
    assert_eq!(snap_loop_boundary(&buf, "end", 6, 3).unwrap().frame, 6);
    assert_eq!(snap_loop_boundary(&buf, "start", 3, 2).unwrap().frame, 1);
    assert_eq!(
        snap_loop_boundary(&buf, "middle", 3, 2).unwrap_err(),
        "boundary must be \"start\" or \"end\""
    );
}

#[test]
fn decoder_outcomes_become_buffers_or_messages() {
    let b = buffer_from_decoded(Ok((2, 8000, vec![1, 2, 3, 4]))).unwrap();
    assert_eq!((b.channels, b.rate, b.frames()), (2, 8000, 2));
    assert_eq!(
        buffer_from_decoded(Ok((0, 8000, vec![]))).unwrap_err(),
        "decoded stream has no channels or rate"
    );
    assert_eq!(buffer_from_decoded(Err("eof".to_string())).unwrap_err(), "cannot decode audio: eof");
    assert_eq!(
        buffer_from_decoded(Ok((1, 1000, vec![0; 900_001]))).unwrap_err(),
        "track is 15 min, over the 15 min practice limit"
    );
    assert!(buffer_from_decoded(Ok((1, 1000, vec![0; 900_000]))).is_ok());
}
