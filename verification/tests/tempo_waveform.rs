//! Tempo folding, zero-crossing snapping and waveform buckets.

use olooper::analysis::normalize_bpm;
use olooper::autoloop::snap_zero_crossing_with_flag;
use olooper::player::LoopBuffer;
use olooper::waveform::{bucket_peaks, clamp_buckets, MAX_BUCKETS, MIN_BUCKETS};

#[test]
fn detected_double_or_half_time_is_normalized_to_library_range() {
    // Tempi in tenths of a BPM: 60.0, 180.0 and 128.0 BPM.
    assert_eq!(normalize_bpm(600), Some(1200));
    assert_eq!(normalize_bpm(1800), Some(900));
    assert_eq!(normalize_bpm(1280), Some(1280));
}

#[test]
fn normalize_bpm_edges() {
    assert_eq!(normalize_bpm(0), None);
    assert_eq!(normalize_bpm(1), Some(1024));
    assert_eq!(normalize_bpm(650), Some(650));
    assert_eq!(normalize_bpm(1500), Some(1500));
    assert_eq!(normalize_bpm(1501), Some(750));
    assert_eq!(normalize_bpm(u32::MAX), Some(1023));
}

#[test]
fn zero_crossing_snap_works() {
    let rate = 44100u32;
    let frames = 1000;
    let mut samples = Vec::with_capacity(frames);
    for f in 0..frames {
        let val = if f < 500 { 10000i16 } else { -10000i16 };
        samples.push(val);
    }
    let buf = LoopBuffer { samples, channels: 1, rate };
    let (snapped, found) = snap_zero_crossing_with_flag(&buf, 499, 50);
    assert!(found);
    assert!((499..=501).contains(&snapped));
}

#[test]
fn snap_without_crossing_falls_back_to_quietest() {
    let buf = LoopBuffer { samples: vec![9, 5, 2, 7, 8], channels: 1, rate: 1000 };
    assert_eq!(snap_zero_crossing_with_flag(&buf, 1, 2), (2, false));
}

#[test]
fn bucket_count_clamps() {
    assert_eq!(clamp_buckets(0), MIN_BUCKETS);
    assert_eq!(clamp_buckets(1_000_000), MAX_BUCKETS);
    assert_eq!(clamp_buckets(500), 500);
}

#[test]
fn mono_bucket_peaks_are_exact() {
    // 256-frame ramp, 64 buckets: bucket i holds frames 4i..4i+4.
    let samples: Vec<i16> = (0..256).collect();
    let buf = LoopBuffer { samples, channels: 1, rate: 8000 };
    let peaks = bucket_peaks(&buf, 64);
    assert_eq!(peaks.len(), 64);
    for (i, p) in peaks.iter().enumerate() {
        assert_eq!(*p as usize, 4 * i + 3);
    }
}

#[test]
fn stereo_peaks_use_the_channel_sum_and_empty_is_flat() {
    let buf = LoopBuffer { samples: vec![100, -300, 5, 5], channels: 2, rate: 8000 };
    let peaks = bucket_peaks(&buf, 64);
    assert_eq!(peaks.len(), 64);
    assert_eq!(*peaks.iter().max().unwrap(), 200);
    let empty = LoopBuffer { samples: vec![], channels: 1, rate: 44100 };
    assert!(bucket_peaks(&empty, 128).iter().all(|p| *p == 0));
}
