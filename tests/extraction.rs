use mp3_extract::deobfuscate::deobfs;
use mp3_extract::extract::extract_mp3;
use mp3_extract::header::{frame_length, get_bit_rate, get_sample_rate, THRESHOLD};
use mp3_extract::pipeline::extract_all;

/// One frame: an MPEG-1 Layer III header followed by a zero payload.
fn frame(bit_rate_idx: u8, sample_rate_idx: u8, padding: bool) -> Vec<u8> {
    let b2 = (bit_rate_idx << 4) | (sample_rate_idx << 2) | if padding { 2 } else { 0 };
    let h = u32::from_be_bytes([0xFF, 0xFB, b2, 0x00]);
    let len = frame_length(h).expect("valid header");
    let mut f = vec![0xFF, 0xFB, b2, 0x00];
    f.resize(len, 0);
    f
}

/// Pseudo-random bytes without the high bit, so no frame sync can appear.
fn noise(n: usize, seed: u32) -> Vec<u8> {
    let mut x = seed;
    (0..n)
        .map(|_| {
            x = x.wrapping_mul(1103515245).wrapping_add(12345);
            ((x >> 16) & 0x7F) as u8
        })
        .collect()
}

/// Counts the frames of a run by following the frame lengths.
fn count_frames(run: &[u8]) -> usize {
    let mut pos = 0;
    let mut count = 0;
    while pos + 4 <= run.len() {
        let h = u32::from_be_bytes([run[pos], run[pos + 1], run[pos + 2], run[pos + 3]]);
        pos += frame_length(h).expect("run holds valid frames");
        count += 1;
    }
    assert_eq!(pos, run.len());
    count
}

/// 14400 + 14400 + 14400 + 7200 + 576 + 120 + 104 bytes, the last frame
/// padded or not.
fn frames_of_threshold_size(pad_last: bool) -> Vec<u8> {
    let mut s = Vec::new();
    for _ in 0..3 {
        s.extend(frame(14, 2, false));
    }
    s.extend(frame(10, 2, false));
    s.extend(frame(11, 1, false));
    s.extend(frame(2, 1, false));
    s.extend(frame(1, 0, pad_last));
    s
}

#[test]
fn deobfs_eight_bytes_each_phase() {
    let b: Vec<u8> = (0..8).collect();
    assert_eq!(deobfs(&b, 0), vec![1, 0, 2, 3, 5, 4, 6, 7]);
    assert_eq!(deobfs(&b, 1), vec![0, 2, 1, 3, 4, 6, 5, 7]);
    assert_eq!(deobfs(&b, 2), vec![0, 1, 3, 2, 4, 5, 7, 6]);
    assert_eq!(deobfs(&b, 3), vec![0, 1, 2, 4, 3, 5, 6, 7]);
}

#[test]
fn deobfs_twice_restores() {
    let b = noise(37, 5);
    for p in 0..4 {
        assert_eq!(deobfs(&deobfs(&b, p), p), b);
    }
}

#[test]
fn deobfs_keeps_length() {
    for n in 0..12 {
        let b = noise(n, 9);
        for p in 0..4 {
            assert_eq!(deobfs(&b, p).len(), n);
        }
    }
    assert_eq!(deobfs(&[], 0), Vec::<u8>::new());
    assert_eq!(deobfs(&[42], 0), vec![42]);
}

#[test]
fn rate_tables() {
    assert_eq!(get_bit_rate(0), None);
    assert_eq!(get_bit_rate(1), Some(32000));
    assert_eq!(get_bit_rate(9), Some(128000));
    assert_eq!(get_bit_rate(14), Some(320000));
    assert_eq!(get_bit_rate(15), None);
    assert_eq!(get_sample_rate(0), Some(44100));
    assert_eq!(get_sample_rate(1), Some(48000));
    assert_eq!(get_sample_rate(2), Some(3200));
    assert_eq!(get_sample_rate(3), None);
}

#[test]
fn frame_length_formula() {
    assert_eq!(frame_length(0xFFFB_9000), Some(417));
    assert_eq!(frame_length(0xFFFB_9200), Some(418));
    assert_eq!(frame_length(0xFFFB_E000), Some(1044));
    assert_eq!(frame_length(0xFFFB_E800), Some(14400));
    assert_eq!(frame_length(0xFFFB_1400), Some(96));
}

#[test]
fn frame_length_rejections() {
    // version 2, layer II, free and bad bit rate, reserved sample rate, reserved emphasis
    assert_eq!(frame_length(0xFFF3_9000), None);
    assert_eq!(frame_length(0xFFFD_9000), None);
    assert_eq!(frame_length(0xFFFB_0000), None);
    assert_eq!(frame_length(0xFFFB_F000), None);
    assert_eq!(frame_length(0xFFFB_9C00), None);
    assert_eq!(frame_length(0xFFFB_9002), None);
    assert_eq!(frame_length(0xFFFB_9001), Some(417));
    assert_eq!(frame_length(0xFFFB_9003), Some(417));
}

#[test]
fn broken_sync_never_starts_a_frame() {
    for low in 0..=0xFFFFu32 {
        assert_eq!(frame_length(0xFFDB_0000 | low), None);
        assert_eq!(frame_length(0x7FFB_0000 | low), None);
    }
    // As a frame, this window would make the run long enough to report.
    let mut s = vec![0xFF, 0x7B, 0xE8, 0x00];
    s.resize(14400, 0);
    for _ in 0..3 {
        s.extend(frame(14, 2, false));
    }
    assert!(extract_mp3(s).is_empty());
}

#[test]
fn threshold_boundary() {
    let over = frames_of_threshold_size(true);
    assert_eq!(over.len(), THRESHOLD + 1);
    let found = extract_mp3(over.clone());
    assert_eq!(found.len(), 1);
    assert_eq!(found[0].0, over);
    assert_eq!(found[0].1, 0);

    let exact = frames_of_threshold_size(false);
    assert_eq!(exact.len(), THRESHOLD);
    assert!(extract_mp3(exact).is_empty());
}

#[test]
fn offset_after_noise() {
    let mut s = vec![0u8; 100];
    let mut frames = Vec::new();
    for _ in 0..4 {
        frames.extend(frame(14, 2, false));
    }
    s.extend(frames.iter().copied());
    let found = extract_mp3(s);
    assert_eq!(found.len(), 1);
    assert_eq!(found[0].1, 100);
    assert_eq!(found[0].0, frames);
}

#[test]
fn truncated_last_frame_keeps_run() {
    let mut s = Vec::new();
    for _ in 0..4 {
        s.extend(frame(14, 2, false));
    }
    let mut cut = frame(14, 2, false);
    cut.truncate(1000);
    s.extend(cut);
    let found = extract_mp3(s);
    assert_eq!(found.len(), 1);
    assert_eq!(found[0].0.len(), 4 * 14400);
    assert_eq!(count_frames(&found[0].0), 4);
}

#[test]
fn short_buffers_give_nothing() {
    assert!(extract_mp3(Vec::new()).is_empty());
    assert!(extract_mp3(vec![0xFF, 0xFB, 0xE8]).is_empty());
    assert!(extract_all(&[]).is_empty());
}

#[test]
fn two_runs_in_order() {
    let mut s = noise(10, 1);
    for _ in 0..4 {
        s.extend(frame(14, 2, false));
    }
    s.extend(noise(7, 2));
    let second = s.len();
    for _ in 0..60 {
        s.extend(frame(14, 0, false));
    }
    let found = extract_mp3(s);
    assert_eq!(found.len(), 2);
    assert_eq!(found[0].1, 10);
    assert_eq!(found[1].1, second);
    assert_eq!(count_frames(&found[0].0), 4);
    assert_eq!(count_frames(&found[1].0), 60);
}

#[test]
fn end_to_end_phase_two() {
    let mut frames = Vec::new();
    for _ in 0..4 {
        frames.extend(frame(14, 2, false));
    }
    let mut plain = noise(1000, 7);
    plain.extend(frames.iter().copied());
    plain.extend(noise(500, 11));
    let hidden = deobfs(&plain, 2);

    let all = extract_all(&hidden);
    assert_eq!(all.len(), 1);
    assert_eq!(all[0].1, 1000);
    assert_eq!(all[0].0, frames);
    assert_eq!(count_frames(&all[0].0), 4);

    for p in 0..4 {
        let found = extract_mp3(deobfs(&hidden, p));
        assert_eq!(found.len(), if p == 2 { 1 } else { 0 });
    }
}

#[test]
fn end_to_end_four_small_frames_stay_below_threshold() {
    let mut plain = noise(1000, 3);
    for _ in 0..4 {
        plain.extend(frame(14, 0, false));
    }
    plain.extend(noise(500, 4));
    let hidden = deobfs(&plain, 2);
    assert!(extract_all(&hidden).is_empty());
}

#[test]
fn all_phases_sorted_by_offset() {
    // A run at 0 hidden at phase 2, then a run hidden at phase 1.
    let mut first = Vec::new();
    for _ in 0..4 {
        first.extend(frame(14, 2, false));
    }
    let mut second = noise(3, 8);
    for _ in 0..4 {
        second.extend(frame(14, 2, false));
    }
    let start = first.len();
    let mut buffer = deobfs(&first, 2);
    buffer.extend(deobfs(&second, 1));
    let all = extract_all(&buffer);
    assert_eq!(all.len(), 2);
    assert_eq!(all[0].1, 0);
    assert_eq!(all[0].0, first);
    assert_eq!(all[1].1, start + 3);
    assert_eq!(all[1].0, second[3..].to_vec());
}
