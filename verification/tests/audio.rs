use oxcb_media::audio::{
    analysis_due, capture_frames, clamp_fps, send_interval_us, AudioRing, FFT_SIZE,
};

#[test]
fn frame_rates_are_clamped() {
    assert_eq!(clamp_fps(0), 15);
    assert_eq!(clamp_fps(15), 15);
    assert_eq!(clamp_fps(60), 60);
    assert_eq!(clamp_fps(120), 120);
    assert_eq!(clamp_fps(121), 120);
    assert_eq!(send_interval_us(60), 16_666);
    assert_eq!(send_interval_us(15), 66_666);
    assert_eq!(send_interval_us(120), 8_333);
}

#[test]
fn analysis_waits_for_samples_and_time() {
    assert!(analysis_due(FFT_SIZE, 16_666, 16_666));
    assert!(!analysis_due(FFT_SIZE - 1, 16_666, 16_666));
    assert!(!analysis_due(FFT_SIZE, 16_665, 16_666));
}

#[test]
fn stereo_is_taken_apart() {
    let left = [1.5f32, -2.0];
    let right = [0.25f32, 1.0e-9];
    let mut data = Vec::new();
    for i in 0..2 {
        data.extend(left[i].to_le_bytes());
        data.extend(right[i].to_le_bytes());
    }
    data.extend([1, 2, 3]);
    let frames = capture_frames(&data, data.len(), 2);
    assert_eq!(frames.len(), 2);
    for i in 0..2 {
        assert_eq!(f32::from_bits(frames[i][0]), left[i]);
        assert_eq!(f32::from_bits(frames[i][1]), right[i]);
    }
}

#[test]
fn only_the_chunk_counts() {
    let data = [1u8, 0, 0, 0, 2, 0, 0, 0, 3, 0, 0, 0x80];
    assert_eq!(capture_frames(&data, 100, 1), vec![vec![1], vec![2], vec![0x8000_0003]]);
    assert_eq!(capture_frames(&data, 8, 1), vec![vec![1], vec![2]]);
    assert_eq!(capture_frames(&data, 11, 0), vec![vec![1], vec![2]]);
    assert_eq!(capture_frames(&data, 12, 2), vec![vec![1, 2]]);
    assert!(capture_frames(&data, 12, 4).is_empty());
    assert!(capture_frames(&data, 3, 1).is_empty());
    assert!(capture_frames(&data, 12, u32::MAX).is_empty());
}

#[test]
fn the_ring_keeps_the_newest() {
    let mut ring = AudioRing::new(4, 0.0f32);
    assert_eq!(ring.filled(), 0);
    ring.push_mixed_mono(&[1.0, 2.0, 3.0]);
    assert_eq!(ring.filled(), 3);
    let mut dst = vec![9.0; 3];
    ring.read_latest(2, &mut dst);
    assert_eq!(dst, vec![2.0, 3.0, 9.0]);
    ring.push_mixed_mono(&[4.0, 5.0, 6.0]);
    assert_eq!(ring.filled(), 4);
    let mut dst = vec![0.0; 4];
    ring.read_latest(4, &mut dst);
    assert_eq!(dst, vec![3.0, 4.0, 5.0, 6.0]);
    let mut short = vec![0.0; 2];
    ring.read_latest(4, &mut short);
    assert_eq!(short, vec![3.0, 4.0]);
    ring.read_latest(0, &mut short);
    assert_eq!(short, vec![3.0, 4.0]);
}

#[test]
fn samples_may_come_in_parts() {
    let all: Vec<i32> = (0..37).collect();
    for size in [1, 2, 5, 8, 9, 37] {
        let mut ring = AudioRing::new(8, 0);
        for part in all.chunks(size) {
            ring.push_mixed_mono(part);
        }
        let mut dst = vec![0; 8];
        ring.read_latest(8, &mut dst);
        assert_eq!(dst, all[29..].to_vec());
    }
}
