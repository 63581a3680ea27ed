use oxcb_media::wire::{decode_frame, encode_frame, Deframer, MAX_FRAME_LEN, MAX_PAYLOAD_LEN};

/// A small generator of test bytes.
fn noise(seed: &mut u32) -> u8 {
    *seed = seed.wrapping_mul(1_664_525).wrapping_add(1_013_904_223);
    (*seed >> 24) as u8
}

/// Byte stuffing written out directly.
fn stuff(data: &[u8]) -> Vec<u8> {
    let mut out = Vec::new();
    for run in data.split(|b| *b == 0) {
        out.push(run.len() as u8 + 1);
        out.extend_from_slice(run);
    }
    out.push(0);
    out
}

/// Its inverse on bytes without a zero, block by block.
fn unstuff(frame: &[u8]) -> Option<Vec<u8>> {
    if frame.is_empty() {
        return None;
    }
    let end = frame.iter().position(|b| *b == 0).unwrap_or(frame.len());
    let mut rest = &frame[..end];
    let mut out = Vec::new();
    while !rest.is_empty() {
        let code = rest[0] as usize;
        if code > rest.len() {
            return None;
        }
        out.extend_from_slice(&rest[1..code]);
        rest = &rest[code..];
        if code != 255 && !rest.is_empty() {
            out.push(0);
        }
    }
    Some(out)
}

#[test]
fn frames_of_small_payloads() {
    assert_eq!(encode_frame(&[]), vec![1, 0]);
    assert_eq!(encode_frame(&[0]), vec![1, 1, 0]);
    assert_eq!(encode_frame(&[0, 0]), vec![1, 1, 1, 0]);
    assert_eq!(encode_frame(&[7]), vec![2, 7, 0]);
    assert_eq!(encode_frame(&[11, 0, 33]), vec![2, 11, 2, 33, 0]);
}

#[test]
fn longest_payload_without_zeros_fits() {
    let payload = vec![9u8; MAX_PAYLOAD_LEN];
    let frame = encode_frame(&payload);
    assert_eq!(frame.len(), MAX_PAYLOAD_LEN + 2);
    assert!(frame.len() <= MAX_FRAME_LEN);
    assert_eq!(frame[0], 254);
    assert_eq!(decode_frame(&frame[..frame.len() - 1]), Some(payload));
}

#[test]
fn frames_match_direct_stuffing() {
    let mut seed = 1u32;
    for len in 0..=MAX_PAYLOAD_LEN {
        let payload: Vec<u8> = (0..len).map(|_| noise(&mut seed) % 9).collect();
        let frame = encode_frame(&payload);
        assert_eq!(frame, stuff(&payload));
        assert!(frame[..frame.len() - 1].iter().all(|b| *b != 0));
        assert_eq!(decode_frame(&frame), Some(payload));
    }
}

#[test]
fn decoding_matches_direct_unstuffing() {
    let mut seed = 99u32;
    for round in 0..4000u32 {
        let len = (noise(&mut seed) as usize) % 12;
        let frame: Vec<u8> = (0..len).map(|_| noise(&mut seed) % (3 + (round % 7) as u8)).collect();
        assert_eq!(decode_frame(&frame), unstuff(&frame), "{:?}", frame);
    }
    let mut long = vec![255u8];
    long.extend(vec![4u8; 254]);
    long.push(2);
    long.push(8);
    assert_eq!(decode_frame(&long), unstuff(&long));
}

#[test]
fn decoding_rejects_empty_and_cut_frames() {
    assert_eq!(decode_frame(&[]), None);
    assert_eq!(decode_frame(&[3, 1]), None);
    assert_eq!(decode_frame(&[2]), None);
    assert_eq!(decode_frame(&[0]), Some(vec![]));
    assert_eq!(decode_frame(&[1]), Some(vec![]));
    assert_eq!(decode_frame(&[2, 5, 1]), Some(vec![5, 0]));
}

#[test]
fn deframer_cuts_at_delimiters() {
    let mut rx = Deframer::new();
    assert_eq!(rx.feed(0), None);
    assert_eq!(rx.feed(2), None);
    assert_eq!(rx.feed(1), None);
    assert_eq!(rx.feed(0), Some(vec![2, 1]));
    assert_eq!(rx.feed(0), None);
}

#[test]
fn deframer_gives_up_on_overlong_frames() {
    let mut rx = Deframer::new();
    for _ in 0..MAX_FRAME_LEN {
        assert_eq!(rx.feed(5), None);
    }
    assert_eq!(rx.feed(6), None);
    assert_eq!(rx.feed(0), None);
    assert_eq!(rx.feed(7), None);
    assert_eq!(rx.feed(0), Some(vec![7]));
}

#[test]
fn the_tail_of_an_overlong_frame_is_discarded() {
    for extra in [1, 2, 300] {
        let mut rx = Deframer::new();
        for _ in 0..MAX_FRAME_LEN + extra {
            assert_eq!(rx.feed(5), None);
        }
        assert_eq!(rx.feed(2), None);
        assert_eq!(rx.feed(1), None);
        assert_eq!(rx.feed(0), None);
        assert_eq!(rx.feed(2), None);
        assert_eq!(rx.feed(1), None);
        assert_eq!(rx.feed(0), Some(vec![2, 1]));
    }
}

#[test]
fn deframer_keeps_a_frame_of_full_length() {
    let mut rx = Deframer::new();
    for _ in 0..MAX_FRAME_LEN {
        assert_eq!(rx.feed(5), None);
    }
    assert_eq!(rx.feed(0), Some(vec![5; MAX_FRAME_LEN]));
}

#[test]
fn deframer_resyncs_behind_noise() {
    let mut rx = Deframer::new();
    for b in [200, 3, 3, 3] {
        assert_eq!(rx.feed(b), None);
    }
    assert!(rx.feed(0).is_some());
    let frame = encode_frame(&[1, 2, 3]);
    let mut done = Vec::new();
    for b in frame {
        done.extend(rx.feed(b));
    }
    assert_eq!(done, vec![vec![4, 1, 2, 3]]);
}
