use rumble_rs::marker::find_marker;
use rumble_rs::reassembler::FrameAccumulator;

fn sample_frame(body: &[u8]) -> Vec<u8> {
    let mut f = vec![0xFF, 0xD8];
    f.extend_from_slice(body);
    f.extend_from_slice(&[0xFF, 0xD9]);
    f
}

#[test]
fn find_marker_reports_first_occurrence() {
    let data = [0x00, 0xFF, 0xD8, 0x11, 0xFF, 0xD8];
    assert_eq!(find_marker(&data, 0xFF, 0xD8), Some(1));
    assert_eq!(find_marker(&data, 0xFF, 0xD9), None);
}

#[test]
fn find_marker_on_short_input() {
    assert_eq!(find_marker(&[], 0xFF, 0xD8), None);
    assert_eq!(find_marker(&[0xFF], 0xFF, 0xD8), None);
    assert_eq!(find_marker(&[0xFF, 0xD8], 0xFF, 0xD8), Some(0));
}

#[test]
fn find_marker_needs_adjacent_bytes() {
    assert_eq!(find_marker(&[0xFF, 0x00, 0xD8], 0xFF, 0xD8), None);
    assert_eq!(find_marker(&[0xFF, 0xFF, 0xD8], 0xFF, 0xD8), Some(1));
}

#[test]
fn new_accumulator_is_idle() {
    let acc = FrameAccumulator::new(64);
    assert_eq!(acc.capacity(), 64);
    assert_eq!(acc.len(), 0);
    assert!(!acc.in_frame());
}

#[test]
fn whole_frame_in_one_chunk() {
    let frame = sample_frame(&[1, 2, 3, 4]);
    let mut acc = FrameAccumulator::new(64);
    let frames = acc.on_chunk(&frame);
    assert_eq!(frames, vec![frame]);
    assert!(!acc.in_frame());
    assert_eq!(acc.len(), 0);
}

#[test]
fn junk_before_and_after_is_dropped() {
    let frame = sample_frame(&[9, 8, 7]);
    let mut stream = vec![0x12, 0x34, 0xFF, 0x00];
    stream.extend_from_slice(&frame);
    stream.extend_from_slice(&[0x55, 0xD9, 0xFF]);
    let mut acc = FrameAccumulator::new(64);
    let frames = acc.on_chunk(&stream);
    assert_eq!(frames, vec![frame]);
    assert!(!acc.in_frame());
}

#[test]
fn two_frames_back_to_back_in_one_chunk() {
    let first = sample_frame(&[1, 1, 1]);
    let second = sample_frame(&[2, 2]);
    let mut stream = first.clone();
    stream.extend_from_slice(&second);
    let mut acc = FrameAccumulator::new(64);
    let frames = acc.on_chunk(&stream);
    assert_eq!(frames, vec![first, second]);
}

#[test]
fn split_inside_a_frame_at_every_offset() {
    let frame = sample_frame(&[10, 20, 30, 40, 50, 60]);
    let mut whole = FrameAccumulator::new(64);
    let expected = whole.on_chunk(&frame);
    assert_eq!(expected, vec![frame.clone()]);
    // Every cut behind the start-of-image marker, the one between the two
    // bytes of the end-of-image marker included.
    for cut in 2..frame.len() {
        let mut acc = FrameAccumulator::new(64);
        let mut frames = acc.on_chunk(&frame[..cut]);
        frames.extend(acc.on_chunk(&frame[cut..]));
        assert_eq!(frames, expected, "cut at {}", cut);
        assert!(!acc.in_frame());
        assert_eq!(acc.len(), 0);
    }
}

#[test]
fn end_marker_split_across_chunks() {
    let frame = sample_frame(&[7, 7, 7]);
    let cut = frame.len() - 1;
    let mut acc = FrameAccumulator::new(64);
    assert!(acc.on_chunk(&frame[..cut]).is_empty());
    assert!(acc.in_frame());
    assert_eq!(acc.len(), cut);
    let frames = acc.on_chunk(&frame[cut..]);
    assert_eq!(frames, vec![frame]);
}

#[test]
fn start_marker_split_across_chunks_is_missed() {
    let frame = sample_frame(&[7, 7, 7]);
    let mut acc = FrameAccumulator::new(64);
    assert!(acc.on_chunk(&frame[..1]).is_empty());
    assert!(!acc.in_frame());
    assert!(acc.on_chunk(&frame[1..]).is_empty());
    assert!(!acc.in_frame());
}

#[test]
fn start_marker_inside_a_frame_split_across_chunks() {
    // A start-of-image marker inside a frame is data: cutting it changes
    // nothing.
    let frame = sample_frame(&[1, 0xFF, 0xD8, 2]);
    let mut acc = FrameAccumulator::new(64);
    let mut frames = acc.on_chunk(&frame[..4]);
    frames.extend(acc.on_chunk(&frame[4..]));
    assert_eq!(frames, vec![frame]);
}

#[test]
fn frame_without_end_never_flushes() {
    let mut acc = FrameAccumulator::new(16);
    let frames = acc.on_chunk(&[0xFF, 0xD8, 1, 2, 3]);
    assert!(frames.is_empty());
    assert!(acc.in_frame());
    assert_eq!(acc.len(), 5);
}

#[test]
fn frame_that_fills_the_buffer_exactly_is_emitted() {
    let frame = sample_frame(&[1, 2, 3, 4]);
    let mut acc = FrameAccumulator::new(frame.len());
    let frames = acc.on_chunk(&frame);
    assert_eq!(frames, vec![frame]);
}

#[test]
fn oversized_frame_is_dropped_and_the_next_one_found() {
    let capacity = 64;
    let mut stream = vec![0xFF, 0xD8];
    stream.extend(std::iter::repeat(0x11).take(capacity + 1000));
    let good = sample_frame(&[5, 6, 7, 8]);
    stream.extend_from_slice(&good);
    let mut acc = FrameAccumulator::new(capacity);
    let frames = acc.on_chunk(&stream);
    assert_eq!(frames, vec![good]);
    assert!(!acc.in_frame());
    assert_eq!(acc.len(), 0);
    assert_eq!(acc.capacity(), capacity);
}

#[test]
fn oversized_frame_recovery_across_chunks() {
    let capacity = 32;
    let mut stream = vec![0xFF, 0xD8];
    stream.extend(std::iter::repeat(0x22).take(capacity + 1000));
    let good = sample_frame(&[1, 2, 3]);
    stream.extend_from_slice(&good);
    let mut acc = FrameAccumulator::new(capacity);
    let mut frames: Vec<Vec<u8>> = Vec::new();
    for chunk in stream.chunks(7) {
        frames.extend(acc.on_chunk(chunk));
        assert!(acc.len() <= capacity);
        assert_eq!(acc.capacity(), capacity);
    }
    assert_eq!(frames, vec![good]);
    assert!(!acc.in_frame());
    assert_eq!(acc.len(), 0);
}

#[test]
fn drop_skips_one_byte_and_rescans() {
    // The buffer holds four bytes. The frame overflows after them; the
    // byte at the drop point is passed over and the scan goes on behind it.
    let mut acc = FrameAccumulator::new(4);
    let stream = [0xFF, 0xD8, 1, 2, 0xFF, 0xFF, 0xD8, 0xFF, 0xD9];
    let frames = acc.on_chunk(&stream);
    assert_eq!(frames, vec![vec![0xFF, 0xD8, 0xFF, 0xD9]]);
}

#[test]
fn zero_capacity_accumulator_emits_nothing() {
    let mut acc = FrameAccumulator::new(0);
    let frames = acc.on_chunk(&[0xFF, 0xD8, 0xFF, 0xD9, 0xFF, 0xD8, 0xFF, 0xD9]);
    assert!(frames.is_empty());
    assert!(!acc.in_frame());
}

#[test]
fn bytes_behind_the_end_marker_are_rescanned() {
    let first = sample_frame(&[1]);
    let second = sample_frame(&[2]);
    let mut stream = first.clone();
    stream.extend_from_slice(&second[..3]);
    let mut acc = FrameAccumulator::new(64);
    assert_eq!(acc.on_chunk(&stream), vec![first]);
    assert!(acc.in_frame());
    assert_eq!(acc.len(), 3);
    assert_eq!(acc.on_chunk(&second[3..]), vec![second]);
}

#[test]
fn step_reports_offsets_and_frame_length() {
    let mut acc = FrameAccumulator::new(64);
    let stream = [0x00, 0xFF, 0xD8, 0x42, 0xFF, 0xD9, 0x99];
    let r = acc.step(&stream, 0);
    assert_eq!(r.next, 6);
    assert_eq!(r.frame_len, Some(5));
    assert_eq!(acc.frame(5), &[0xFF, 0xD8, 0x42, 0xFF, 0xD9]);
    let r = acc.step(&stream, 6);
    assert_eq!(r.next, 7);
    assert_eq!(r.frame_len, None);
    assert!(!acc.in_frame());
}

#[test]
fn reset_drops_a_partial_frame() {
    let mut acc = FrameAccumulator::new(16);
    acc.on_chunk(&[0xFF, 0xD8, 1, 2]);
    assert!(acc.in_frame());
    acc.reset();
    assert!(!acc.in_frame());
    assert_eq!(acc.len(), 0);
    assert_eq!(acc.capacity(), 16);
    assert!(acc.on_chunk(&[3, 0xFF, 0xD9]).is_empty());
}

#[test]
fn three_chunks_of_any_size_give_the_same_frames() {
    let first = sample_frame(&[1, 2, 3, 4, 5, 6, 7, 8]);
    let second = sample_frame(&[9, 10, 11]);
    let mut stream = vec![0x00, 0x13, 0x37];
    stream.extend_from_slice(&first);
    stream.extend_from_slice(&second);
    let expected = vec![first, second];
    for a in 0..stream.len() {
        for b in a..stream.len() {
            // Leave out the cuts through a start-of-image marker that is
            // being searched for: that marker is missed by rule.
            let cuts_soi = |c: usize| c > 0 && c < stream.len() && stream[c - 1] == 0xFF
                && stream[c] == 0xD8;
            if cuts_soi(a) || cuts_soi(b) {
                continue;
            }
            let mut acc = FrameAccumulator::new(64);
            let mut frames = acc.on_chunk(&stream[..a]);
            frames.extend(acc.on_chunk(&stream[a..b]));
            frames.extend(acc.on_chunk(&stream[b..]));
            assert_eq!(frames, expected, "cuts at {} and {}", a, b);
        }
    }
}

#[test]
fn completed_frame_can_be_worked_on_in_place() {
    let mut acc = FrameAccumulator::new(16);
    let stream = [0xFF, 0xD8, 0x01, 0xFF, 0xD9, 0xFF, 0xD8, 0x02, 0xFF, 0xD9];
    let r = acc.step(&stream, 0);
    assert_eq!(r.frame_len, Some(5));
    let frame = acc.frame_mut(5);
    assert_eq!(frame, &mut [0xFF, 0xD8, 0x01, 0xFF, 0xD9]);
    frame.fill(0);
    assert!(!acc.in_frame());
    assert_eq!(acc.len(), 0);
    let r = acc.step(&stream, r.next);
    assert_eq!(r.frame_len, Some(5));
    assert_eq!(acc.frame(5), &[0xFF, 0xD8, 0x02, 0xFF, 0xD9]);
}

#[test]
fn every_frame_holds_both_markers() {
    let stream = [
        0xD8, 0xFF, 0xD9, 0xFF, 0xD8, 0xD9, 0xFF, 0xFF, 0xD9, 0x00, 0xFF, 0xD8, 0xFF, 0xD9, 0xFF,
    ];
    let mut acc = FrameAccumulator::new(8);
    let frames = acc.on_chunk(&stream);
    assert_eq!(
        frames,
        vec![vec![0xFF, 0xD8, 0xD9, 0xFF, 0xFF, 0xD9], vec![0xFF, 0xD8, 0xFF, 0xD9]]
    );
    for f in &frames {
        assert!(f.len() >= 4 && f.len() <= 8);
        assert_eq!(&f[..2], &[0xFF, 0xD8]);
        assert_eq!(&f[f.len() - 2..], &[0xFF, 0xD9]);
    }
}
