use rumble_rs::driver::{
    LinkAction, LinkEvent, LinkState, Pipeline, BACKOFF_MILLIS, DISPLAY_HEIGHT, FRAME_CAPACITY,
    READ_CHUNK, SOCKET_TIMEOUT_SECS,
};
use rumble_rs::render::{read_u16_le, render, Blit};

fn block_bytes(width: u16, height: u16) -> Vec<u8> {
    let mut bytes = Vec::new();
    for k in 0..(width as u32 * height as u32) {
        let v = (k as u16).wrapping_mul(257).wrapping_add(3);
        bytes.extend_from_slice(&v.to_le_bytes());
    }
    bytes
}

#[test]
fn read_u16_le_is_low_byte_first() {
    let bytes = [0x34, 0x12, 0xFF, 0x00, 0x00, 0xFF];
    assert_eq!(read_u16_le(&bytes, 0), Some(0x1234));
    assert_eq!(read_u16_le(&bytes, 1), Some(0x00FF));
    assert_eq!(read_u16_le(&bytes, 2), Some(0xFF00));
}

#[test]
fn read_u16_le_checks_bounds() {
    let bytes = [0x34, 0x12, 0xFF];
    assert_eq!(read_u16_le(&bytes, 1), None);
    assert_eq!(read_u16_le(&bytes, usize::MAX), None);
    assert_eq!(read_u16_le(&[], 0), None);
    assert_eq!(read_u16_le(&[1], 0), None);
}

#[test]
fn first_block_starts_at_the_top() {
    let bytes = block_bytes(4, 2);
    let blit = render(0, 4, 2, &bytes, 170).unwrap();
    assert_eq!((blit.x0, blit.y0, blit.x1, blit.y1), (0, 0, 3, 1));
    let expected: Vec<u16> =
        (0..8u16).map(|k| k.wrapping_mul(257).wrapping_add(3)).collect();
    assert_eq!(blit.pixels, expected);
}

#[test]
fn block_row_is_index_times_height() {
    let bytes = block_bytes(320, 16);
    let blit = render(3, 320, 16, &bytes, 170).unwrap();
    assert_eq!((blit.x0, blit.y0, blit.x1, blit.y1), (0, 48, 319, 63));
    assert_eq!(blit.pixels.len(), 320 * 16);
}

#[test]
fn last_block_is_clipped_at_the_bottom_edge() {
    let bytes = block_bytes(320, 16);
    let blit = render(10, 320, 16, &bytes, 170).unwrap();
    assert_eq!((blit.y0, blit.y1), (160, 169));
    assert_eq!(blit.pixels.len(), 320 * 10);
    assert_eq!(blit.pixels[0], 3);
    assert_eq!(blit.pixels[320 * 10 - 1], ((320u32 * 10 - 1) as u16).wrapping_mul(257).wrapping_add(3));
}

#[test]
fn block_below_the_display_is_not_drawn() {
    let bytes = block_bytes(320, 16);
    assert_eq!(render(11, 320, 16, &bytes, 170), None);
    assert_eq!(render(usize::MAX, 320, 16, &bytes, 170), None);
    let bytes = block_bytes(4, 10);
    assert_eq!(render(17, 4, 10, &bytes, 170), None);
    assert!(render(16, 4, 10, &bytes, 170).is_some());
}

#[test]
fn block_without_size_is_not_drawn() {
    assert_eq!(render(0, 0, 16, &[0u8; 64], 170), None);
    assert_eq!(render(0, 16, 0, &[0u8; 64], 170), None);
    assert_eq!(render(0, 16, 16, &[0u8; 64], 0), None);
}

#[test]
fn block_with_too_few_bytes_is_not_drawn() {
    let mut bytes = block_bytes(4, 2);
    bytes.pop();
    assert_eq!(render(0, 4, 2, &bytes, 170), None);
    // Only the visible rows are needed.
    let bytes = block_bytes(4, 1);
    let blit = render(1, 4, 2, &bytes, 3).unwrap();
    assert_eq!((blit.y0, blit.y1), (2, 2));
    assert_eq!(blit.pixels.len(), 4);
}

#[test]
fn rendered_rows_add_up_to_the_smaller_height() {
    // Frames of whole blocks, against displays that are shorter, equal and
    // taller.
    for &(blocks, height, display) in
        &[(15usize, 16u16, 170u16), (10, 16, 160), (10, 16, 170), (3, 8, 1), (4, 5, 19)]
    {
        let bytes = block_bytes(8, height);
        let mut rows: u32 = 0;
        for index in 0..blocks {
            if let Some(Blit { y0, y1, .. }) = render(index, 8, height, &bytes, display) {
                assert!(y1 < display);
                assert!(y0 <= y1);
                rows += (y1 - y0) as u32 + 1;
            }
        }
        let frame_height = blocks as u32 * height as u32;
        assert_eq!(rows, frame_height.min(display as u32));
    }
}

#[test]
fn pipeline_constants() {
    assert_eq!(BACKOFF_MILLIS, 1000);
    assert_eq!(SOCKET_TIMEOUT_SECS, 10);
    assert_eq!(READ_CHUNK, 4096);
    assert_eq!(FRAME_CAPACITY, 30720);
    assert_eq!(DISPLAY_HEIGHT, 170);
}

#[test]
fn pipeline_connects_after_the_backoff() {
    let mut p = Pipeline::new(64);
    assert_eq!(p.link(), LinkState::Disconnected);
    assert_eq!(p.next_action(), LinkAction::Wait { millis: 1000 });
    assert!(!p.on_event(LinkEvent::BackoffElapsed));
    assert_eq!(p.link(), LinkState::Connecting);
    assert_eq!(p.next_action(), LinkAction::Connect { timeout_secs: 10 });
    assert!(!p.on_event(LinkEvent::Connected));
    assert_eq!(p.link(), LinkState::Streaming);
    assert_eq!(p.next_action(), LinkAction::Read { max_len: 4096 });
    assert!(!p.on_event(LinkEvent::Received { len: 100 }));
    assert_eq!(p.link(), LinkState::Streaming);
}

#[test]
fn pipeline_backs_off_after_a_failed_connect() {
    let mut p = Pipeline::new(64);
    p.on_event(LinkEvent::BackoffElapsed);
    assert!(!p.on_event(LinkEvent::ConnectFailed));
    assert_eq!(p.link(), LinkState::Disconnected);
    assert_eq!(p.next_action(), LinkAction::Wait { millis: 1000 });
}

#[test]
fn pipeline_drops_the_partial_frame_when_the_stream_is_lost() {
    for event in [LinkEvent::Received { len: 0 }, LinkEvent::ReadFailed] {
        let mut p = Pipeline::new(64);
        p.on_event(LinkEvent::BackoffElapsed);
        p.on_event(LinkEvent::Connected);
        assert!(p.on_chunk(&[0xFF, 0xD8, 1, 2, 3]).is_empty());
        assert!(p.on_event(event));
        assert_eq!(p.link(), LinkState::Disconnected);
        // The tail of the old frame is not taken for a frame.
        p.on_event(LinkEvent::BackoffElapsed);
        p.on_event(LinkEvent::Connected);
        assert!(p.on_chunk(&[4, 5, 0xFF, 0xD9]).is_empty());
        assert_eq!(p.on_chunk(&[0xFF, 0xD8, 0xFF, 0xD9]), vec![vec![0xFF, 0xD8, 0xFF, 0xD9]]);
    }
}

#[test]
fn pipeline_ignores_events_it_does_not_wait_for() {
    let mut p = Pipeline::new(64);
    assert!(!p.on_event(LinkEvent::Connected));
    assert!(!p.on_event(LinkEvent::ReadFailed));
    assert!(!p.on_event(LinkEvent::Received { len: 0 }));
    assert_eq!(p.link(), LinkState::Disconnected);
    p.on_event(LinkEvent::BackoffElapsed);
    assert!(!p.on_event(LinkEvent::BackoffElapsed));
    assert!(!p.on_event(LinkEvent::ReadFailed));
    assert_eq!(p.link(), LinkState::Connecting);
    p.on_event(LinkEvent::Connected);
    assert!(!p.on_event(LinkEvent::Connected));
    assert!(!p.on_event(LinkEvent::ConnectFailed));
    assert_eq!(p.link(), LinkState::Streaming);
}

#[test]
fn pipeline_feeds_step_by_step() {
    let mut p = Pipeline::new(64);
    let stream = [0x00, 0xFF, 0xD8, 0x42, 0xFF, 0xD9, 0xFF, 0xD8];
    let r = p.feed(&stream, 0);
    assert_eq!((r.next, r.frame_len), (6, Some(5)));
    assert_eq!(p.frame(5), &[0xFF, 0xD8, 0x42, 0xFF, 0xD9]);
    assert!(!p.in_frame());
    assert_eq!(p.capacity(), 64);
    p.frame_mut(5)[2] = 0x43;
    assert_eq!(p.frame(5), &[0xFF, 0xD8, 0x43, 0xFF, 0xD9]);
    assert!(!p.in_frame());
    let r = p.feed(&stream, 6);
    assert_eq!((r.next, r.frame_len), (8, None));
    assert!(p.in_frame());
}
