use rumble_rs::shim::{recover, ShimLayout};
use rumble_rs::words::{get_word, put_word, word_size};

const W: usize = std::mem::size_of::<usize>();
const META: usize = 2 * W;

#[test]
fn word_is_as_wide_as_an_address() {
    assert_eq!(word_size(), W);
}

#[test]
fn word_is_stored_low_byte_first() {
    let mut buf = vec![0xAAu8; W + 4];
    put_word(&mut buf, 2, 0x0102_0304);
    assert_eq!(&buf[..2], &[0xAA, 0xAA]);
    assert_eq!(&buf[2..6], &[0x04, 0x03, 0x02, 0x01]);
    assert!(buf[6..2 + W].iter().all(|&b| b == 0));
    assert_eq!(&buf[2 + W..], &[0xAA, 0xAA]);
    assert_eq!(get_word(&buf, 2), 0x0102_0304);
}

#[test]
fn word_round_trip_at_the_limits() {
    for v in [0usize, 1, 255, 256, 0xDEAD_BEEF, usize::MAX - 1, usize::MAX] {
        let mut buf = vec![0u8; W];
        put_word(&mut buf, 0, v);
        assert_eq!(get_word(&buf, 0), v);
        assert_eq!(buf, v.to_le_bytes().to_vec());
    }
}

#[test]
fn plan_adds_header_and_slack() {
    let l = ShimLayout::plan(3, 100, 16).unwrap();
    assert_eq!(l.payload(), 300);
    assert_eq!(l.align(), 16);
    assert_eq!(l.total(), 300 + META + 16);
    let l = ShimLayout::plan(1, 1, 1).unwrap();
    assert_eq!(l.total(), 1 + META + 1);
}

#[test]
fn plan_refuses_no_items_no_alignment_and_overflow() {
    assert!(ShimLayout::plan(0, 100, 16).is_none());
    assert!(ShimLayout::plan(1, 100, 0).is_none());
    assert!(ShimLayout::plan(usize::MAX, 2, 16).is_none());
    assert!(ShimLayout::plan(1, usize::MAX, 1).is_none());
    assert!(ShimLayout::plan(1, usize::MAX - META, 1).is_none());
    assert!(ShimLayout::plan(1, usize::MAX - META - 1, 1).is_some());
}

#[test]
fn plan_with_items_of_no_size() {
    let l = ShimLayout::plan(5, 0, 4).unwrap();
    assert_eq!(l.payload(), 0);
    assert_eq!(l.total(), META + 4);
}

#[test]
fn placement_is_aligned_for_every_block_address() {
    for &align in &[1usize, 2, 4, 8, 16, 32, 3, 24] {
        for &(count, size) in &[(1usize, 1usize), (4, 25), (16, 16), (1, 0)] {
            let l = ShimLayout::plan(count, size, align).unwrap();
            for raw in 0x1000usize..0x1000 + 40 {
                let mut block = vec![0x5Au8; l.total()];
                let off = l.place(&mut block, raw).unwrap();
                let user = raw + off;
                assert_eq!(user % align, 0);
                assert!(off >= META);
                assert!(off < META + align);
                assert!(off + l.payload() < l.total());
                // The least aligned address that leaves room for the words.
                assert!(user - align < raw + META);
                // Block address nearest to the user, size before it.
                assert_eq!(&block[off - W..off], &raw.to_le_bytes()[..]);
                assert_eq!(&block[off - META..off - W], &l.total().to_le_bytes()[..]);
                assert_eq!(recover(&block[off - META..off]), Some((raw, l.total())));
                // Zero everywhere else.
                assert!(block[..off - META].iter().all(|&b| b == 0));
                assert!(block[off..].iter().all(|&b| b == 0));
            }
        }
    }
}

#[test]
fn placement_exact_offsets() {
    let l = ShimLayout::plan(1, 64, 16).unwrap();
    let mut block = vec![0u8; l.total()];
    // 0x1000 + META is a multiple of 16 where words take eight bytes.
    let off = l.place(&mut block, 0x1000).unwrap();
    assert_eq!(off, (0x1000 + META + 15) / 16 * 16 - 0x1000);
    let off = l.place(&mut block, 0x1001).unwrap();
    assert_eq!(off, (0x1001 + META + 15) / 16 * 16 - 0x1001);
    let l = ShimLayout::plan(1, 64, 1).unwrap();
    let mut block = vec![0u8; l.total()];
    assert_eq!(l.place(&mut block, 0x1003), Some(META));
}

#[test]
fn place_refuses_a_block_of_another_size() {
    let l = ShimLayout::plan(1, 64, 16).unwrap();
    let mut block = vec![0x77u8; l.total() - 1];
    assert_eq!(l.place(&mut block, 0x1000), None);
    assert!(block.iter().all(|&b| b == 0x77));
    let mut block = vec![0x77u8; l.total() + 1];
    assert_eq!(l.place(&mut block, 0x1000), None);
    assert!(block.iter().all(|&b| b == 0x77));
}

#[test]
fn place_refuses_a_block_beyond_the_address_space() {
    let l = ShimLayout::plan(1, 64, 16).unwrap();
    let mut block = vec![0x77u8; l.total()];
    assert_eq!(l.place(&mut block, usize::MAX - 10), None);
    assert!(block.iter().all(|&b| b == 0x77));
    assert!(l.place(&mut block, usize::MAX - l.total()).is_some());
}

#[test]
fn recover_needs_exactly_two_words() {
    assert_eq!(recover(&vec![0u8; META - 1]), None);
    assert_eq!(recover(&vec![0u8; META + 1]), None);
    assert_eq!(recover(&[]), None);
    assert_eq!(recover(&vec![0u8; META]), Some((0, 0)));
}

#[test]
fn neighbouring_blocks_keep_their_headers() {
    // Two blocks side by side in one arena: setting up and reading one
    // leaves the other as it was.
    let l1 = ShimLayout::plan(2, 10, 4).unwrap();
    let l2 = ShimLayout::plan(1, 7, 16).unwrap();
    let mut arena = vec![0xEEu8; l1.total() + l2.total()];
    let base = 0x2000_0000usize;
    let (b1, b2) = arena.split_at_mut(l1.total());
    let off1 = l1.place(b1, base).unwrap();
    let off2 = l2.place(b2, base + l1.total()).unwrap();
    b1[off1..off1 + l1.payload()].fill(0xFF);
    b2[off2..off2 + l2.payload()].fill(0xFF);
    assert_eq!(recover(&b1[off1 - META..off1]), Some((base, l1.total())));
    assert_eq!(recover(&b2[off2 - META..off2]), Some((base + l1.total(), l2.total())));
}
