//! Block rendering: where a decoded block goes on the display, how much of
//! it shows above the display's bottom edge, and its pixels.

use vstd::prelude::*;

verus! {

/// The display row at which block `index` starts, every block before it
/// having `height` rows.
pub open spec fn start_row(index: int, height: u16) -> int {
    index * height
}

/// The rows of block `index` that lie above the bottom edge of a display
/// of `display_height` rows: none where the block starts at or below the
/// edge, else its rows as far as the edge.
pub open spec fn visible_rows(index: int, height: u16, display_height: u16) -> int {
    if start_row(index, height) >= display_height {
        0
    } else if height <= display_height - start_row(index, height) {
        height as int
    } else {
        display_height - start_row(index, height)
    }
}

/// The 16-bit sample that stands `k` samples into `bytes`, low byte first.
pub open spec fn sample(bytes: Seq<u8>, k: int) -> u16 {
    (bytes[2 * k] as int + 256 * bytes[2 * k + 1] as int) as u16
}

/// The first `count` samples of `bytes`.
pub open spec fn samples(bytes: Seq<u8>, count: int) -> Seq<u16> {
    Seq::new(count as nat, |k: int| sample(bytes, k))
}

/// A block has something to show: it has width, at least one visible row,
/// and `bytes_len` bytes hold its visible pixels at two bytes each.
pub open spec fn drawable(
    index: int,
    width: u16,
    height: u16,
    bytes_len: int,
    display_height: u16,
) -> bool {
    width > 0 && visible_rows(index, height, display_height) > 0 && 2 * (width * visible_rows(
        index,
        height,
        display_height,
    )) <= bytes_len
}

/// The rows that the first `blocks` blocks of a frame show, each block
/// having `height` rows.
pub open spec fn rows_rendered(blocks: nat, height: u16, display_height: u16) -> int
    decreases blocks,
{
    if blocks == 0 {
        0
    } else {
        rows_rendered((blocks - 1) as nat, height, display_height) + visible_rows(
            blocks - 1,
            height,
            display_height,
        )
    }
}

/// No block reaches the bottom edge: the rows that show end above it.
pub proof fn lemma_visible_rows_clipped(index: int, height: u16, display_height: u16)
    requires
        0 <= index,
    ensures
        0 <= visible_rows(index, height, display_height) <= height,
        visible_rows(index, height, display_height) > 0 ==> start_row(index, height)
            + visible_rows(index, height, display_height) <= display_height,
        start_row(index, height) >= 0,
{
    assert(index * height >= 0) by (nonlinear_arith)
        requires
            index >= 0,
            height >= 0,
    ;
}

/// Clipping. A frame of `blocks` blocks of `height` rows each shows, on a
/// display of `display_height` rows, its own rows or the display's,
/// whichever are fewer.
pub proof fn lemma_rows_rendered(blocks: nat, height: u16, display_height: u16)
    ensures
        rows_rendered(blocks, height, display_height) == if blocks * height <= display_height {
            blocks * height
        } else {
            display_height as int
        },
    decreases blocks,
{
    if blocks > 0 {
        let before = (blocks - 1) as nat;
        lemma_rows_rendered(before, height, display_height);
        assert(blocks * height == before * height + height) by (nonlinear_arith)
            requires
                blocks == before + 1,
        ;
        assert(before * height >= 0) by (nonlinear_arith)
            requires
                before >= 0,
                height >= 0,
        ;
    } else {
        assert(blocks * height == 0) by (nonlinear_arith)
            requires
                blocks == 0,
        ;
    }
}

/// A rectangle of the display, corners included, and the RGB565 pixels to
/// put there, row by row.
#[derive(Debug, PartialEq, Eq)]
pub struct Blit {
    pub x0: u16,
    pub y0: u16,
    pub x1: u16,
    pub y1: u16,
    pub pixels: Vec<u16>,
}

/// Reads the 16-bit sample that stands `k` samples into `bytes`, low byte
/// first, if `bytes` holds it.
pub fn read_u16_le(bytes: &[u8], k: usize) -> (value: Option<u16>)
    ensures
        value.is_some() == (2 * k + 1 < bytes@.len()),
        value.is_some() ==> value.unwrap() == sample(bytes@, k as int),
{
    let n: usize = bytes.len();
    if n < 2 || k > (n - 2) / 2 {
        return None;
    }
    let lo: u8 = bytes[2 * k];
    let hi: u8 = bytes[2 * k + 1];
    Some((lo as u16) + 256 * (hi as u16))
}

/// Maps block `block_index` to its rectangle of the display and reads its
/// visible pixels. The rectangle starts at the left edge, spans the
/// block's width, and ends above the display's bottom edge. There is
/// nothing to draw for a block below that edge, for one without width or
/// rows, and for one whose bytes do not hold its visible pixels.
pub fn render(
    block_index: usize,
    block_width: u16,
    block_height: u16,
    pixel_bytes: &[u8],
    display_height: u16,
) -> (blit: Option<Blit>)
    ensures
        blit.is_some() == drawable(
            block_index as int,
            block_width,
            block_height,
            pixel_bytes@.len() as int,
            display_height,
        ),
        match blit {
            Some(b) => {
                &&& b.x0 == 0
                &&& b.x1 == block_width - 1
                &&& b.y0 == start_row(block_index as int, block_height)
                &&& b.y1 == b.y0 + visible_rows(block_index as int, block_height, display_height)
                    - 1
                &&& b.y1 < display_height
                &&& b.pixels@ == samples(
                    pixel_bytes@,
                    block_width * visible_rows(block_index as int, block_height, display_height),
                )
            },
            None => true,
        },
{
    let ghost index = block_index as int;
    if block_width == 0 || block_height == 0 {
        assert(start_row(index, 0) == 0) by (nonlinear_arith);
        return None;
    }
    if block_index >= display_height as usize {
        assert(start_row(index, block_height) >= display_height) by (nonlinear_arith)
            requires
                index >= display_height,
                block_height >= 1,
        ;
        return None;
    }
    assert(start_row(index, block_height) <= 0xffff * 0xffff) by (nonlinear_arith)
        requires
            0 <= index < 0xffff,
            block_height <= 0xffff,
    ;
    let start: u32 = (block_index as u32) * (block_height as u32);
    if start >= display_height as u32 {
        return None;
    }
    let room: u32 = display_height as u32 - start;
    let rows: u32 = if (block_height as u32) <= room { block_height as u32 } else { room };
    assert(block_width * rows <= 0xffff * 0xffff && block_width * rows >= 1) by (nonlinear_arith)
        requires
            1 <= block_width <= 0xffff,
            1 <= rows <= 0xffff,
    ;
    let count: u32 = (block_width as u32) * rows;
    let n: usize = pixel_bytes.len();
    if n / 2 < count as usize {
        return None;
    }
    let total: usize = count as usize;
    let mut pixels: Vec<u16> = Vec::new();
    let mut k: usize = 0;
    while k < total
        invariant
            k <= total,
            2 * total <= n,
            n == pixel_bytes@.len(),
            pixels@.len() == k,
            forall|j: int| 0 <= j < k ==> pixels@[j] == sample(pixel_bytes@, j),
        decreases total - k,
    {
        let lo: u8 = pixel_bytes[2 * k];
        let hi: u8 = pixel_bytes[2 * k + 1];
        pixels.push((lo as u16) + 256 * (hi as u16));
        k = k + 1;
    }
    assert(pixels@ =~= samples(pixel_bytes@, total as int));
    Some(
        Blit {
            x0: 0,
            y0: start as u16,
            x1: block_width - 1,
            y1: (start + rows - 1) as u16,
            pixels,
        },
    )
}

} // verus!
