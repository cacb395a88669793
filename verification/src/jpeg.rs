//! Plain data of the block-mode JPEG decoder: pixel-format codes, the
//! decoder's configuration, its buffer descriptor, and frame dimensions.

use vstd::prelude::*;

verus! {

/// The four-character code of the bytes `a b c d`, `a` in the lowest byte.
pub open spec fn fourcc_value(a: u8, b: u8, c: u8, d: u8) -> int {
    a + 256 * b + 65536 * c + 16777216 * d
}

/// Packs four characters into a pixel-format code, first character lowest.
pub fn fourcc(a: u8, b: u8, c: u8, d: u8) -> (code: u32)
    ensures
        code == fourcc_value(a, b, c, d),
        code == (a as u32) | ((b as u32) << 8) | ((c as u32) << 16) | ((d as u32) << 24),
{
    let code: u32 = (a as u32) | ((b as u32) << 8) | ((c as u32) << 16) | ((d as u32) << 24);
    assert(((a as u32) | ((b as u32) << 8) | ((c as u32) << 16) | ((d as u32) << 24)) == (a as u32)
        + 256 * (b as u32) + 65536 * (c as u32) + 16777216 * (d as u32)) by (bit_vector);
    code
}

/// The code of 16-bit RGB565 output, low byte first: the characters `RGBL`.
pub const JPEG_PIXEL_FORMAT_RGB565_LE: u32 = 0x4C42_4752;

/// The rotation code for no rotation.
pub const JPEG_ROTATE_0D: u32 = 0;

/// The alignment, in bytes, of the scratch buffer that one block is decoded
/// into.
pub const SCRATCH_ALIGN: usize = 16;

/// The code under which a failed scratch allocation is reported.
pub const JPEG_ERR_NO_MEM: i32 = -2;

/// `JPEG_PIXEL_FORMAT_RGB565_LE` is the four-character code `RGBL`.
pub proof fn lemma_rgb565_le_code()
    ensures
        JPEG_PIXEL_FORMAT_RGB565_LE == fourcc_value(0x52, 0x47, 0x42, 0x4C),
{
}

/// A width and a height in pixels; zero in both stands for "none".
#[derive(Clone, Copy, Debug, PartialEq, Eq, Structural)]
pub struct JpegResolution {
    pub width: u16,
    pub height: u16,
}

/// How a decoder is opened.
#[derive(Clone, Copy, Debug, PartialEq, Eq, Structural)]
pub struct JpegDecConfig {
    pub output_type: u32,
    pub scale: JpegResolution,
    pub clipper: JpegResolution,
    pub rotate: u32,
    pub block_enable: bool,
}

/// The byte counts of the decoder's buffer descriptor. The buffers
/// themselves stay with the caller.
#[derive(Clone, Copy, Debug, PartialEq, Eq, Structural)]
pub struct JpegDecIo {
    pub inbuf_len: i32,
    pub inbuf_remain: i32,
    pub out_size: i32,
}

/// The frame dimensions that the decoder reads from a frame's header.
#[derive(Clone, Copy, Debug, PartialEq, Eq, Structural)]
pub struct JpegDecHeaderInfo {
    pub width: u16,
    pub height: u16,
}

/// The dimensions of a decoded frame.
#[derive(Clone, Copy, Debug, PartialEq, Eq, Structural)]
pub struct JpegFrameInfo {
    pub width: u16,
    pub height: u16,
}

impl JpegDecConfig {
    /// The configuration of a block-mode decoder with RGB565 little-endian
    /// output and no scaling, clipping or rotation.
    pub fn block_mode_rgb565() -> (config: JpegDecConfig)
        ensures
            config == (JpegDecConfig {
                output_type: JPEG_PIXEL_FORMAT_RGB565_LE,
                scale: JpegResolution { width: 0, height: 0 },
                clipper: JpegResolution { width: 0, height: 0 },
                rotate: JPEG_ROTATE_0D,
                block_enable: true,
            }),
            config.output_type == fourcc_value(0x52, 0x47, 0x42, 0x4C),
    {
        JpegDecConfig {
            output_type: fourcc(0x52, 0x47, 0x42, 0x4C),
            scale: JpegResolution { width: 0, height: 0 },
            clipper: JpegResolution { width: 0, height: 0 },
            rotate: JPEG_ROTATE_0D,
            block_enable: true,
        }
    }
}

impl JpegDecIo {
    /// The descriptor of an input buffer of `frame_len` bytes of which
    /// nothing is read or written yet. A length beyond what the descriptor
    /// can count is described by the largest count.
    pub fn for_frame(frame_len: usize) -> (io: JpegDecIo)
        ensures
            io.inbuf_remain == 0,
            io.out_size == 0,
            io.inbuf_len == if frame_len <= i32::MAX { frame_len as int } else { i32::MAX as int },
    {
        let inbuf_len: i32 = if frame_len <= 0x7fff_ffff { frame_len as i32 } else { i32::MAX };
        JpegDecIo { inbuf_len, inbuf_remain: 0, out_size: 0 }
    }
}

impl JpegFrameInfo {
    /// The dimensions that a parsed header reports.
    pub fn from_header(header: JpegDecHeaderInfo) -> (info: JpegFrameInfo)
        ensures
            info.width == header.width,
            info.height == header.height,
    {
        JpegFrameInfo { width: header.width, height: header.height }
    }
}

} // verus!
