//! The decode protocol: one session per frame drives a block-mode decoder
//! through header parsing, scratch allocation and block-by-block
//! processing. The session decides; its caller performs each call on the
//! decoder and hands back what the decoder answered.

use vstd::prelude::*;
use crate::jpeg::{JpegDecIo, JpegFrameInfo, JPEG_ERR_NO_MEM, SCRATCH_ALIGN};

verus! {

/// Why a frame could not be decoded. `code` is what the decoder returned.
#[derive(Clone, Copy, Debug, PartialEq, Eq, Structural)]
pub enum DecodeError {
    /// The header could not be parsed.
    HeaderParse { code: i32 },
    /// The scratch size or the block count could not be had.
    QueryFailed { code: i32 },
    /// No scratch buffer could be allocated.
    OutOfMemory,
    /// Processing block `index` failed.
    ProcessFailed { index: usize, code: i32 },
}

/// What the session asks its caller to do next.
#[derive(Clone, Copy, Debug, PartialEq, Eq)]
pub enum DecoderCall {
    /// Parse the header of the frame that `io` describes.
    ParseHeader { io: JpegDecIo },
    /// Ask how many bytes one block of output takes.
    GetOutbufLen,
    /// Allocate a zeroed scratch buffer of `size` bytes, aligned to `align`.
    AllocScratch { size: usize, align: usize },
    /// Ask in how many blocks the frame is decoded.
    GetProcessCount,
    /// Decode block `index` into the scratch buffer.
    Process { index: usize },
    /// Hand the first `len` bytes of the scratch buffer to the block's
    /// consumer, as block `index` of `width` by `height` pixels.
    DeliverBlock { index: usize, width: u16, height: u16, len: usize },
    /// Release the scratch buffer.
    FreeScratch,
    /// The session is over, with this result.
    Finish { result: Result<JpegFrameInfo, DecodeError> },
}

/// What the caller hands back after a call.
#[derive(Clone, Copy, Debug, PartialEq, Eq)]
pub enum DecoderReply {
    /// Answers `ParseHeader`.
    Header { ret: i32, width: u16, height: u16 },
    /// Answers `GetOutbufLen`.
    OutbufLen { ret: i32, len: i32 },
    /// Answers `AllocScratch`.
    Scratch { allocated: bool },
    /// Answers `GetProcessCount`.
    ProcessCount { ret: i32, count: i32 },
    /// Answers `Process`.
    Processed { ret: i32, out_size: i32 },
    /// Answers `DeliverBlock`.
    Delivered,
    /// Answers `FreeScratch`.
    Freed,
}

/// A session's state: the call that awaits its reply, the parsed header,
/// the scratch size, whether the scratch buffer is held, the block count,
/// and the failure to report once the scratch buffer is released.
#[derive(Clone, Copy, Debug, PartialEq, Eq)]
pub struct SessionState {
    pub pending: DecoderCall,
    pub info: JpegFrameInfo,
    pub outbuf_len: i32,
    pub scratch_held: bool,
    pub block_count: usize,
    pub failure: Option<DecodeError>,
}

impl DecodeError {
    /// The decoder's code for this error.
    pub open spec fn spec_code(self) -> i32 {
        match self {
            DecodeError::HeaderParse { code } => code,
            DecodeError::QueryFailed { code } => code,
            DecodeError::OutOfMemory => JPEG_ERR_NO_MEM,
            DecodeError::ProcessFailed { index, code } => code,
        }
    }

    /// The decoder's code for this error: what the failed call returned,
    /// or the code for exhausted memory.
    pub fn code(&self) -> (c: i32)
        ensures
            c == self.spec_code(),
    {
        match self {
            DecodeError::HeaderParse { code } => *code,
            DecodeError::QueryFailed { code } => *code,
            DecodeError::OutOfMemory => JPEG_ERR_NO_MEM,
            DecodeError::ProcessFailed { index: _, code } => *code,
        }
    }
}

/// How many bytes of a block are delivered: the count that the decoder
/// reported, kept inside the scratch buffer of `outbuf_len` bytes.
pub open spec fn block_len(out_size: i32, outbuf_len: i32) -> int {
    if out_size <= 0 || outbuf_len <= 0 {
        0
    } else if out_size <= outbuf_len {
        out_size as int
    } else {
        outbuf_len as int
    }
}

/// The height of a block of `len` bytes in a frame `width` pixels wide, at
/// two bytes a pixel: the whole rows that the bytes hold. A frame without
/// width has blocks without height.
pub open spec fn block_height(len: int, width: u16) -> int {
    if width == 0 || len <= 0 {
        0
    } else if len / (2 * width) > u16::MAX {
        u16::MAX as int
    } else {
        len / (2 * width)
    }
}

/// The state in which a session starts on a frame of `frame_len` bytes.
pub open spec fn initial(frame_len: usize) -> SessionState {
    SessionState {
        pending: DecoderCall::ParseHeader {
            io: JpegDecIo {
                inbuf_len: if frame_len <= i32::MAX { frame_len as i32 } else { i32::MAX },
                inbuf_remain: 0,
                out_size: 0,
            },
        },
        info: JpegFrameInfo { width: 0, height: 0 },
        outbuf_len: 0,
        scratch_held: false,
        block_count: 0,
        failure: None,
    }
}

/// The reply answers the call: each call has one kind of reply, and the
/// end of the session has none.
pub open spec fn answers(call: DecoderCall, reply: DecoderReply) -> bool {
    match (call, reply) {
        (DecoderCall::ParseHeader { .. }, DecoderReply::Header { .. }) => true,
        (DecoderCall::GetOutbufLen, DecoderReply::OutbufLen { .. }) => true,
        (DecoderCall::AllocScratch { .. }, DecoderReply::Scratch { .. }) => true,
        (DecoderCall::GetProcessCount, DecoderReply::ProcessCount { .. }) => true,
        (DecoderCall::Process { .. }, DecoderReply::Processed { .. }) => true,
        (DecoderCall::DeliverBlock { .. }, DecoderReply::Delivered) => true,
        (DecoderCall::FreeScratch, DecoderReply::Freed) => true,
        _ => false,
    }
}

/// The session ends with `result`, nothing held.
pub open spec fn finish(s: SessionState, result: Result<JpegFrameInfo, DecodeError>)
    -> SessionState {
    SessionState { pending: DecoderCall::Finish { result }, ..s }
}

/// The scratch buffer is to be released, and `failure` reported after
/// that; without a failure the frame is done.
pub open spec fn release(s: SessionState, failure: Option<DecodeError>) -> SessionState {
    SessionState { pending: DecoderCall::FreeScratch, failure, ..s }
}

/// The state that follows `s` on a reply that answers its pending call.
///
/// A failed header parse or size query ends the session at once, for
/// nothing is held yet. So does a scratch size below zero, or a refused
/// allocation, as exhausted memory. From the allocation on, every way out
/// goes through one release of the scratch buffer: a failed count query, a
/// failed block, which gives up the blocks after it, or the last block
/// delivered. A block count below one means no blocks.
pub open spec fn transition(s: SessionState, reply: DecoderReply) -> SessionState {
    match (s.pending, reply) {
        (DecoderCall::ParseHeader { .. }, DecoderReply::Header { ret, width, height }) => {
            if ret != 0 {
                finish(s, Err(DecodeError::HeaderParse { code: ret }))
            } else {
                SessionState {
                    pending: DecoderCall::GetOutbufLen,
                    info: JpegFrameInfo { width, height },
                    ..s
                }
            }
        },
        (DecoderCall::GetOutbufLen, DecoderReply::OutbufLen { ret, len }) => {
            if ret != 0 {
                finish(s, Err(DecodeError::QueryFailed { code: ret }))
            } else if len < 0 {
                finish(s, Err(DecodeError::OutOfMemory))
            } else {
                SessionState {
                    pending: DecoderCall::AllocScratch { size: len as usize, align: SCRATCH_ALIGN },
                    outbuf_len: len,
                    ..s
                }
            }
        },
        (DecoderCall::AllocScratch { .. }, DecoderReply::Scratch { allocated }) => {
            if !allocated {
                finish(s, Err(DecodeError::OutOfMemory))
            } else {
                SessionState { pending: DecoderCall::GetProcessCount, scratch_held: true, ..s }
            }
        },
        (DecoderCall::GetProcessCount, DecoderReply::ProcessCount { ret, count }) => {
            if ret != 0 {
                release(s, Some(DecodeError::QueryFailed { code: ret }))
            } else if count <= 0 {
                release(s, None)
            } else {
                SessionState {
                    pending: DecoderCall::Process { index: 0 },
                    block_count: count as usize,
                    ..s
                }
            }
        },
        (DecoderCall::Process { index }, DecoderReply::Processed { ret, out_size }) => {
            if ret != 0 {
                release(s, Some(DecodeError::ProcessFailed { index, code: ret }))
            } else {
                SessionState {
                    pending: DecoderCall::DeliverBlock {
                        index,
                        width: s.info.width,
                        height: block_height(block_len(out_size, s.outbuf_len), s.info.width) as u16,
                        len: block_len(out_size, s.outbuf_len) as usize,
                    },
                    ..s
                }
            }
        },
        (DecoderCall::DeliverBlock { index, .. }, DecoderReply::Delivered) => {
            if index + 1 < s.block_count {
                SessionState { pending: DecoderCall::Process { index: (index + 1) as usize }, ..s }
            } else {
                release(s, None)
            }
        },
        (DecoderCall::FreeScratch, DecoderReply::Freed) => {
            SessionState {
                pending: DecoderCall::Finish {
                    result: match s.failure {
                        Some(e) => Err(e),
                        None => Ok(s.info),
                    },
                },
                scratch_held: false,
                ..s
            }
        },
        _ => s,
    }
}

/// The rows counted for a block lie within its bytes: `height` rows of
/// `width` pixels take no more than `len` bytes.
pub proof fn lemma_block_rows_fit(len: int, width: u16)
    requires
        0 <= len,
    ensures
        0 <= block_height(len, width) <= u16::MAX,
        2 * width * block_height(len, width) <= len,
{
    if width > 0 && len > 0 {
        let d = 2 * width;
        let q = len / d;
        assert(q * d <= len && 0 <= q) by (nonlinear_arith)
            requires
                d > 0,
                len >= 0,
                q == len / d,
        ;
        if q > u16::MAX {
            assert(2 * width * (u16::MAX as int) <= q * d) by (nonlinear_arith)
                requires
                    d == 2 * width,
                    q > u16::MAX,
                    d > 0,
            ;
        } else {
            assert(2 * width * q == q * d) by (nonlinear_arith)
                requires
                    d == 2 * width,
            ;
        }
    }
}

/// A block of exactly `rows` whole rows is counted as `rows` rows.
pub proof fn lemma_block_height_exact(width: u16, rows: u16)
    requires
        width > 0,
    ensures
        block_height(2 * width * rows, width) == rows,
{
    let d = 2 * width;
    let len = 2 * width * rows;
    assert(len == rows * d) by (nonlinear_arith)
        requires
            d == 2 * width,
            len == 2 * width * rows,
    ;
    assert((rows * d) / d == rows) by (nonlinear_arith)
        requires
            d > 0,
    ;
    assert(len >= 0) by (nonlinear_arith)
        requires
            len == rows * d,
            d > 0,
            rows >= 0,
    ;
}

/// Every block that a session delivers has the frame's width, an index
/// below the block count, no more bytes than the scratch buffer holds, and
/// no more rows than its bytes hold.
pub open spec fn well_shaped(s: SessionState) -> bool {
    s.outbuf_len >= 0 && match s.pending {
        DecoderCall::Process { index } => index < s.block_count,
        DecoderCall::DeliverBlock { index, width, height, len } => index < s.block_count
            && width == s.info.width && len <= s.outbuf_len && 2 * width * height <= len,
        _ => true,
    }
}

/// One reply keeps a session well shaped.
pub proof fn lemma_well_shaped_step(s: SessionState, reply: DecoderReply)
    requires
        well_shaped(s),
    ensures
        well_shaped(transition(s, reply)),
{
    match (s.pending, reply) {
        (DecoderCall::Process { index }, DecoderReply::Processed { ret, out_size }) => {
            lemma_block_rows_fit(block_len(out_size, s.outbuf_len), s.info.width);
        },
        _ => {},
    }
}

/// The scratch buffer is held exactly from its grant to its release: while
/// the block count is asked for, while blocks are decoded and delivered,
/// and while the release is pending.
pub open spec fn holds_as_expected(s: SessionState) -> bool {
    s.scratch_held == (s.pending is GetProcessCount || s.pending is Process
        || s.pending is DeliverBlock || s.pending is FreeScratch)
}

/// One reply keeps the scratch buffer held as expected.
pub proof fn lemma_holds_step(s: SessionState, reply: DecoderReply)
    requires
        holds_as_expected(s),
    ensures
        holds_as_expected(transition(s, reply)),
{
}

/// One decode session.
pub struct DecodeSession {
    state: SessionState,
}

impl View for DecodeSession {
    type V = SessionState;

    closed spec fn view(&self) -> SessionState {
        self.state
    }
}

/// The whole rows of `width` pixels that `len` bytes hold.
fn rows_of(len: i32, width: u16) -> (rows: u16)
    requires
        len >= 0,
    ensures
        rows == block_height(len as int, width),
{
    if width == 0 || len == 0 {
        0
    } else {
        let row_bytes: u32 = 2 * (width as u32);
        let q: u32 = (len as u32) / row_bytes;
        if q > 0xffff {
            u16::MAX
        } else {
            q as u16
        }
    }
}

/// The delivered byte count for a reported `out_size`.
fn delivered_len(out_size: i32, outbuf_len: i32) -> (len: i32)
    ensures
        len == block_len(out_size, outbuf_len),
        len >= 0,
{
    if out_size <= 0 || outbuf_len <= 0 {
        0
    } else if out_size <= outbuf_len {
        out_size
    } else {
        outbuf_len
    }
}

impl DecodeSession {
    #[verifier::type_invariant]
    spec fn coherent(self) -> bool {
        well_shaped(self.state) && holds_as_expected(self.state)
    }

    /// Starts a session on a frame of `frame_len` bytes. The first call to
    /// make is the header parse.
    pub fn begin(frame_len: usize) -> (session: DecodeSession)
        ensures
            session@ == initial(frame_len),
    {
        DecodeSession {
            state: SessionState {
                pending: DecoderCall::ParseHeader { io: JpegDecIo::for_frame(frame_len) },
                info: JpegFrameInfo { width: 0, height: 0 },
                outbuf_len: 0,
                scratch_held: false,
                block_count: 0,
                failure: None,
            },
        }
    }

    /// The call that awaits its reply. A block to deliver has the frame's
    /// width, rows that lie within its bytes, and bytes that lie within the
    /// scratch buffer, which is then held.
    pub fn pending(&self) -> (call: DecoderCall)
        ensures
            call == self@.pending,
            well_shaped(self@),
            holds_as_expected(self@),
    {
        proof {
            use_type_invariant(self);
        }
        self.state.pending
    }

    /// Whether the scratch buffer is allocated and not yet released.
    pub fn scratch_held(&self) -> (held: bool)
        ensures
            held == self@.scratch_held,
    {
        self.state.scratch_held
    }

    /// The session's result, once it is over.
    pub fn result(&self) -> (r: Option<Result<JpegFrameInfo, DecodeError>>)
        ensures
            r == match self@.pending {
                DecoderCall::Finish { result } => Some(result),
                _ => None,
            },
    {
        match self.state.pending {
            DecoderCall::Finish { result } => Some(result),
            _ => None,
        }
    }

    /// Takes the reply to the pending call and returns the call to make
    /// next. A reply that does not answer the pending call changes nothing
    /// and yields no call.
    pub fn advance(&mut self, reply: DecoderReply) -> (next: Option<DecoderCall>)
        ensures
            final(self)@ == transition(old(self)@, reply),
            next == if answers(old(self)@.pending, reply) {
                Some(final(self)@.pending)
            } else {
                None
            },
            well_shaped(final(self)@),
            holds_as_expected(final(self)@),
    {
        proof {
            use_type_invariant(&*self);
            lemma_well_shaped_step(self.state, reply);
            lemma_holds_step(self.state, reply);
        }
        let s = self.state;
        let after: SessionState = match (s.pending, reply) {
            (DecoderCall::ParseHeader { .. }, DecoderReply::Header { ret, width, height }) => {
                if ret != 0 {
                    SessionState {
                        pending: DecoderCall::Finish {
                            result: Err(DecodeError::HeaderParse { code: ret }),
                        },
                        ..s
                    }
                } else {
                    SessionState {
                        pending: DecoderCall::GetOutbufLen,
                        info: JpegFrameInfo { width, height },
                        ..s
                    }
                }
            },
            (DecoderCall::GetOutbufLen, DecoderReply::OutbufLen { ret, len }) => {
                if ret != 0 {
                    SessionState {
                        pending: DecoderCall::Finish {
                            result: Err(DecodeError::QueryFailed { code: ret }),
                        },
                        ..s
                    }
                } else if len < 0 {
                    SessionState {
                        pending: DecoderCall::Finish { result: Err(DecodeError::OutOfMemory) },
                        ..s
                    }
                } else {
                    SessionState {
                        pending: DecoderCall::AllocScratch {
                            size: len as usize,
                            align: SCRATCH_ALIGN,
                        },
                        outbuf_len: len,
                        ..s
                    }
                }
            },
            (DecoderCall::AllocScratch { .. }, DecoderReply::Scratch { allocated }) => {
                if !allocated {
                    SessionState {
                        pending: DecoderCall::Finish { result: Err(DecodeError::OutOfMemory) },
                        ..s
                    }
                } else {
                    SessionState { pending: DecoderCall::GetProcessCount, scratch_held: true, ..s }
                }
            },
            (DecoderCall::GetProcessCount, DecoderReply::ProcessCount { ret, count }) => {
                if ret != 0 {
                    SessionState {
                        pending: DecoderCall::FreeScratch,
                        failure: Some(DecodeError::QueryFailed { code: ret }),
                        ..s
                    }
                } else if count <= 0 {
                    SessionState { pending: DecoderCall::FreeScratch, failure: None, ..s }
                } else {
                    SessionState {
                        pending: DecoderCall::Process { index: 0 },
                        block_count: count as usize,
                        ..s
                    }
                }
            },
            (DecoderCall::Process { index }, DecoderReply::Processed { ret, out_size }) => {
                if ret != 0 {
                    SessionState {
                        pending: DecoderCall::FreeScratch,
                        failure: Some(DecodeError::ProcessFailed { index, code: ret }),
                        ..s
                    }
                } else {
                    let len: i32 = delivered_len(out_size, s.outbuf_len);
                    SessionState {
                        pending: DecoderCall::DeliverBlock {
                            index,
                            width: s.info.width,
                            height: rows_of(len, s.info.width),
                            len: len as usize,
                        },
                        ..s
                    }
                }
            },
            (DecoderCall::DeliverBlock { index, .. }, DecoderReply::Delivered) => {
                if index < s.block_count && index + 1 < s.block_count {
                    SessionState { pending: DecoderCall::Process { index: index + 1 }, ..s }
                } else {
                    SessionState { pending: DecoderCall::FreeScratch, failure: None, ..s }
                }
            },
            (DecoderCall::FreeScratch, DecoderReply::Freed) => {
                SessionState {
                    pending: DecoderCall::Finish {
                        result: match s.failure {
                            Some(e) => Err(e),
                            None => Ok(s.info),
                        },
                    },
                    scratch_held: false,
                    ..s
                }
            },
            _ => {
                return None;
            },
        };
        self.state = after;
        Some(after.pending)
    }
}

} // verus!
