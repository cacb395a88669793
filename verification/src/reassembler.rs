//! Frame reassembly: cuts an arbitrarily chunked byte stream into complete
//! JPEG frames, delimited by the start-of-image and end-of-image markers,
//! inside a buffer of fixed capacity.

use vstd::prelude::*;
use vstd::slice::slice_subrange;
use vstd::slice::slice_to_vec;
use crate::marker::{
    find_marker, first_marker, lemma_first_marker_cases, lemma_first_marker_is, marker_at, EOI,
    MARKER_PREFIX, SOI,
};

verus! {

/// What the accumulator stands for: its fixed capacity, whether a frame is
/// being collected, and the bytes collected so far.
pub struct AccState {
    pub capacity: nat,
    pub in_frame: bool,
    pub data: Seq<u8>,
}

/// The state between frames: nothing collected.
pub open spec fn idle(capacity: nat) -> AccState {
    AccState { capacity, in_frame: false, data: Seq::empty() }
}

/// A state is valid when the collected bytes fit the capacity and nothing is
/// held outside a frame.
pub open spec fn valid(s: AccState) -> bool {
    s.data.len() <= s.capacity && (!s.in_frame ==> s.data.len() == 0)
}

/// The bytes begin as a frame does: with the start-of-image marker, as far
/// as they go.
pub open spec fn soi_prefix(data: Seq<u8>) -> bool {
    (data.len() >= 1 ==> data[0] == MARKER_PREFIX) && (data.len() >= 2 ==> data[1] == SOI)
}

/// In a frame, what is collected starts at a start-of-image marker: at
/// least its first byte is there, and its second too unless the buffer
/// holds one byte only.
pub open spec fn framed(s: AccState) -> bool {
    s.in_frame ==> s.data.len() >= 1 && soi_prefix(s.data) && (s.data.len() == 1 ==> s.capacity
        == 1)
}

/// What one step over the unread input does: the state it leaves, how many
/// input bytes it uses up, and the frame it completes, if any.
pub struct StepOutcome {
    pub state: AccState,
    pub consumed: int,
    pub frame: Option<Seq<u8>>,
}

/// One step in a frame: `skipped` input bytes were passed over before the
/// frame's bytes `rest`, and `s` holds what was collected before.
///
/// With no room left the frame is dropped and one input byte passed over.
/// Otherwise as many bytes as fit are appended, and the end-of-image marker
/// is looked for from one byte before the old end, so that a marker lying
/// across the old end is seen. A frame found ends right after its marker;
/// input bytes appended beyond that are given back.
pub open spec fn collect(s: AccState, rest: Seq<u8>, skipped: int) -> StepOutcome {
    let space = s.capacity - s.data.len();
    if space <= 0 {
        StepOutcome { state: idle(s.capacity), consumed: skipped + 1, frame: None }
    } else {
        let count = if rest.len() <= space { rest.len() as int } else { space };
        let grown = s.data + rest.take(count);
        let scan_start = if s.data.len() > 0 { s.data.len() - 1 } else { 0 };
        match first_marker(grown.skip(scan_start), MARKER_PREFIX, EOI) {
            Some(e) => {
                let end = scan_start + e + 2;
                StepOutcome {
                    state: idle(s.capacity),
                    consumed: skipped + (end - s.data.len()),
                    frame: Some(grown.take(end)),
                }
            },
            None => StepOutcome {
                state: AccState { capacity: s.capacity, in_frame: true, data: grown },
                consumed: skipped + count,
                frame: None,
            },
        }
    }
}

/// One step over the unread input `rest`, which is not empty.
///
/// Outside a frame the first start-of-image marker is looked for. Without
/// one, all of `rest` is dropped and the state stays as it is. With one, a
/// frame starts at the marker.
pub open spec fn step(s: AccState, rest: Seq<u8>) -> StepOutcome {
    if s.in_frame {
        collect(s, rest, 0)
    } else {
        match first_marker(rest, MARKER_PREFIX, SOI) {
            Some(i) => collect(
                AccState { capacity: s.capacity, in_frame: true, data: Seq::empty() },
                rest.skip(i),
                i,
            ),
            None => StepOutcome { state: s, consumed: rest.len() as int, frame: None },
        }
    }
}

/// What feeding a whole chunk does: the state after it and the frames
/// completed on the way, in order.
pub struct RunOutcome {
    pub state: AccState,
    pub frames: Seq<Seq<u8>>,
}

/// Steps over `rest` until it is used up.
pub open spec fn run(s: AccState, rest: Seq<u8>) -> RunOutcome
    decreases rest.len(),
{
    if rest.len() == 0 {
        RunOutcome { state: s, frames: Seq::empty() }
    } else {
        let o = step(s, rest);
        if 1 <= o.consumed <= rest.len() {
            let tail = run(o.state, rest.skip(o.consumed));
            RunOutcome {
                state: tail.state,
                frames: match o.frame {
                    Some(f) => seq![f] + tail.frames,
                    None => tail.frames,
                },
            }
        } else {
            RunOutcome { state: o.state, frames: Seq::empty() }
        }
    }
}

/// Every step uses up at least one input byte and no more than there are,
/// leaves a valid state of the same capacity, and completes only frames that
/// fit the capacity, start with the start-of-image marker when the state was
/// a frame's start, and end with the end-of-image marker.
pub proof fn lemma_collect_bounds(s: AccState, rest: Seq<u8>, skipped: int)
    requires
        valid(s),
        rest.len() > 0,
    ensures
        skipped + 1 <= collect(s, rest, skipped).consumed <= skipped + rest.len(),
        valid(collect(s, rest, skipped).state),
        collect(s, rest, skipped).state.capacity == s.capacity,
        match collect(s, rest, skipped).frame {
            Some(f) => 2 <= f.len() <= s.capacity
                && f[f.len() - 2] == MARKER_PREFIX && f[f.len() - 1] == EOI
                && !collect(s, rest, skipped).state.in_frame,
            None => true,
        },
{
    let space = s.capacity - s.data.len();
    if space > 0 {
        let count = if rest.len() <= space { rest.len() as int } else { space };
        let grown = s.data + rest.take(count);
        let scan_start = if s.data.len() > 0 { s.data.len() - 1 } else { 0 };
        let window = grown.skip(scan_start);
        lemma_first_marker_cases(window, MARKER_PREFIX, EOI);
        match first_marker(window, MARKER_PREFIX, EOI) {
            Some(e) => {
                assert(marker_at(window, e, MARKER_PREFIX, EOI));
                let end = scan_start + e + 2;
                let f = grown.take(end);
                assert(f[f.len() - 2] == window[e]);
                assert(f[f.len() - 1] == window[e + 1]);
            },
            None => {},
        }
    }
}

/// The bounds of `lemma_collect_bounds`, for a whole step.
pub proof fn lemma_step_bounds(s: AccState, rest: Seq<u8>)
    requires
        valid(s),
        rest.len() > 0,
    ensures
        1 <= step(s, rest).consumed <= rest.len(),
        valid(step(s, rest).state),
        step(s, rest).state.capacity == s.capacity,
        match step(s, rest).frame {
            Some(f) => 2 <= f.len() <= s.capacity
                && f[f.len() - 2] == MARKER_PREFIX && f[f.len() - 1] == EOI
                && !step(s, rest).state.in_frame,
            None => true,
        },
{
    if s.in_frame {
        lemma_collect_bounds(s, rest, 0);
    } else {
        lemma_first_marker_cases(rest, MARKER_PREFIX, SOI);
        match first_marker(rest, MARKER_PREFIX, SOI) {
            Some(i) => {
                assert(marker_at(rest, i, MARKER_PREFIX, SOI));
                let fresh = AccState { capacity: s.capacity, in_frame: true, data: Seq::empty() };
                lemma_collect_bounds(fresh, rest.skip(i), i);
            },
            None => {},
        }
    }
}

/// A step in a frame keeps the frame's start: what is collected after it
/// starts at a start-of-image marker, and so does a frame that it
/// completes, which therefore holds both markers in full.
pub proof fn lemma_collect_framed(s: AccState, rest: Seq<u8>, skipped: int)
    requires
        valid(s),
        s.in_frame,
        rest.len() > 0,
        s.data.len() == 0 ==> rest.len() >= 2 && soi_prefix(rest),
        s.data.len() == 1 ==> s.capacity == 1,
        soi_prefix(s.data),
    ensures
        framed(collect(s, rest, skipped).state),
        match collect(s, rest, skipped).frame {
            Some(f) => f.len() >= 4 && f[0] == MARKER_PREFIX && f[1] == SOI,
            None => true,
        },
{
    let space = s.capacity - s.data.len();
    if space > 0 {
        let count = if rest.len() <= space { rest.len() as int } else { space };
        let grown = s.data + rest.take(count);
        let scan_start = if s.data.len() > 0 { s.data.len() - 1 } else { 0 };
        let window = grown.skip(scan_start);
        assert(grown[0] == MARKER_PREFIX);
        if grown.len() >= 2 {
            assert(grown[1] == SOI);
        }
        lemma_first_marker_cases(window, MARKER_PREFIX, EOI);
        match first_marker(window, MARKER_PREFIX, EOI) {
            Some(e) => {
                assert(marker_at(window, e, MARKER_PREFIX, EOI));
                let at = scan_start + e;
                assert(grown[at] == window[e]);
                assert(grown[at + 1] == window[e + 1]);
                let f = grown.take(at + 2);
                assert(f[0] == grown[0]);
                assert(f[1] == grown[1]);
            },
            None => {},
        }
    }
}

/// A step keeps the frame's start, from a state that has it.
pub proof fn lemma_step_framed(s: AccState, rest: Seq<u8>)
    requires
        valid(s),
        framed(s),
        rest.len() > 0,
    ensures
        framed(step(s, rest).state),
        match step(s, rest).frame {
            Some(f) => f.len() >= 4 && f[0] == MARKER_PREFIX && f[1] == SOI,
            None => true,
        },
{
    if s.in_frame {
        lemma_collect_framed(s, rest, 0);
    } else {
        lemma_first_marker_cases(rest, MARKER_PREFIX, SOI);
        match first_marker(rest, MARKER_PREFIX, SOI) {
            Some(i) => {
                assert(marker_at(rest, i, MARKER_PREFIX, SOI));
                let fresh = AccState { capacity: s.capacity, in_frame: true, data: Seq::empty() };
                let input = rest.skip(i);
                assert(input[0] == rest[i]);
                assert(input[1] == rest[i + 1]);
                lemma_collect_framed(fresh, input, i);
            },
            None => {},
        }
    }
}

/// The byte sequences that a list of frames holds.
pub open spec fn frame_views(frames: Seq<Vec<u8>>) -> Seq<Seq<u8>> {
    frames.map_values(|f: Vec<u8>| f@)
}

/// Unfolds `run` once on input that is not empty.
pub proof fn lemma_run_unfold(s: AccState, rest: Seq<u8>)
    requires
        valid(s),
        rest.len() > 0,
    ensures
        1 <= step(s, rest).consumed <= rest.len(),
        run(s, rest).state == run(step(s, rest).state, rest.skip(step(s, rest).consumed)).state,
        run(s, rest).frames == match step(s, rest).frame {
            Some(f) => seq![f] + run(
                step(s, rest).state,
                rest.skip(step(s, rest).consumed),
            ).frames,
            None => run(step(s, rest).state, rest.skip(step(s, rest).consumed)).frames,
        },
{
    lemma_step_bounds(s, rest);
}

/// Bounded memory: feeding any input to a valid state leaves a valid state
/// of the same capacity, and every frame completed on the way fits the
/// capacity and ends with the end-of-image marker.
pub proof fn lemma_run_bounds(s: AccState, rest: Seq<u8>)
    requires
        valid(s),
    ensures
        valid(run(s, rest).state),
        run(s, rest).state.capacity == s.capacity,
        forall|k: int|
            0 <= k < run(s, rest).frames.len() ==> {
                let f = #[trigger] run(s, rest).frames[k];
                2 <= f.len() <= s.capacity && f[f.len() - 2] == MARKER_PREFIX && f[f.len() - 1]
                    == EOI
            },
    decreases rest.len(),
{
    if rest.len() > 0 {
        lemma_run_unfold(s, rest);
        lemma_step_bounds(s, rest);
        let o = step(s, rest);
        lemma_run_bounds(o.state, rest.skip(o.consumed));
    }
}

/// Frames are whole: fed to a state that keeps its frame's start, any
/// input leaves such a state, and every frame completed on the way starts
/// with the start-of-image marker.
pub proof fn lemma_run_framed(s: AccState, rest: Seq<u8>)
    requires
        valid(s),
        framed(s),
    ensures
        framed(run(s, rest).state),
        forall|k: int|
            0 <= k < run(s, rest).frames.len() ==> {
                let f = #[trigger] run(s, rest).frames[k];
                f.len() >= 4 && f[0] == MARKER_PREFIX && f[1] == SOI
            },
    decreases rest.len(),
{
    if rest.len() > 0 {
        lemma_run_unfold(s, rest);
        lemma_step_bounds(s, rest);
        lemma_step_framed(s, rest);
        let o = step(s, rest);
        lemma_run_framed(o.state, rest.skip(o.consumed));
    }
}

/// `frame` is one whole frame: it starts with the start-of-image marker,
/// and its first end-of-image marker is its last two bytes.
pub open spec fn whole_frame(frame: Seq<u8>) -> bool {
    frame.len() >= 4 && frame[0] == MARKER_PREFIX && frame[1] == SOI && first_marker(
        frame,
        MARKER_PREFIX,
        EOI,
    ) == Some(frame.len() - 2)
}

/// One frame in, one frame out: bytes without a start-of-image marker,
/// followed by one whole frame that fits the buffer, fed at once between
/// frames, complete that frame and nothing else, and leave the state
/// between frames.
pub proof fn lemma_single_frame(capacity: nat, junk: Seq<u8>, frame: Seq<u8>)
    requires
        first_marker(junk, MARKER_PREFIX, SOI).is_none(),
        whole_frame(frame),
        frame.len() <= capacity,
    ensures
        run(idle(capacity), junk + frame).state == idle(capacity),
        run(idle(capacity), junk + frame).frames == seq![frame],
{
    let s = idle(capacity);
    let input = junk + frame;
    let n = junk.len() as int;
    lemma_first_marker_cases(junk, MARKER_PREFIX, SOI);
    assert forall|j: int| 0 <= j < n implies !marker_at(input, j, MARKER_PREFIX, SOI) by {
        if j + 1 < n {
            assert(!marker_at(junk, j, MARKER_PREFIX, SOI));
            assert(input[j] == junk[j]);
            assert(input[j + 1] == junk[j + 1]);
        } else {
            assert(input[j + 1] == frame[0]);
        }
    }
    assert(input.skip(n) =~= frame);
    assert(marker_at(input, n, MARKER_PREFIX, SOI)) by {
        assert(input[n] == frame[0]);
        assert(input[n + 1] == frame[1]);
    }
    lemma_first_marker_is(input, MARKER_PREFIX, SOI, n);
    let fresh = AccState { capacity, in_frame: true, data: Seq::empty() };
    assert(frame.take(frame.len() as int) =~= frame);
    assert(fresh.data + frame =~= frame);
    assert(frame.skip(0) =~= frame);
    let o = step(s, input);
    assert(o == collect(fresh, frame, n));
    assert(o.consumed == input.len());
    assert(o.frame == Some(frame));
    assert(o.state == s);
    lemma_run_unfold(s, input);
    assert(input.skip(o.consumed) =~= Seq::<u8>::empty());
    assert(seq![frame] + Seq::<Seq<u8>>::empty() =~= seq![frame]);
}

/// A suffix of bytes without a marker holds none either.
proof fn lemma_no_marker_in_suffix(x: Seq<u8>, k: int, b0: u8, b1: u8)
    requires
        0 <= k <= x.len(),
        first_marker(x, b0, b1).is_none(),
    ensures
        first_marker(x.skip(k), b0, b1).is_none(),
{
    lemma_first_marker_cases(x, b0, b1);
    lemma_first_marker_cases(x.skip(k), b0, b1);
    match first_marker(x.skip(k), b0, b1) {
        Some(e) => {
            assert(marker_at(x.skip(k), e, b0, b1));
            assert(marker_at(x, e + k, b0, b1));
        },
        None => {},
    }
}

/// A prefix of bytes without a marker holds none either.
proof fn lemma_no_marker_in_prefix(x: Seq<u8>, k: int, b0: u8, b1: u8)
    requires
        0 <= k <= x.len(),
        first_marker(x, b0, b1).is_none(),
    ensures
        first_marker(x.take(k), b0, b1).is_none(),
{
    lemma_first_marker_cases(x, b0, b1);
    lemma_first_marker_cases(x.take(k), b0, b1);
    match first_marker(x.take(k), b0, b1) {
        Some(e) => {
            assert(marker_at(x.take(k), e, b0, b1));
            assert(marker_at(x, e, b0, b1));
        },
        None => {},
    }
}

/// Recovery from a frame that is too large. A start-of-image marker,
/// followed by more bytes than the buffer has room for, none of them part
/// of a marker of its own, and then one whole frame that fits: fed at once
/// between frames, they complete that frame and nothing else, and leave the
/// state between frames.
pub proof fn lemma_oversized_then_frame(capacity: nat, filler: Seq<u8>, frame: Seq<u8>)
    requires
        first_marker(seq![MARKER_PREFIX, SOI] + filler, MARKER_PREFIX, EOI).is_none(),
        first_marker(filler, MARKER_PREFIX, SOI).is_none(),
        2 + filler.len() > capacity,
        whole_frame(frame),
        frame.len() <= capacity,
    ensures
        run(idle(capacity), seq![MARKER_PREFIX, SOI] + filler + frame).state == idle(capacity),
        run(idle(capacity), seq![MARKER_PREFIX, SOI] + filler + frame).frames == seq![frame],
{
    let s = idle(capacity);
    let large = seq![MARKER_PREFIX, SOI] + filler;
    let input = large + frame;
    assert(marker_at(input, 0, MARKER_PREFIX, SOI)) by {
        assert(input[0] == large[0]);
        assert(input[1] == large[1]);
    }
    lemma_first_marker_is(input, MARKER_PREFIX, SOI, 0);
    assert(input.skip(0) =~= input);
    let fresh = AccState { capacity, in_frame: true, data: Seq::empty() };
    let first = step(s, input);
    assert(first == collect(fresh, input, 0));
    lemma_run_unfold(s, input);
    // Where the scan for a frame's start goes on after the drop.
    let dropped: int = capacity as int + 1;
    let junk = large.skip(dropped);
    assert(input.skip(dropped) =~= junk + frame);
    assert(first_marker(junk, MARKER_PREFIX, SOI).is_none()) by {
        if capacity == 0 {
            assert(junk =~= seq![SOI] + filler);
            lemma_first_marker_cases(filler, MARKER_PREFIX, SOI);
            lemma_first_marker_cases(junk, MARKER_PREFIX, SOI);
            match first_marker(junk, MARKER_PREFIX, SOI) {
                Some(e) => {
                    assert(marker_at(junk, e, MARKER_PREFIX, SOI));
                    if e >= 1 {
                        assert(marker_at(filler, e - 1, MARKER_PREFIX, SOI));
                    }
                },
                None => {},
            }
        } else {
            assert(junk =~= filler.skip(capacity - 1));
            lemma_no_marker_in_suffix(filler, capacity - 1, MARKER_PREFIX, SOI);
        }
    }
    lemma_single_frame(capacity, junk, frame);
    if capacity == 0 {
        assert(first.state == s && first.consumed == 1 && first.frame.is_none());
    } else {
        let grown = input.take(capacity as int);
        assert(fresh.data + input.take(capacity as int) =~= grown);
        assert(grown =~= large.take(capacity as int));
        assert(grown.skip(0) =~= grown);
        lemma_no_marker_in_prefix(large, capacity as int, MARKER_PREFIX, EOI);
        let full = AccState { capacity, in_frame: true, data: grown };
        assert(first.state == full && first.consumed == capacity && first.frame.is_none());
        let rest = input.skip(capacity as int);
        let second = step(full, rest);
        assert(second.state == s && second.consumed == 1 && second.frame.is_none());
        lemma_run_unfold(full, rest);
        assert(rest.skip(1) =~= input.skip(dropped));
    }
}

/// The frame buffer: a byte store of fixed capacity, the count of bytes
/// collected in it, and whether a frame is being collected.
pub struct FrameAccumulator {
    buf: Vec<u8>,
    length: usize,
    in_frame: bool,
}

/// What one call of `FrameAccumulator::step` reports: the chunk offset at
/// which the next step starts, and the length of the frame that now stands
/// at the front of the buffer, if one was completed.
pub struct StepResult {
    pub next: usize,
    pub frame_len: Option<usize>,
}

impl View for FrameAccumulator {
    type V = AccState;

    closed spec fn view(&self) -> AccState {
        AccState {
            capacity: self.buf@.len(),
            in_frame: self.in_frame,
            data: self.buf@.take(self.length as int),
        }
    }
}

impl FrameAccumulator {
    /// The collected bytes lie inside the buffer, and none is held outside a
    /// frame.
    closed spec fn bounded(&self) -> bool {
        self.length <= self.buf@.len() && (!self.in_frame ==> self.length == 0)
    }

    /// The collected bytes lie inside the buffer, none is held outside a
    /// frame, and in a frame they start at a start-of-image marker.
    pub closed spec fn wf(&self) -> bool {
        self.bounded() && framed(self@)
    }

    /// The first `n` bytes of the buffer, whether or not they are counted as
    /// collected: a completed frame stays there until the next step.
    pub closed spec fn stored(&self, n: int) -> Seq<u8> {
        self.buf@.take(n)
    }

    /// The size of the buffer.
    pub closed spec fn spec_capacity(&self) -> nat {
        self.buf@.len()
    }

    /// A valid accumulator has a valid state of its own capacity.
    pub proof fn lemma_wf_valid(&self)
        requires
            self.wf(),
        ensures
            valid(self@),
            framed(self@),
            self@.capacity == self.spec_capacity(),
    {
    }

    /// An accumulator with a zeroed buffer of `capacity` bytes, outside a
    /// frame.
    pub fn new(capacity: usize) -> (acc: Self)
        ensures
            acc.wf(),
            acc@ == idle(capacity as nat),
            acc.spec_capacity() == capacity,
    {
        let mut buf: Vec<u8> = Vec::new();
        let mut i: usize = 0;
        while i < capacity
            invariant
                i <= capacity,
                buf@.len() == i,
            decreases capacity - i,
        {
            buf.push(0u8);
            i = i + 1;
        }
        let acc = FrameAccumulator { buf, length: 0, in_frame: false };
        assert(acc@.data =~= Seq::<u8>::empty());
        acc
    }

    /// The size of the buffer, which never changes.
    pub fn capacity(&self) -> (c: usize)
        ensures
            c == self@.capacity,
            c == self.spec_capacity(),
    {
        self.buf.len()
    }

    /// How many bytes of the current frame are collected.
    pub fn len(&self) -> (n: usize)
        requires
            self.wf(),
        ensures
            n == self@.data.len(),
    {
        self.length
    }

    /// Whether a frame is being collected.
    pub fn in_frame(&self) -> (b: bool)
        ensures
            b == self@.in_frame,
    {
        self.in_frame
    }

    /// Drops what was collected and leaves the frame.
    pub fn reset(&mut self)
        ensures
            final(self).wf(),
            final(self)@ == idle(old(self)@.capacity),
            final(self).spec_capacity() == old(self).spec_capacity(),
    {
        self.length = 0;
        self.in_frame = false;
        assert(self@.data =~= Seq::<u8>::empty());
    }

    /// The first `n` bytes of the buffer: after a step that completed a
    /// frame of length `n`, that frame.
    pub fn frame(&self, n: usize) -> (bytes: &[u8])
        requires
            n <= self.spec_capacity(),
        ensures
            bytes@ == self.stored(n as int),
            bytes@.len() == n,
    {
        slice_subrange(self.buf.as_slice(), 0, n)
    }

    /// The first `n` bytes of the buffer, to be worked on in place. Outside
    /// a frame nothing is collected there, so whatever is written leaves
    /// the accumulator as it is.
    pub fn frame_mut(&mut self, n: usize) -> (bytes: &mut [u8])
        requires
            old(self).wf(),
            !old(self)@.in_frame,
            n <= old(self).spec_capacity(),
        ensures
            bytes@ == old(self).stored(n as int),
            bytes@.len() == n,
            final(bytes)@.len() == n ==> {
                &&& final(self).wf()
                &&& final(self).spec_capacity() == old(self).spec_capacity()
                &&& final(self)@.capacity == old(self)@.capacity
                &&& !final(self)@.in_frame
                &&& final(self)@.data =~= old(self)@.data
            },
    {
        let whole = self.buf.as_mut_slice();
        let (head, _tail) = whole.split_at_mut(n);
        head
    }

    /// Appends `count` bytes of the chunk, from offset `start`, to the
    /// collected bytes.
    fn append(&mut self, chunk: &[u8], start: usize, count: usize)
        requires
            old(self).bounded(),
            old(self).in_frame,
            start + count <= chunk@.len(),
            old(self).length + count <= old(self).buf@.len(),
        ensures
            final(self).bounded(),
            final(self).in_frame == old(self).in_frame,
            final(self).buf@.len() == old(self).buf@.len(),
            final(self).length == old(self).length + count,
            final(self)@.data == old(self)@.data + chunk@.skip(start as int).take(count as int),
    {
        let old_len: usize = self.length;
        let n: usize = chunk.len();
        let cap: usize = self.buf.len();
        let ghost entry = self@.data;
        let mut k: usize = 0;
        while k < count
            invariant
                k <= count,
                n == chunk@.len(),
                cap == self.buf@.len(),
                old_len + count <= cap,
                start + count <= n,
                self.buf@.len() == old(self).buf@.len(),
                self.length == old_len,
                self.in_frame == old(self).in_frame,
                self.buf@.take(old_len as int) == entry,
                forall|j: int|
                    old_len <= j < old_len + k ==> #[trigger] self.buf@[j] == chunk@[start + (j
                        - old_len)],
            decreases count - k,
        {
            let ghost prev = self.buf@;
            let b: u8 = chunk[start + k];
            self.buf.set(old_len + k, b);
            assert(self.buf@.take(old_len as int) =~= prev.take(old_len as int));
            k = k + 1;
        }
        self.length = old_len + count;
        let ghost grown = entry + chunk@.skip(start as int).take(count as int);
        assert(self.buf@.take(self.length as int) =~= grown) by {
            assert forall|j: int| 0 <= j < old_len + count implies self.buf@.take(
                self.length as int,
            )[j] == grown[j] by {
                if j < old_len {
                    assert(self.buf@.take(old_len as int)[j] == entry[j]);
                } else {
                    assert(self.buf@[j] == chunk@[start + (j - old_len)]);
                }
            }
        }
    }

    /// One step in a frame, as `collect` describes it: the frame's bytes are
    /// the chunk from offset `start`, and `skipped` bytes before them were
    /// passed over.
    #[verifier::rlimit(40)]
    fn gather(&mut self, chunk: &[u8], start: usize, skipped: usize) -> (out: StepResult)
        requires
            old(self).bounded(),
            old(self).in_frame,
            skipped <= start < chunk@.len(),
        ensures
            final(self).bounded(),
            final(self).buf@.len() == old(self).buf@.len(),
            final(self)@ == collect(old(self)@, chunk@.skip(start as int), skipped as int).state,
            out.next == (start - skipped) + collect(
                old(self)@,
                chunk@.skip(start as int),
                skipped as int,
            ).consumed,
            start < out.next <= chunk@.len(),
            match out.frame_len {
                Some(n) => n <= final(self).buf@.len() && collect(
                    old(self)@,
                    chunk@.skip(start as int),
                    skipped as int,
                ).frame == Some(final(self).buf@.take(n as int)),
                None => collect(
                    old(self)@,
                    chunk@.skip(start as int),
                    skipped as int,
                ).frame.is_none(),
            },
    {
        let ghost entry = self@;
        let ghost input = chunk@.skip(start as int);
        proof {
            lemma_collect_bounds(entry, input, skipped as int);
        }
        let n: usize = chunk.len();
        let cap: usize = self.buf.len();
        let space: usize = cap - self.length;
        if space == 0 {
            self.in_frame = false;
            self.length = 0;
            assert(self@.data =~= Seq::<u8>::empty());
            return StepResult { next: start + 1, frame_len: None };
        }
        let avail: usize = n - start;
        let count: usize = if avail <= space { avail } else { space };
        let old_len: usize = self.length;
        self.append(chunk, start, count);
        let scan_start: usize = if old_len > 0 { old_len - 1 } else { 0 };
        let new_len: usize = old_len + count;
        let ghost grown = entry.data + input.take(count as int);
        assert(self.buf@.take(new_len as int) == grown);
        let window = slice_subrange(self.buf.as_slice(), scan_start, new_len);
        assert(window@ =~= grown.skip(scan_start as int));
        match find_marker(window, MARKER_PREFIX, EOI) {
            Some(e) => {
                proof {
                    lemma_first_marker_cases(window@, MARKER_PREFIX, EOI);
                    assert(marker_at(window@, e as int, MARKER_PREFIX, EOI));
                }
                let end: usize = scan_start + e + 2;
                self.in_frame = false;
                self.length = 0;
                proof {
                    assert(self@.data =~= Seq::<u8>::empty());
                    assert(self.buf@.take(end as int) =~= grown.take(end as int));
                }
                StepResult { next: start + (end - old_len), frame_len: Some(end) }
            },
            None => {
                StepResult { next: start + count, frame_len: None }
            },
        }
    }

    /// One step over the chunk from offset `pos`, as `step` describes it on
    /// the unread part of the chunk.
    pub fn step(&mut self, chunk: &[u8], pos: usize) -> (out: StepResult)
        requires
            old(self).wf(),
            pos < chunk@.len(),
        ensures
            final(self).wf(),
            final(self).spec_capacity() == old(self).spec_capacity(),
            final(self)@ == step(old(self)@, chunk@.skip(pos as int)).state,
            out.next == pos + step(old(self)@, chunk@.skip(pos as int)).consumed,
            pos < out.next <= chunk@.len(),
            match out.frame_len {
                Some(n) => n <= final(self).spec_capacity()
                    && step(old(self)@, chunk@.skip(pos as int)).frame == Some(
                    final(self).stored(n as int),
                ),
                None => step(old(self)@, chunk@.skip(pos as int)).frame.is_none(),
            },
    {
        let ghost unread = chunk@.skip(pos as int);
        proof {
            lemma_step_framed(self@, unread);
        }
        if self.in_frame {
            self.gather(chunk, pos, 0)
        } else {
            let rest = slice_subrange(chunk, pos, chunk.len());
            assert(rest@ =~= unread);
            match find_marker(rest, MARKER_PREFIX, SOI) {
                Some(i) => {
                    proof {
                        lemma_first_marker_cases(unread, MARKER_PREFIX, SOI);
                        assert(marker_at(unread, i as int, MARKER_PREFIX, SOI));
                        assert(unread.skip(i as int) =~= chunk@.skip(pos + i));
                    }
                    self.length = 0;
                    self.in_frame = true;
                    assert(self@.data =~= Seq::<u8>::empty());
                    self.gather(chunk, pos + i, i)
                },
                None => StepResult { next: chunk.len(), frame_len: None },
            }
        }
    }

    /// Feeds one chunk of the stream and returns the frames that it
    /// completes, in order, as `run` describes it. The buffer keeps its
    /// size, whatever the chunk holds.
    pub fn on_chunk(&mut self, chunk: &[u8]) -> (frames: Vec<Vec<u8>>)
        requires
            old(self).wf(),
        ensures
            final(self).wf(),
            final(self).spec_capacity() == old(self).spec_capacity(),
            final(self)@ == run(old(self)@, chunk@).state,
            frame_views(frames@) == run(old(self)@, chunk@).frames,
            forall|k: int|
                0 <= k < frames@.len() ==> (#[trigger] frames@[k])@.len() <= old(self).spec_capacity(),
    {
        let n: usize = chunk.len();
        let mut frames: Vec<Vec<u8>> = Vec::new();
        let mut pos: usize = 0;
        let ghost first = self@;
        proof {
            assert(chunk@.skip(0) =~= chunk@);
            assert(frame_views(frames@) =~= Seq::<Seq<u8>>::empty());
            assert(frame_views(frames@) + run(first, chunk@).frames =~= run(first, chunk@).frames);
        }
        while pos < n
            invariant
                pos <= n,
                n == chunk@.len(),
                self.wf(),
                self.spec_capacity() == old(self).spec_capacity(),
                run(first, chunk@).state == run(self@, chunk@.skip(pos as int)).state,
                run(first, chunk@).frames == frame_views(frames@) + run(
                    self@,
                    chunk@.skip(pos as int),
                ).frames,
                forall|k: int|
                0 <= k < frames@.len() ==> (#[trigger] frames@[k])@.len() <= old(self).spec_capacity(),
            decreases n - pos,
        {
            let ghost before = self@;
            let ghost rest = chunk@.skip(pos as int);
            let ghost collected = frame_views(frames@);
            proof {
                self.lemma_wf_valid();
                lemma_run_unfold(before, rest);
            }
            let r = self.step(chunk, pos);
            proof {
                assert(rest.skip(step(before, rest).consumed) =~= chunk@.skip(r.next as int));
            }
            match r.frame_len {
                Some(len) => {
                    let f = slice_to_vec(self.frame(len));
                    frames.push(f);
                    proof {
                        assert(frame_views(frames@) =~= collected + seq![f@]);
                        assert(collected + (seq![f@] + run(
                            self@,
                            chunk@.skip(r.next as int),
                        ).frames) =~= (collected + seq![f@]) + run(
                            self@,
                            chunk@.skip(r.next as int),
                        ).frames);
                    }
                },
                None => {},
            }
            pos = r.next;
        }
        proof {
            assert(frame_views(frames@) + Seq::<Seq<u8>>::empty() =~= frame_views(frames@));
        }
        frames
    }
}

} // verus!
