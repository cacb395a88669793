//! The pipeline's outer loop as a state machine: back off, connect,
//! stream, and on any failure of the stream drop what was collected and
//! start over. The caller waits, connects and reads; the pipeline decides
//! and keeps the frame buffer.

use vstd::prelude::*;
use crate::reassembler::{idle, run, step, AccState, FrameAccumulator, StepResult, frame_views};

verus! {

/// How long to wait before each attempt to connect, in milliseconds.
pub const BACKOFF_MILLIS: u64 = 1000;

/// How long a socket may stay silent before it counts as failed, in
/// seconds.
pub const SOCKET_TIMEOUT_SECS: u64 = 10;

/// The most bytes that one read takes from the socket.
pub const READ_CHUNK: usize = 4096;

/// The size of the frame buffer.
pub const FRAME_CAPACITY: usize = 30 * 1024;

/// The rows of the display.
pub const DISPLAY_HEIGHT: u16 = 170;

/// Where the connection stands.
#[derive(Clone, Copy, Debug, PartialEq, Eq, Structural)]
pub enum LinkState {
    /// No socket; the next attempt waits for the backoff.
    Disconnected,
    /// An attempt to connect is under way.
    Connecting,
    /// The socket is open and read from.
    Streaming,
}

/// What happened outside.
#[derive(Clone, Copy, Debug, PartialEq, Eq, Structural)]
pub enum LinkEvent {
    /// The backoff is over.
    BackoffElapsed,
    /// The attempt to connect succeeded.
    Connected,
    /// The attempt to connect failed.
    ConnectFailed,
    /// A read returned `len` bytes; none means that the peer closed.
    Received { len: usize },
    /// A read failed or ran into the idle timeout.
    ReadFailed,
}

/// What the caller is to do in a state.
#[derive(Clone, Copy, Debug, PartialEq, Eq, Structural)]
pub enum LinkAction {
    /// Wait, then report `BackoffElapsed`.
    Wait { millis: u64 },
    /// Open a socket with this idle timeout and connect.
    Connect { timeout_secs: u64 },
    /// Read at most `max_len` bytes.
    Read { max_len: usize },
}

/// The state that follows `state` on `event`. An event that the state does
/// not wait for changes nothing.
pub open spec fn next_link(state: LinkState, event: LinkEvent) -> LinkState {
    match (state, event) {
        (LinkState::Disconnected, LinkEvent::BackoffElapsed) => LinkState::Connecting,
        (LinkState::Connecting, LinkEvent::Connected) => LinkState::Streaming,
        (LinkState::Connecting, LinkEvent::ConnectFailed) => LinkState::Disconnected,
        (LinkState::Streaming, LinkEvent::Received { len }) => if len == 0 {
            LinkState::Disconnected
        } else {
            LinkState::Streaming
        },
        (LinkState::Streaming, LinkEvent::ReadFailed) => LinkState::Disconnected,
        _ => state,
    }
}

/// What the caller is to do in `state`.
pub open spec fn action_in(state: LinkState) -> LinkAction {
    match state {
        LinkState::Disconnected => LinkAction::Wait { millis: BACKOFF_MILLIS },
        LinkState::Connecting => LinkAction::Connect { timeout_secs: SOCKET_TIMEOUT_SECS },
        LinkState::Streaming => LinkAction::Read { max_len: READ_CHUNK },
    }
}

/// The stream ends on this event: the socket is to be dropped.
pub open spec fn stream_lost(state: LinkState, event: LinkEvent) -> bool {
    state == LinkState::Streaming && next_link(state, event) == LinkState::Disconnected
}

/// No state is the last: in each, some event leads on to another.
pub proof fn lemma_no_terminal_state(state: LinkState)
    ensures
        exists|event: LinkEvent| next_link(state, event) != state,
{
    match state {
        LinkState::Disconnected => {
            assert(next_link(state, LinkEvent::BackoffElapsed) != state);
        },
        LinkState::Connecting => {
            assert(next_link(state, LinkEvent::Connected) != state);
        },
        LinkState::Streaming => {
            assert(next_link(state, LinkEvent::ReadFailed) != state);
        },
    }
}

/// Every connection starts with a wait: the only way to an attempt to
/// connect is through the backoff.
pub proof fn lemma_backoff_before_connect(state: LinkState, event: LinkEvent)
    requires
        next_link(state, event) == LinkState::Connecting,
        state != LinkState::Connecting,
    ensures
        state == LinkState::Disconnected,
        event == LinkEvent::BackoffElapsed,
{
}

/// The pipeline: the connection's state and the frame buffer.
pub struct Pipeline {
    link: LinkState,
    acc: FrameAccumulator,
}

impl Pipeline {
    /// The frame buffer is valid.
    pub closed spec fn wf(&self) -> bool {
        self.acc.wf()
    }

    /// Where the connection stands.
    pub closed spec fn spec_link(&self) -> LinkState {
        self.link
    }

    /// What the frame buffer stands for.
    pub closed spec fn spec_acc(&self) -> AccState {
        self.acc@
    }

    /// The first `n` bytes of the frame buffer.
    pub closed spec fn stored(&self, n: int) -> Seq<u8> {
        self.acc.stored(n)
    }

    /// A pipeline without a connection, with an empty frame buffer of
    /// `capacity` bytes.
    pub fn new(capacity: usize) -> (p: Pipeline)
        ensures
            p.wf(),
            p.spec_link() == LinkState::Disconnected,
            p.spec_acc() == idle(capacity as nat),
    {
        Pipeline { link: LinkState::Disconnected, acc: FrameAccumulator::new(capacity) }
    }

    /// Where the connection stands.
    pub fn link(&self) -> (state: LinkState)
        ensures
            state == self.spec_link(),
    {
        self.link
    }

    /// The size of the frame buffer.
    pub fn capacity(&self) -> (c: usize)
        ensures
            c == self.spec_acc().capacity,
    {
        self.acc.capacity()
    }

    /// Whether a frame is being collected.
    pub fn in_frame(&self) -> (b: bool)
        ensures
            b == self.spec_acc().in_frame,
    {
        self.acc.in_frame()
    }

    /// What the caller is to do now.
    pub fn next_action(&self) -> (action: LinkAction)
        ensures
            action == action_in(self.spec_link()),
    {
        match self.link {
            LinkState::Disconnected => LinkAction::Wait { millis: BACKOFF_MILLIS },
            LinkState::Connecting => LinkAction::Connect { timeout_secs: SOCKET_TIMEOUT_SECS },
            LinkState::Streaming => LinkAction::Read { max_len: READ_CHUNK },
        }
    }

    /// Takes an event. Where the stream is lost, what was collected of a
    /// frame is dropped, and the result says so: the socket is to be
    /// dropped too.
    pub fn on_event(&mut self, event: LinkEvent) -> (lost: bool)
        requires
            old(self).wf(),
        ensures
            final(self).wf(),
            final(self).spec_link() == next_link(old(self).spec_link(), event),
            lost == stream_lost(old(self).spec_link(), event),
            final(self).spec_acc() == if lost {
                idle(old(self).spec_acc().capacity)
            } else {
                old(self).spec_acc()
            },
    {
        let before = self.link;
        let after = match (before, event) {
            (LinkState::Disconnected, LinkEvent::BackoffElapsed) => LinkState::Connecting,
            (LinkState::Connecting, LinkEvent::Connected) => LinkState::Streaming,
            (LinkState::Connecting, LinkEvent::ConnectFailed) => LinkState::Disconnected,
            (LinkState::Streaming, LinkEvent::Received { len }) => if len == 0 {
                LinkState::Disconnected
            } else {
                LinkState::Streaming
            },
            (LinkState::Streaming, LinkEvent::ReadFailed) => LinkState::Disconnected,
            _ => before,
        };
        self.link = after;
        let lost = before == LinkState::Streaming && after == LinkState::Disconnected;
        if lost {
            self.acc.reset();
        }
        lost
    }

    /// One reassembly step over the chunk from offset `pos`.
    pub fn feed(&mut self, chunk: &[u8], pos: usize) -> (out: StepResult)
        requires
            old(self).wf(),
            pos < chunk@.len(),
        ensures
            final(self).wf(),
            final(self).spec_link() == old(self).spec_link(),
            final(self).spec_acc() == step(old(self).spec_acc(), chunk@.skip(pos as int)).state,
            out.next == pos + step(old(self).spec_acc(), chunk@.skip(pos as int)).consumed,
            pos < out.next <= chunk@.len(),
            match out.frame_len {
                Some(n) => n <= final(self).spec_acc().capacity && step(
                    old(self).spec_acc(),
                    chunk@.skip(pos as int),
                ).frame == Some(final(self).stored(n as int)),
                None => step(old(self).spec_acc(), chunk@.skip(pos as int)).frame.is_none(),
            },
    {
        proof {
            self.acc.lemma_wf_valid();
        }
        let out = self.acc.step(chunk, pos);
        proof {
            self.acc.lemma_wf_valid();
        }
        out
    }

    /// The first `n` bytes of the frame buffer: after a step that
    /// completed a frame of length `n`, that frame.
    pub fn frame(&self, n: usize) -> (bytes: &[u8])
        requires
            self.wf(),
            n <= self.spec_acc().capacity,
        ensures
            bytes@ == self.stored(n as int),
            bytes@.len() == n,
    {
        proof {
            self.acc.lemma_wf_valid();
        }
        self.acc.frame(n)
    }

    /// The first `n` bytes of the frame buffer, to be worked on in place.
    /// Outside a frame nothing is collected there, so whatever is written
    /// leaves the pipeline as it is.
    pub fn frame_mut(&mut self, n: usize) -> (bytes: &mut [u8])
        requires
            old(self).wf(),
            !old(self).spec_acc().in_frame,
            n <= old(self).spec_acc().capacity,
        ensures
            bytes@ == old(self).stored(n as int),
            bytes@.len() == n,
            final(bytes)@.len() == n ==> {
                &&& final(self).wf()
                &&& final(self).spec_link() == old(self).spec_link()
                &&& final(self).spec_acc().capacity == old(self).spec_acc().capacity
                &&& !final(self).spec_acc().in_frame
                &&& final(self).spec_acc().data =~= old(self).spec_acc().data
            },
    {
        proof {
            self.acc.lemma_wf_valid();
        }
        self.acc.frame_mut(n)
    }

    /// Feeds one chunk and returns the frames that it completes.
    pub fn on_chunk(&mut self, chunk: &[u8]) -> (frames: Vec<Vec<u8>>)
        requires
            old(self).wf(),
        ensures
            final(self).wf(),
            final(self).spec_link() == old(self).spec_link(),
            final(self).spec_acc() == run(old(self).spec_acc(), chunk@).state,
            frame_views(frames@) == run(old(self).spec_acc(), chunk@).frames,
    {
        self.acc.on_chunk(chunk)
    }
}

} // verus!
