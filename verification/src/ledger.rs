//! What holds of every decode session, whatever the decoder answers: the
//! scratch buffer is granted at most once, released at most once, and
//! never held when the session is over; and every block delivered has the
//! width of the frame and the rows that its bytes hold.

use vstd::prelude::*;
use crate::session::{
    answers, initial, lemma_well_shaped_step, transition, well_shaped, DecoderCall, DecoderReply,
    SessionState,
};

verus! {

/// The state after the replies `replies`, taken in order from `s`.
pub open spec fn after(s: SessionState, replies: Seq<DecoderReply>) -> SessionState
    decreases replies.len(),
{
    if replies.len() == 0 {
        s
    } else {
        after(transition(s, replies[0]), replies.skip(1))
    }
}

/// The reply grants the scratch buffer: it answers the allocation and says
/// that memory was had.
pub open spec fn grants_scratch(s: SessionState, reply: DecoderReply) -> bool {
    s.pending is AllocScratch && reply == (DecoderReply::Scratch { allocated: true })
}

/// The reply makes the session ask for the release of the scratch buffer.
pub open spec fn asks_release(s: SessionState, reply: DecoderReply) -> bool {
    answers(s.pending, reply) && transition(s, reply).pending is FreeScratch
}

/// How often the scratch buffer is granted over the replies `replies`.
pub open spec fn grants(s: SessionState, replies: Seq<DecoderReply>) -> nat
    decreases replies.len(),
{
    if replies.len() == 0 {
        0
    } else {
        (if grants_scratch(s, replies[0]) {
            1nat
        } else {
            0nat
        }) + grants(transition(s, replies[0]), replies.skip(1))
    }
}

/// How often the release of the scratch buffer is asked for over the
/// replies `replies`.
pub open spec fn releases(s: SessionState, replies: Seq<DecoderReply>) -> nat
    decreases replies.len(),
{
    if replies.len() == 0 {
        0
    } else {
        (if asks_release(s, replies[0]) {
            1nat
        } else {
            0nat
        }) + releases(transition(s, replies[0]), replies.skip(1))
    }
}

/// A state goes with `g` grants and `r` releases behind it: before the
/// allocation nothing is granted; from the grant to the last block the
/// buffer is held and not released; while the release is pending, and
/// after it, grant and release are even.
pub open spec fn balanced(s: SessionState, g: nat, r: nat) -> bool {
    match s.pending {
        DecoderCall::ParseHeader { .. } | DecoderCall::GetOutbufLen | DecoderCall::AllocScratch {
            ..
        } => g == 0 && r == 0 && !s.scratch_held,
        DecoderCall::GetProcessCount | DecoderCall::Process { .. } | DecoderCall::DeliverBlock {
            ..
        } => g == 1 && r == 0 && s.scratch_held,
        DecoderCall::FreeScratch => g == 1 && r == 1 && s.scratch_held,
        DecoderCall::Finish { .. } => g == r && r <= 1 && !s.scratch_held,
    }
}

/// One reply keeps a state balanced.
pub proof fn lemma_balanced_step(s: SessionState, g: nat, r: nat, reply: DecoderReply)
    requires
        balanced(s, g, r),
    ensures
        balanced(
            transition(s, reply),
            g + (if grants_scratch(s, reply) { 1nat } else { 0nat }),
            r + (if asks_release(s, reply) { 1nat } else { 0nat }),
        ),
{
}

/// Any replies keep a state balanced.
pub proof fn lemma_balanced_run(s: SessionState, g: nat, r: nat, replies: Seq<DecoderReply>)
    requires
        balanced(s, g, r),
    ensures
        balanced(after(s, replies), g + grants(s, replies), r + releases(s, replies)),
    decreases replies.len(),
{
    if replies.len() > 0 {
        lemma_balanced_step(s, g, r, replies[0]);
        lemma_balanced_run(
            transition(s, replies[0]),
            g + (if grants_scratch(s, replies[0]) { 1nat } else { 0nat }),
            r + (if asks_release(s, replies[0]) { 1nat } else { 0nat }),
            replies.skip(1),
        );
    }
}

/// Resource safety. Whatever a decoder answers to a session on a frame of
/// any length, and whichever call fails: the scratch buffer is granted at
/// most once; its release is asked for at most once, and only after a
/// grant; and when the session is over, every grant has had its release
/// and nothing is held.
pub proof fn lemma_scratch_released_once(frame_len: usize, replies: Seq<DecoderReply>)
    ensures
        grants(initial(frame_len), replies) <= 1,
        releases(initial(frame_len), replies) <= grants(initial(frame_len), replies),
        after(initial(frame_len), replies).pending is Finish ==> releases(
            initial(frame_len),
            replies,
        ) == grants(initial(frame_len), replies) && !after(
            initial(frame_len),
            replies,
        ).scratch_held,
        after(initial(frame_len), replies).scratch_held ==> releases(
            initial(frame_len),
            replies,
        ) <= 1 && grants(initial(frame_len), replies) == 1,
{
    lemma_balanced_run(initial(frame_len), 0, 0, replies);
}

/// A session that is over stays over: no reply moves it.
pub proof fn lemma_finish_absorbs(s: SessionState, reply: DecoderReply)
    requires
        s.pending is Finish,
    ensures
        transition(s, reply) == s,
        !answers(s.pending, reply),
{
}

/// Any replies keep a session well shaped.
pub proof fn lemma_well_shaped_run(s: SessionState, replies: Seq<DecoderReply>)
    requires
        well_shaped(s),
    ensures
        well_shaped(after(s, replies)),
    decreases replies.len(),
{
    if replies.len() > 0 {
        lemma_well_shaped_step(s, replies[0]);
        lemma_well_shaped_run(transition(s, replies[0]), replies.skip(1));
    }
}

/// Block shape. Whatever a decoder answers to a session on a frame of any
/// length, a block that the session delivers has the width that the header
/// gave, and its rows lie within its bytes and its bytes within the
/// scratch buffer.
pub proof fn lemma_blocks_well_shaped(frame_len: usize, replies: Seq<DecoderReply>)
    ensures
        well_shaped(after(initial(frame_len), replies)),
{
    lemma_well_shaped_run(initial(frame_len), replies);
}

} // verus!
