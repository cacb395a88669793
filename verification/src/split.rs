//! Chunk boundaries do not matter: a stream fed in two chunks completes the
//! same frames as the same stream fed in one, whatever the cut, with one
//! exception that the reassembly rules themselves make.

use vstd::prelude::*;
use crate::marker::{
    first_marker, lemma_first_marker_cases, lemma_first_marker_is, lemma_first_marker_none,
    lemma_first_marker_prefix, lemma_first_marker_skip, marker_at, EOI, MARKER_PREFIX, SOI,
};
use crate::reassembler::{
    collect, idle, lemma_run_unfold, lemma_single_frame, lemma_step_bounds, run, step, valid,
    whole_frame, AccState, StepOutcome,
};

verus! {

/// Feeding `rest` ends in a search for the start-of-image marker that found
/// none up to the last byte.
pub open spec fn ends_searching(s: AccState, rest: Seq<u8>) -> bool
    decreases rest.len(),
{
    if rest.len() == 0 {
        false
    } else if !s.in_frame && first_marker(rest, MARKER_PREFIX, SOI).is_none() {
        true
    } else {
        let o = step(s, rest);
        if 1 <= o.consumed <= rest.len() {
            ends_searching(o.state, rest.skip(o.consumed))
        } else {
            false
        }
    }
}

/// The cut between `a` and `b` parts the two bytes of a start-of-image
/// marker that the search at the end of `a` was still looking for. A search
/// keeps nothing from one chunk to the next, so that marker is missed.
pub open spec fn marker_straddles(s: AccState, a: Seq<u8>, b: Seq<u8>) -> bool {
    a.len() > 0 && b.len() > 0 && ends_searching(s, a) && a[a.len() - 1] == MARKER_PREFIX && b[0]
        == SOI
}

/// Feeding `a` and then `b`: the state after both, and the frames of both
/// in order.
pub open spec fn run_two(s: AccState, a: Seq<u8>, b: Seq<u8>) -> (AccState, Seq<Seq<u8>>) {
    let first = run(s, a);
    let second = run(first.state, b);
    (second.state, first.frames + second.frames)
}

/// The step `whole` over `a + b` is the step `first` over `a` carried on
/// into `b`: `first` takes all `n` bytes of `a` and completes nothing, and
/// the step `second` over `b`, from the state that `first` leaves, does the
/// rest.
pub open spec fn carried_on(first: StepOutcome, whole: StepOutcome, second: StepOutcome, n: int)
    -> bool {
    first.consumed == n && first.frame.is_none() && whole.state == second.state && whole.frame
        == second.frame && whole.consumed == n + second.consumed
}

/// One step in a frame over `ra + b` against one over `ra`: the two are the
/// same step, or the first is the second carried on into `b`.
proof fn lemma_collect_split(st: AccState, ra: Seq<u8>, b: Seq<u8>, skipped: int)
    requires
        valid(st),
        st.in_frame,
        ra.len() > 0,
        b.len() > 0,
    ensures
        collect(st, ra + b, skipped) == collect(st, ra, skipped) || (collect(
            st,
            ra,
            skipped,
        ).state.in_frame && carried_on(
            collect(st, ra, skipped),
            collect(st, ra + b, skipped),
            collect(collect(st, ra, skipped).state, b, 0),
            skipped + ra.len(),
        )),
{
    let space = st.capacity - st.data.len();
    let rw = ra + b;
    if space > 0 {
        let ca = if ra.len() <= space { ra.len() as int } else { space };
        let cw = if rw.len() <= space { rw.len() as int } else { space };
        let ga = st.data + ra.take(ca);
        let gw = st.data + rw.take(cw);
        let ss = if st.data.len() > 0 { st.data.len() - 1 } else { 0 };
        if ra.len() >= space {
            assert(rw.take(cw) =~= ra.take(ca));
        } else {
            let cb = cw - ra.len();
            let extra = b.take(cb);
            assert(ra.take(ca) =~= ra);
            assert(rw.take(cw) =~= ra + extra);
            assert(gw =~= ga + extra);
            let wa = ga.skip(ss);
            let ww = gw.skip(ss);
            assert(ww =~= wa + extra);
            lemma_first_marker_cases(wa, MARKER_PREFIX, EOI);
            match first_marker(wa, MARKER_PREFIX, EOI) {
                Some(e) => {
                    lemma_first_marker_prefix(wa, extra, MARKER_PREFIX, EOI);
                    assert(marker_at(wa, e, MARKER_PREFIX, EOI));
                    let end = ss + e + 2;
                    assert(gw.take(end) =~= ga.take(end));
                },
                None => {
                    let mid = collect(st, ra, skipped).state;
                    assert(mid.data == ga);
                    let ssb = ga.len() - 1;
                    let q = ssb - ss;
                    assert forall|j: int| 0 <= j < q implies !marker_at(
                        ww,
                        j,
                        MARKER_PREFIX,
                        EOI,
                    ) by {
                        assert(!marker_at(wa, j, MARKER_PREFIX, EOI));
                        assert(ww[j] == wa[j]);
                        assert(ww[j + 1] == wa[j + 1]);
                    }
                    lemma_first_marker_skip(ww, q, MARKER_PREFIX, EOI);
                    assert(ww.skip(q) =~= gw.skip(ssb));
                    let cb2 = if b.len() <= mid.capacity - mid.data.len() {
                        b.len() as int
                    } else {
                        mid.capacity - mid.data.len()
                    };
                    assert(cb2 == cb);
                    assert(mid.data + b.take(cb2) == gw);
                    lemma_split_tail(st, mid, gw, ss, ssb, skipped, ra.len() as int, cw, cb);
                },
            }
        }
    }
}

/// The last case of `lemma_collect_split`, seen from the grown buffer `gw`
/// that both ways of feeding arrive at.
proof fn lemma_split_tail(
    st: AccState,
    mid: AccState,
    gw: Seq<u8>,
    ss: int,
    ssb: int,
    skipped: int,
    n: int,
    cw: int,
    cb: int,
)
    requires
        mid.capacity == st.capacity,
        mid.data.len() == st.data.len() + n,
        n > 0,
        cw == n + cb,
        0 <= ss <= ssb,
        ssb == mid.data.len() - 1,
        ssb <= gw.len(),
        first_marker(gw.skip(ss), MARKER_PREFIX, EOI) == match first_marker(
            gw.skip(ssb),
            MARKER_PREFIX,
            EOI,
        ) {
            Some(e) => Some(e + (ssb - ss)),
            None => None,
        },
    ensures
        ({
            let whole = match first_marker(gw.skip(ss), MARKER_PREFIX, EOI) {
                Some(e) => StepOutcome {
                    state: idle(st.capacity),
                    consumed: skipped + (ss + e + 2 - st.data.len()),
                    frame: Some(gw.take(ss + e + 2)),
                },
                None => StepOutcome {
                    state: AccState { capacity: st.capacity, in_frame: true, data: gw },
                    consumed: skipped + cw,
                    frame: None,
                },
            };
            let second = match first_marker(gw.skip(ssb), MARKER_PREFIX, EOI) {
                Some(e) => StepOutcome {
                    state: idle(mid.capacity),
                    consumed: 0 + (ssb + e + 2 - mid.data.len()),
                    frame: Some(gw.take(ssb + e + 2)),
                },
                None => StepOutcome {
                    state: AccState { capacity: mid.capacity, in_frame: true, data: gw },
                    consumed: 0 + cb,
                    frame: None,
                },
            };
            whole.state == second.state && whole.frame == second.frame && whole.consumed
                == skipped + n + second.consumed
        }),
{
}

/// One step over `a + b` against one step over `a`: the two are the same
/// step, or the second is the first carried on into `b`. Left out is the cut
/// through a start-of-image marker that the step is searching for.
proof fn lemma_step_split(s: AccState, a: Seq<u8>, b: Seq<u8>)
    requires
        valid(s),
        a.len() > 0,
        b.len() > 0,
        !(!s.in_frame && first_marker(a, MARKER_PREFIX, SOI).is_none() && a[a.len() - 1]
            == MARKER_PREFIX && b[0] == SOI),
    ensures
        ((s.in_frame || first_marker(a, MARKER_PREFIX, SOI).is_some()) && step(s, a + b) == step(
            s,
            a,
        )) || carried_on(step(s, a), step(s, a + b), step(step(s, a).state, b), a.len() as int),
{
    let whole = a + b;
    if s.in_frame {
        lemma_collect_split(s, a, b, 0);
    } else {
        lemma_first_marker_cases(a, MARKER_PREFIX, SOI);
        match first_marker(a, MARKER_PREFIX, SOI) {
            Some(i) => {
                lemma_first_marker_prefix(a, b, MARKER_PREFIX, SOI);
                assert(marker_at(a, i, MARKER_PREFIX, SOI));
                let fresh = AccState { capacity: s.capacity, in_frame: true, data: Seq::empty() };
                let ra = a.skip(i);
                assert(whole.skip(i) =~= ra + b);
                lemma_collect_split(fresh, ra, b, i);
            },
            None => {
                let n = a.len() as int;
                assert forall|j: int| 0 <= j < n implies !marker_at(
                    whole,
                    j,
                    MARKER_PREFIX,
                    SOI,
                ) by {
                    if j + 1 < n {
                        assert(!marker_at(a, j, MARKER_PREFIX, SOI));
                        assert(whole[j] == a[j]);
                        assert(whole[j + 1] == a[j + 1]);
                    } else {
                        assert(whole[j] == a[n - 1]);
                        assert(whole[j + 1] == b[0]);
                    }
                }
                lemma_first_marker_skip(whole, n, MARKER_PREFIX, SOI);
                assert(whole.skip(n) =~= b);
                match first_marker(b, MARKER_PREFIX, SOI) {
                    Some(k) => {
                        lemma_first_marker_cases(b, MARKER_PREFIX, SOI);
                        assert(marker_at(b, k, MARKER_PREFIX, SOI));
                        assert(whole.skip(k + n) =~= b.skip(k));
                    },
                    None => {},
                }
            },
        }
    }
}

/// Marker-split law. Feeding `a` and then `b` leaves the same state and
/// completes the same frames, in the same order, as feeding `a + b` at
/// once, wherever the cut falls: inside a frame, between the two bytes of
/// an end-of-image marker, or between the two bytes of a start-of-image
/// marker that lies inside a frame. The one cut left out is that through a
/// start-of-image marker which the search at the end of `a` was looking
/// for: such a marker is missed by rule.
pub proof fn lemma_split_chunks(s: AccState, a: Seq<u8>, b: Seq<u8>)
    requires
        valid(s),
        !marker_straddles(s, a, b),
    ensures
        run(s, a + b).state == run_two(s, a, b).0,
        run(s, a + b).frames == run_two(s, a, b).1,
    decreases a.len(),
{
    let whole = a + b;
    if a.len() == 0 {
        assert(whole =~= b);
        assert(run(s, a).frames + run(s, b).frames =~= run(s, b).frames);
    } else if b.len() == 0 {
        assert(whole =~= a);
        assert(run(s, a).frames + run(run(s, a).state, b).frames =~= run(s, a).frames);
    } else {
        lemma_step_split(s, a, b);
        lemma_run_unfold(s, a);
        lemma_run_unfold(s, whole);
        lemma_step_bounds(s, a);
        let oa = step(s, a);
        let ow = step(s, whole);
        if (s.in_frame || first_marker(a, MARKER_PREFIX, SOI).is_some()) && ow == oa {
            let c = oa.consumed;
            let rest = a.skip(c);
            assert(whole.skip(c) =~= rest + b);
            assert(ends_searching(s, a) == ends_searching(oa.state, rest));
            if rest.len() > 0 {
                assert(rest[rest.len() - 1] == a[a.len() - 1]);
            }
            lemma_split_chunks(oa.state, rest, b);
            let tail_a = run(oa.state, rest);
            let tail_b = run(tail_a.state, b);
            match oa.frame {
                Some(f) => {
                    assert(seq![f] + (tail_a.frames + tail_b.frames) =~= (seq![f]
                        + tail_a.frames) + tail_b.frames);
                },
                None => {},
            }
        } else {
            let ob = step(oa.state, b);
            assert(a.skip(oa.consumed) =~= Seq::<u8>::empty());
            assert(run(s, a).state == oa.state);
            assert(run(s, a).frames =~= Seq::<Seq<u8>>::empty());
            lemma_run_unfold(oa.state, b);
            assert(whole.skip(ow.consumed) =~= b.skip(ob.consumed));
            assert(run(s, a).frames + run(oa.state, b).frames =~= run(oa.state, b).frames);
        }
    }
}

/// One whole frame in two chunks. A frame that fits the buffer, fed between
/// frames and cut anywhere behind its start-of-image marker, the cut
/// between the two bytes of its end-of-image marker included, is completed
/// as if it had come in one chunk.
pub proof fn lemma_frame_in_two_chunks(capacity: nat, frame: Seq<u8>, cut: int)
    requires
        whole_frame(frame),
        frame.len() <= capacity,
        2 <= cut <= frame.len(),
    ensures
        run_two(idle(capacity), frame.take(cut), frame.skip(cut)) == (
            idle(capacity),
            seq![frame],
        ),
{
    let s = idle(capacity);
    let a = frame.take(cut);
    let b = frame.skip(cut);
    assert(a + b =~= frame);
    assert(Seq::<u8>::empty() + frame =~= frame);
    lemma_first_marker_none(Seq::<u8>::empty(), MARKER_PREFIX, SOI);
    lemma_single_frame(capacity, Seq::empty(), frame);
    assert(!ends_searching(s, a)) by {
        assert(marker_at(a, 0, MARKER_PREFIX, SOI));
        lemma_first_marker_is(a, MARKER_PREFIX, SOI, 0);
        assert(a.skip(0) =~= a);
        assert(a.take(cut) =~= a);
        let fresh = AccState { capacity, in_frame: true, data: Seq::empty() };
        assert(fresh.data + a =~= a);
        lemma_first_marker_cases(a, MARKER_PREFIX, EOI);
        lemma_first_marker_cases(frame, MARKER_PREFIX, EOI);
        match first_marker(a, MARKER_PREFIX, EOI) {
            Some(e) => {
                assert(marker_at(a, e, MARKER_PREFIX, EOI));
                assert(marker_at(frame, e, MARKER_PREFIX, EOI));
                if e < frame.len() - 2 {
                    assert(!marker_at(frame, e, MARKER_PREFIX, EOI));
                }
            },
            None => {},
        }
        let o = step(s, a);
        assert(o == collect(fresh, a, 0));
        assert(o.consumed == a.len());
        assert(a.skip(o.consumed).len() == 0);
        assert(!ends_searching(o.state, a.skip(o.consumed)));
    }
    lemma_split_chunks(s, a, b);
}

} // verus!
