//! Two-byte marker search in byte sequences.

use vstd::prelude::*;

verus! {

/// First byte of every JPEG marker.
pub const MARKER_PREFIX: u8 = 0xFF;

/// Second byte of the start-of-image marker.
pub const SOI: u8 = 0xD8;

/// Second byte of the end-of-image marker.
pub const EOI: u8 = 0xD9;

/// The two bytes `b0 b1` stand at offsets `i` and `i + 1` of `data`.
pub open spec fn marker_at(data: Seq<u8>, i: int, b0: u8, b1: u8) -> bool {
    0 <= i && i + 1 < data.len() && data[i] == b0 && data[i + 1] == b1
}

/// Some offset of `data` holds the marker `b0 b1`.
pub open spec fn has_marker(data: Seq<u8>, b0: u8, b1: u8) -> bool {
    exists|i: int| marker_at(data, i, b0, b1)
}

/// `i` is the lowest offset of `data` that holds the marker `b0 b1`.
pub open spec fn is_first_marker(data: Seq<u8>, i: int, b0: u8, b1: u8) -> bool {
    marker_at(data, i, b0, b1) && forall|j: int| 0 <= j < i ==> !marker_at(data, j, b0, b1)
}

/// The lowest offset of `data` that holds the marker `b0 b1`, if any does.
pub open spec fn first_marker(data: Seq<u8>, b0: u8, b1: u8) -> Option<int> {
    if has_marker(data, b0, b1) {
        Some(choose|i: int| is_first_marker(data, i, b0, b1))
    } else {
        None
    }
}

/// A lowest offset exists whenever any offset holds the marker.
pub proof fn lemma_first_marker_exists(data: Seq<u8>, b0: u8, b1: u8, k: int)
    requires
        marker_at(data, k, b0, b1),
    ensures
        exists|i: int| is_first_marker(data, i, b0, b1),
    decreases k,
{
    if exists|j: int| 0 <= j < k && marker_at(data, j, b0, b1) {
        let j = choose|j: int| 0 <= j < k && marker_at(data, j, b0, b1);
        lemma_first_marker_exists(data, b0, b1, j);
    } else {
        assert(is_first_marker(data, k, b0, b1));
    }
}

/// `first_marker` is `Some(i)` exactly for the lowest matching offset `i`.
pub proof fn lemma_first_marker_is(data: Seq<u8>, b0: u8, b1: u8, i: int)
    requires
        is_first_marker(data, i, b0, b1),
    ensures
        first_marker(data, b0, b1) == Some(i),
{
    assert(marker_at(data, i, b0, b1));
    let c = choose|c: int| is_first_marker(data, c, b0, b1);
    assert(is_first_marker(data, c, b0, b1));
    if c < i {
        assert(!marker_at(data, c, b0, b1));
    }
    if i < c {
        assert(!marker_at(data, i, b0, b1));
    }
}

/// `first_marker` is `None` exactly when no offset matches.
pub proof fn lemma_first_marker_none(data: Seq<u8>, b0: u8, b1: u8)
    requires
        forall|j: int| !marker_at(data, j, b0, b1),
    ensures
        first_marker(data, b0, b1) == None::<int>,
{
}

/// What `first_marker` returns, unfolded: a matching offset with none before
/// it, or `None` with no match at all.
pub proof fn lemma_first_marker_cases(data: Seq<u8>, b0: u8, b1: u8)
    ensures
        match first_marker(data, b0, b1) {
            Some(i) => is_first_marker(data, i, b0, b1),
            None => forall|j: int| !marker_at(data, j, b0, b1),
        },
{
    if has_marker(data, b0, b1) {
        let k = choose|k: int| marker_at(data, k, b0, b1);
        lemma_first_marker_exists(data, b0, b1, k);
    }
}

/// Bytes appended behind a sequence do not change where its first marker
/// stands.
pub proof fn lemma_first_marker_prefix(x: Seq<u8>, y: Seq<u8>, b0: u8, b1: u8)
    requires
        first_marker(x, b0, b1).is_some(),
    ensures
        first_marker(x + y, b0, b1) == first_marker(x, b0, b1),
{
    lemma_first_marker_cases(x, b0, b1);
    let i = first_marker(x, b0, b1).unwrap();
    assert(marker_at(x, i, b0, b1));
    assert(marker_at(x + y, i, b0, b1));
    assert forall|j: int| 0 <= j < i implies !marker_at(x + y, j, b0, b1) by {
        assert(!marker_at(x, j, b0, b1));
    }
    lemma_first_marker_is(x + y, b0, b1, i);
}

/// Where no marker starts in the first `q` offsets, the first marker is
/// that of the rest, `q` offsets further on.
pub proof fn lemma_first_marker_skip(x: Seq<u8>, q: int, b0: u8, b1: u8)
    requires
        0 <= q <= x.len(),
        forall|j: int| 0 <= j < q ==> !marker_at(x, j, b0, b1),
    ensures
        first_marker(x, b0, b1) == match first_marker(x.skip(q), b0, b1) {
            Some(e) => Some(e + q),
            None => None,
        },
{
    let tail = x.skip(q);
    lemma_first_marker_cases(tail, b0, b1);
    match first_marker(tail, b0, b1) {
        Some(e) => {
            assert(marker_at(tail, e, b0, b1));
            assert(marker_at(x, e + q, b0, b1));
            assert forall|j: int| 0 <= j < e + q implies !marker_at(x, j, b0, b1) by {
                if j >= q {
                    assert(!marker_at(tail, j - q, b0, b1));
                }
            }
            lemma_first_marker_is(x, b0, b1, e + q);
        },
        None => {
            assert forall|j: int| !marker_at(x, j, b0, b1) by {
                if j >= q {
                    assert(!marker_at(tail, j - q, b0, b1));
                }
            }
            lemma_first_marker_none(x, b0, b1);
        },
    }
}

/// Finds the first occurrence of the two-byte marker `b0 b1` in `data`.
pub fn find_marker(data: &[u8], b0: u8, b1: u8) -> (found: Option<usize>)
    ensures
        match found {
            Some(i) => first_marker(data@, b0, b1) == Some(i as int),
            None => first_marker(data@, b0, b1) == None::<int>,
        },
{
    let n: usize = data.len();
    let mut i: usize = 0;
    while i < n && i + 1 < n
        invariant
            n == data@.len(),
            i <= n,
            forall|j: int| 0 <= j < i ==> !marker_at(data@, j, b0, b1),
        decreases n - i,
    {
        if data[i] == b0 && data[i + 1] == b1 {
            proof {
                assert(is_first_marker(data@, i as int, b0, b1));
                lemma_first_marker_is(data@, b0, b1, i as int);
            }
            return Some(i);
        }
        i = i + 1;
    }
    proof {
        assert forall|j: int| !marker_at(data@, j, b0, b1) by {
            if marker_at(data@, j, b0, b1) {
                assert(j < i);
            }
        }
        lemma_first_marker_none(data@, b0, b1);
    }
    None
}

} // verus!
