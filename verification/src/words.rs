//! Machine words as bytes: a word is stored low byte first, in as many
//! bytes as an address takes.

use vstd::prelude::*;

verus! {

/// The bytes that one machine word takes.
pub open spec fn word_bytes() -> nat {
    (usize::BITS / 8) as nat
}

/// 256 to the power `n`.
pub open spec fn pow256(n: nat) -> nat
    decreases n,
{
    if n == 0 {
        1
    } else {
        256 * pow256((n - 1) as nat)
    }
}

/// The `n` low bytes of `v`, lowest first.
pub open spec fn word_le(v: nat, n: nat) -> Seq<u8>
    decreases n,
{
    if n == 0 {
        Seq::empty()
    } else {
        seq![(v % 256) as u8] + word_le(v / 256, (n - 1) as nat)
    }
}

/// The number whose bytes, lowest first, are `bytes`.
pub open spec fn le_value(bytes: Seq<u8>) -> nat
    decreases bytes.len(),
{
    if bytes.len() == 0 {
        0
    } else {
        bytes[0] as nat + 256 * le_value(bytes.skip(1))
    }
}

/// A machine word takes four or eight bytes, and its values are those
/// below 256 to that power.
pub proof fn lemma_word_range()
    ensures
        word_bytes() == 4 || word_bytes() == 8,
        pow256(word_bytes()) == usize::MAX + 1,
{
    reveal_with_fuel(pow256, 10);
    if usize::BITS == 32 {
        assert(pow256(4) == 0x1_0000_0000);
    } else {
        assert(pow256(8) == 0x1_0000_0000_0000_0000);
    }
}

/// `word_le` yields `n` bytes.
pub proof fn lemma_word_le_len(v: nat, n: nat)
    ensures
        word_le(v, n).len() == n,
    decreases n,
{
    if n > 0 {
        lemma_word_le_len(v / 256, (n - 1) as nat);
    }
}

/// The value of `n` bytes lies below 256 to the power `n`.
pub proof fn lemma_le_value_bound(bytes: Seq<u8>)
    ensures
        le_value(bytes) < pow256(bytes.len()),
    decreases bytes.len(),
{
    if bytes.len() > 0 {
        lemma_le_value_bound(bytes.skip(1));
    }
}

/// Word round trip: the bytes of a number that fits `n` bytes give the
/// number back.
pub proof fn lemma_word_round_trip(v: nat, n: nat)
    requires
        v < pow256(n),
    ensures
        le_value(word_le(v, n)) == v,
    decreases n,
{
    if n > 0 {
        let rest = word_le(v / 256, (n - 1) as nat);
        let all = word_le(v, n);
        assert(all.skip(1) =~= rest);
        assert(v / 256 < pow256((n - 1) as nat)) by (nonlinear_arith)
            requires
                v < 256 * pow256((n - 1) as nat),
        ;
        lemma_word_round_trip(v / 256, (n - 1) as nat);
        assert(all[0] == (v % 256) as u8);
        assert(v == v % 256 + 256 * (v / 256)) by (nonlinear_arith);
    }
}

/// The bytes of a number are the only bytes with its value: `n` bytes
/// that have the value `v` are `word_le(v, n)`.
pub proof fn lemma_bytes_of_value(bytes: Seq<u8>)
    ensures
        word_le(le_value(bytes), bytes.len()) == bytes,
    decreases bytes.len(),
{
    if bytes.len() > 0 {
        let v = le_value(bytes);
        let tail = bytes.skip(1);
        lemma_bytes_of_value(tail);
        let t = le_value(tail);
        assert(v % 256 == bytes[0] as nat && v / 256 == t) by (nonlinear_arith)
            requires
                v == bytes[0] as nat + 256 * t,
                0 <= bytes[0] as nat,
                (bytes[0] as nat) < 256,
        ;
        assert(word_le(v, bytes.len()) =~= bytes);
    } else {
        assert(word_le(le_value(bytes), bytes.len()) =~= bytes);
    }
}

/// The bytes that one machine word takes.
pub fn word_size() -> (w: usize)
    ensures
        w == word_bytes(),
        w == 4 || w == 8,
{
    let w: usize = (usize::BITS / 8) as usize;
    w
}

/// Writes the word `v` into `buf` at offset `at`, low byte first. The other
/// bytes of `buf` stay as they are.
pub fn put_word(buf: &mut [u8], at: usize, v: usize)
    requires
        at + word_bytes() <= old(buf)@.len(),
    ensures
        final(buf)@.len() == old(buf)@.len(),
        final(buf)@.subrange(at as int, at + word_bytes()) == word_le(v as nat, word_bytes()),
        forall|i: int|
            0 <= i < old(buf)@.len() && !(at <= i < at + word_bytes()) ==> final(buf)@[i] == old(buf)@[i],
{
    let w: usize = word_size();
    let n: usize = buf.len();
    let mut rest: usize = v;
    let mut k: usize = 0;
    proof {
        assert(buf@.subrange(at as int, at + 0) =~= Seq::<u8>::empty());
    }
    while k < w
        invariant
            k <= w,
            w == word_bytes(),
            n == buf@.len(),
            at + w <= n,
            buf@.len() == old(buf)@.len(),
            word_le(v as nat, w as nat) == buf@.subrange(at as int, at + k) + word_le(
                rest as nat,
                (w - k) as nat,
            ),
            forall|i: int|
                0 <= i < old(buf)@.len() && !(at <= i < at + w) ==> buf@[i] == old(buf)@[i],
        decreases w - k,
    {
        let ghost prev = buf@;
        let b: u8 = (rest % 256) as u8;
        buf[at + k] = b;
        proof {
            let tail = word_le((rest / 256) as nat, (w - k - 1) as nat);
            assert(word_le(rest as nat, (w - k) as nat) == seq![b] + tail);
            assert(buf@.subrange(at as int, at + k + 1) =~= prev.subrange(at as int, at + k)
                + seq![b]);
            assert(prev.subrange(at as int, at + k) + (seq![b] + tail) =~= (prev.subrange(
                at as int,
                at + k,
            ) + seq![b]) + tail);
        }
        rest = rest / 256;
        k = k + 1;
    }
    proof {
        assert(word_le(rest as nat, 0) =~= Seq::<u8>::empty());
        assert(buf@.subrange(at as int, at + w) + Seq::<u8>::empty() =~= buf@.subrange(
            at as int,
            at + w,
        ));
    }
}

/// Reads the word that stands in `buf` at offset `at`, low byte first.
pub fn get_word(buf: &[u8], at: usize) -> (v: usize)
    requires
        at + word_bytes() <= buf@.len(),
    ensures
        v == le_value(buf@.subrange(at as int, at + word_bytes())),
{
    let w: usize = word_size();
    let n: usize = buf.len();
    let mut acc: usize = 0;
    let mut k: usize = w;
    proof {
        lemma_word_range();
        assert(buf@.subrange(at + w, at + w) =~= Seq::<u8>::empty());
    }
    while k > 0
        invariant
            k <= w,
            w == word_bytes(),
            n == buf@.len(),
            at + w <= n,
            pow256(w as nat) == usize::MAX + 1,
            acc == le_value(buf@.subrange(at + k, at + w)),
        decreases k,
    {
        let ghost upper = buf@.subrange(at + k, at + w);
        let ghost lower = buf@.subrange(at + k - 1, at + w);
        let b: u8 = buf[at + k - 1];
        proof {
            assert(lower.skip(1) =~= upper);
            assert(lower[0] == b);
            lemma_le_value_bound(lower);
            lemma_pow256_monotonic(lower.len(), w as nat);
        }
        acc = acc * 256 + (b as usize);
        k = k - 1;
    }
    acc
}

/// A higher power of 256 is no smaller.
pub proof fn lemma_pow256_monotonic(a: nat, b: nat)
    requires
        a <= b,
    ensures
        pow256(a) <= pow256(b),
        pow256(a) >= 1,
    decreases b,
{
    if a < b {
        lemma_pow256_monotonic(a, (b - 1) as nat);
    } else if a > 0 {
        lemma_pow256_monotonic((a - 1) as nat, (b - 1) as nat);
    }
}

} // verus!
