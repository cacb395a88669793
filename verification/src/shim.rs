//! Aligned, zeroed allocations on top of a heap that hands out plain byte
//! blocks and keeps no record of them. Each block carries, right before
//! the address that the user sees, two machine words: the block's size and,
//! nearest to the user, the block's own address. Releasing reads them back.

use vstd::prelude::*;
use crate::words::{
    get_word, le_value, lemma_word_le_len, lemma_word_range,
    lemma_word_round_trip, put_word, word_bytes, word_le, word_size,
};

verus! {

/// The bytes that the two words before the user's address take.
pub open spec fn meta_bytes() -> nat {
    2 * word_bytes()
}

/// The size of the block that serves `count` items of `size` bytes at
/// alignment `align`: the items, the two words, and `align` bytes of slack.
pub open spec fn planned_total(count: usize, size: usize, align: usize) -> int {
    count * size + meta_bytes() + align
}

/// A request can be served: it asks for at least one item and a real
/// alignment, and its block's size is a size that the machine can count.
pub open spec fn plannable(count: usize, size: usize, align: usize) -> bool {
    count >= 1 && align >= 1 && planned_total(count, size, align) <= usize::MAX
}

/// The least multiple of `align` that is not below `addr`.
pub open spec fn aligned_up(addr: int, align: int) -> int {
    if addr % align == 0 {
        addr
    } else {
        addr + (align - addr % align)
    }
}

/// How far behind the block's address `raw` the user's address lies: the
/// two words are skipped, and then as little as reaches the alignment.
pub open spec fn user_offset(raw: usize, align: usize) -> int {
    aligned_up(raw + meta_bytes(), align as int) - raw
}

/// The two words as they stand before the user's address: the block's
/// size, then the block's address.
pub open spec fn header_bytes(raw: usize, total: usize) -> Seq<u8> {
    word_le(total as nat, word_bytes()) + word_le(raw as nat, word_bytes())
}

/// The block's address that `header` holds.
pub open spec fn header_raw(header: Seq<u8>) -> nat {
    le_value(header.subrange(word_bytes() as int, meta_bytes() as int))
}

/// The block's size that `header` holds.
pub open spec fn header_total(header: Seq<u8>) -> nat {
    le_value(header.subrange(0, word_bytes() as int))
}

/// A block of `total` bytes set up for use: zero everywhere but in the two
/// words before offset `offset`.
pub open spec fn placed(total: usize, offset: int, raw: usize) -> Seq<u8> {
    Seq::new(
        total as nat,
        |i: int|
            if offset - meta_bytes() <= i < offset {
                header_bytes(raw, total)[i - (offset - meta_bytes())]
            } else {
                0u8
            },
    )
}

/// Rounding up reaches a multiple of the alignment, by less than one
/// alignment.
pub proof fn lemma_aligned_up(addr: int, align: int)
    requires
        addr >= 0,
        align >= 1,
    ensures
        aligned_up(addr, align) % align == 0,
        addr <= aligned_up(addr, align) < addr + align,
{
    let r = addr % align;
    assert(0 <= r < align) by (nonlinear_arith)
        requires
            r == addr % align,
            align >= 1,
    ;
    if r != 0 {
        let q = addr / align;
        assert(addr == q * align + r) by (nonlinear_arith)
            requires
                q == addr / align,
                r == addr % align,
                align >= 1,
        ;
        assert((addr + (align - r)) % align == 0) by (nonlinear_arith)
            requires
                addr == q * align + r,
                align >= 1,
        ;
    }
}

/// The header round trip: the two words written before the user's address
/// give back the block's address and size.
pub proof fn lemma_header_round_trip(raw: usize, total: usize)
    ensures
        header_bytes(raw, total).len() == meta_bytes(),
        header_raw(header_bytes(raw, total)) == raw,
        header_total(header_bytes(raw, total)) == total,
{
    let w = word_bytes();
    lemma_word_range();
    lemma_word_le_len(total as nat, w);
    lemma_word_le_len(raw as nat, w);
    lemma_word_round_trip(total as nat, w);
    lemma_word_round_trip(raw as nat, w);
    let h = header_bytes(raw, total);
    assert(h.subrange(0, w as int) =~= word_le(total as nat, w));
    assert(h.subrange(w as int, (2 * w) as int) =~= word_le(raw as nat, w));
}

/// Placement. For every request that can be served and every block
/// address, the user's address is a multiple of the alignment, the two
/// words fit between the block's start and the user's address, and the
/// items fit between the user's address and the block's end.
pub proof fn lemma_placement(raw: usize, count: usize, size: usize, align: usize)
    requires
        plannable(count, size, align),
    ensures
        (raw + user_offset(raw, align)) % (align as int) == 0,
        meta_bytes() <= user_offset(raw, align) < meta_bytes() + align,
        user_offset(raw, align) + count * size < planned_total(count, size, align),
{
    lemma_aligned_up(raw + meta_bytes(), align as int);
    assert(count * size >= 0) by (nonlinear_arith)
        requires
            count >= 0,
            size >= 0,
    ;
}

/// What a release finds: in a block set up with the user's address at
/// offset `offset`, the bytes right before that address are the two words,
/// and they give back the block's address and size. Every other byte of the
/// block is zero.
pub proof fn lemma_placed_header(total: usize, offset: int, raw: usize)
    requires
        meta_bytes() <= offset <= total,
    ensures
        placed(total, offset, raw).len() == total,
        placed(total, offset, raw).subrange(offset - meta_bytes(), offset) == header_bytes(
            raw,
            total,
        ),
        header_raw(placed(total, offset, raw).subrange(offset - meta_bytes(), offset)) == raw,
        header_total(placed(total, offset, raw).subrange(offset - meta_bytes(), offset)) == total,
        forall|i: int|
            0 <= i < total && !(offset - meta_bytes() <= i < offset) ==> #[trigger] placed(
                total,
                offset,
                raw,
            )[i] == 0,
{
    lemma_header_round_trip(raw, total);
    assert(placed(total, offset, raw).subrange(offset - meta_bytes(), offset) =~= header_bytes(
        raw,
        total,
    ));
}

/// A request that can be served: the size of its items, its alignment, and
/// the size of its block.
pub struct ShimLayout {
    payload: usize,
    align: usize,
    total: usize,
}

impl ShimLayout {
    #[verifier::type_invariant]
    spec fn consistent(self) -> bool {
        self.align >= 1 && self.total == self.payload + meta_bytes() + self.align
    }

    /// The bytes that the items take.
    pub closed spec fn spec_payload(self) -> usize {
        self.payload
    }

    /// The alignment of the user's address.
    pub closed spec fn spec_align(self) -> usize {
        self.align
    }

    /// The bytes to ask the heap for.
    pub closed spec fn spec_total(self) -> usize {
        self.total
    }

    /// Plans the block for `count` items of `size` bytes at alignment
    /// `align`. There is none for no items, for no alignment, or where the
    /// block's size cannot be counted.
    pub fn plan(count: usize, size: usize, align: usize) -> (layout: Option<ShimLayout>)
        ensures
            layout.is_some() == plannable(count, size, align),
            match layout {
                Some(l) => l.spec_payload() == count * size && l.spec_align() == align
                    && l.spec_total() == planned_total(count, size, align),
                None => true,
            },
    {
        if count == 0 || align == 0 {
            return None;
        }
        let w: usize = word_size();
        let meta: usize = 2 * w;
        assert(count * size >= 0) by (nonlinear_arith)
            requires
                count >= 0,
                size >= 0,
        ;
        match count.checked_mul(size) {
            None => None,
            Some(payload) => match payload.checked_add(meta) {
                None => None,
                Some(with_meta) => match with_meta.checked_add(align) {
                    None => None,
                    Some(total) => Some(ShimLayout { payload, align, total }),
                },
            },
        }
    }

    /// The bytes that the items take.
    pub fn payload(&self) -> (n: usize)
        ensures
            n == self.spec_payload(),
    {
        self.payload
    }

    /// The alignment of the user's address.
    pub fn align(&self) -> (n: usize)
        ensures
            n == self.spec_align(),
    {
        self.align
    }

    /// The bytes to ask the heap for, at no alignment: the items, the two
    /// words and the slack.
    pub fn total(&self) -> (n: usize)
        ensures
            n == self.spec_total(),
            n == self.spec_payload() + meta_bytes() + self.spec_align(),
            self.spec_align() >= 1,
    {
        proof {
            use_type_invariant(self);
        }
        self.total
    }

    /// Sets up the block that the heap gave at address `raw`: zeroes it,
    /// writes the two words, and returns how far behind `raw` the user's
    /// address lies. Nothing is done where `block` is not the block that
    /// was planned, or would not lie in the address space.
    pub fn place(&self, block: &mut [u8], raw: usize) -> (offset: Option<usize>)
        ensures
            offset.is_some() == (old(block)@.len() == self.spec_total() && raw + self.spec_total()
                <= usize::MAX),
            match offset {
                Some(off) => off == user_offset(raw, self.spec_align()) && final(block)@ == placed(
                    self.spec_total(),
                    off as int,
                    raw,
                ) && (raw + off) % (self.spec_align() as int) == 0 && meta_bytes() <= off && off
                    + self.spec_payload() < self.spec_total(),
                None => final(block)@ == old(block)@,
            },
    {
        proof {
            use_type_invariant(self);
        }
        let n: usize = block.len();
        if n != self.total {
            return None;
        }
        if raw > usize::MAX - self.total {
            return None;
        }
        let w: usize = word_size();
        let meta: usize = 2 * w;
        let base: usize = raw + meta;
        let rem: usize = base % self.align;
        let off: usize = if rem == 0 { meta } else { meta + (self.align - rem) };
        proof {
            lemma_aligned_up(base as int, self.align as int);
        }
        let mut i: usize = 0;
        while i < n
            invariant
                i <= n,
                n == block@.len(),
                forall|j: int| 0 <= j < i ==> block@[j] == 0,
            decreases n - i,
        {
            block[i] = 0;
            i = i + 1;
        }
        put_word(block, off - meta, self.total);
        put_word(block, off - w, raw);
        proof {
            let h = header_bytes(raw, self.total);
            lemma_word_le_len(self.total as nat, w as nat);
            lemma_word_le_len(raw as nat, w as nat);
            let want = placed(self.total, off as int, raw);
            assert forall|j: int| 0 <= j < n implies block@[j] == want[j] by {
                if off - meta <= j < off - w {
                    assert(block@.subrange(off - meta, off - w)[j - (off - meta)] == block@[j]);
                    assert(h[j - (off - meta)] == word_le(self.total as nat, w as nat)[j - (off
                        - meta)]);
                } else if off - w <= j < off {
                    assert(block@.subrange(off - w, off as int)[j - (off - w)] == block@[j]);
                    assert(h[j - (off - meta)] == word_le(raw as nat, w as nat)[j - (off - w)]);
                }
            }
            assert(block@ =~= want);
        }
        Some(off)
    }
}

/// Reads back, from the bytes that stand right before a user's address,
/// the address and the size of the block to release. There are none where
/// `header` is not the two words.
pub fn recover(header: &[u8]) -> (found: Option<(usize, usize)>)
    ensures
        found.is_some() == (header@.len() == meta_bytes()),
        match found {
            Some((raw, total)) => raw == header_raw(header@) && total == header_total(header@),
            None => true,
        },
{
    let w: usize = word_size();
    if header.len() != 2 * w {
        return None;
    }
    let total: usize = get_word(header, 0);
    let raw: usize = get_word(header, w);
    Some((raw, total))
}

} // verus!
