//! The windowed (vector) scan strategies.
//!
//! Both strategies follow the same plan as the hardware-accelerated scans
//! they model: a scalar preflight over the unaligned tail of the view, so
//! that every window load would start at an address aligned to the vector
//! width; a loop that reduces one window of bytes at a time to a bitmask
//! with bit `k` set iff byte `k` of the window equals the delimiter; and
//! match resolution from the most significant end of the mask, because the
//! mask's bit order is the reverse of the back-to-front scan order. All
//! address arithmetic is done on a numeric view of the buffer's base
//! address, handed in by the caller; the proved contract is the same for
//! every address, which is exactly the statement that window placement can
//! never change the output.

use vstd::prelude::*;
use vstd::slice::slice_index_get;
use crate::scalar::{emit, slow_search_and_print};
use crate::segments::{
    emitted_between,
    lemma_emitted_no_delim,
    lemma_emitted_split,
    lemma_scan_complete,
    lemma_seg_end_bounds,
    lemma_seg_end_no_delim,
    rev_segments,
    seg_end_from,
};

verus! {

/// Bit `k` of a 64-bit match mask.
pub open spec fn mask_bit(m: u64, k: int) -> bool {
    0 <= k < 64 && (m >> (k as u64)) & 1u64 == 1u64
}

/// Setting bit `kk` leaves every other bit unchanged.
proof fn lemma_mask_set(m0: u64, kk: u64)
    by (bit_vector)
    requires
        kk < 64,
    ensures
        forall|j: u64|
            j < 64 ==> #[trigger] ((m0 | (1u64 << kk)) >> j) & 1u64 == (if j == kk {
                1u64
            } else {
                (m0 >> j) & 1u64
            }),
{
}

/// Clearing bit `kk` leaves every other bit unchanged, and strictly
/// decreases the mask when the bit was set.
proof fn lemma_mask_clear(m0: u64, kk: u64)
    by (bit_vector)
    requires
        kk < 64,
    ensures
        forall|j: u64|
            j < 64 ==> #[trigger] ((m0 & !(1u64 << kk)) >> j) & 1u64 == (if j == kk {
                0u64
            } else {
                (m0 >> j) & 1u64
            }),
        (m0 >> kk) & 1u64 == 1u64 ==> (m0 & !(1u64 << kk)) < m0,
{
}

/// A single bit is zero or one.
proof fn lemma_mask_bit_binary(m: u64, s: u64)
    by (bit_vector)
    ensures
        (m >> s) & 1u64 == 0u64 || (m >> s) & 1u64 == 1u64,
{
}

/// Shifting a 64-bit mask by its full width clears it.
proof fn lemma_mask_shift_all(m: u64)
    by (bit_vector)
    ensures
        m >> 64u64 == 0u64,
{
}

/// One step of the leading-zero scan: if everything above bit `s1` is zero
/// and bit `s1` is zero too, everything from bit `s1` up is zero.
proof fn lemma_mask_lz_step(m: u64, s1: u64, s2: u64)
    by (bit_vector)
    requires
        s1 < 64,
        s2 == s1 + 1,
    ensures
        (m >> s2 == 0u64 && (m >> s1) & 1u64 == 0u64) ==> m >> s1 == 0u64,
{
}

/// A mask whose value shifted by `s` is zero has no set bit at or above `s`.
proof fn lemma_mask_high_zero(m: u64, s: u64)
    by (bit_vector)
    requires
        m >> s == 0u64,
    ensures
        forall|j: u64| s <= j < 64 ==> #[trigger] ((m >> j) & 1u64) == 0u64,
{
}

/// One vector compare plus movemask over the `width`-byte window that starts
/// at `base`: bit `k` of the result is set iff `bytes[base + k]` equals the
/// separator, and every bit at or above `width` is clear. The 256-bit
/// strategy reduces 32-byte windows, the 128-bit strategy 16-byte windows.
fn window_movemask(bytes: &[u8], base: usize, width: usize, separator: u8) -> (mask: u64)
    requires
        width <= 64,
        base + width <= bytes@.len(),
    ensures
        forall|k: int| 0 <= k < width ==> (mask_bit(mask, k) <==> bytes@[base + k] == separator),
        forall|k: int| width <= k < 64 ==> !mask_bit(mask, k),
{
    let len = bytes.len();
    let mut mask: u64 = 0;
    let mut k: usize = 0;
    proof {
        assert(forall|j: u64| j < 64 ==> (0u64 >> j) & 1u64 == 0u64) by (bit_vector);
    }
    while k < width
        invariant
            k <= width <= 64,
            len == bytes@.len(),
            base + width <= len,
            forall|j: int| 0 <= j < k ==> (mask_bit(mask, j) <==> bytes@[base + j] == separator),
            forall|j: int| k <= j < 64 ==> !mask_bit(mask, j),
        decreases width - k,
    {
        if *slice_index_get(bytes, base + k) == separator {
            let ghost m0 = mask;
            let kk: u64 = k as u64;
            mask = mask | (1u64 << kk);
            proof {
                lemma_mask_set(m0, kk);
                assert forall|j: int| 0 <= j < 64 implies (mask_bit(mask, j) <==> (j == k
                    || mask_bit(m0, j))) by {
                    let ju = j as u64;
                    assert(((m0 | (1u64 << kk)) >> ju) & 1u64 == (if ju == kk {
                        1u64
                    } else {
                        (m0 >> ju) & 1u64
                    }));
                }
            }
        }
        k = k + 1;
    }
    mask
}

/// The number of leading zero bits of a nonzero match mask. Matches are
/// resolved from the most significant end, so the next match sits at bit
/// `63 - lz`, and every bit above it is clear.
fn leading_zero_count(mask: u64) -> (lz: usize)
    requires
        mask != 0,
    ensures
        lz < 64,
        mask_bit(mask, 63 - lz as int),
        forall|j: int| 63 - lz < j < 64 ==> !mask_bit(mask, j),
{
    let mut lz: usize = 0;
    proof {
        lemma_mask_shift_all(mask);
    }
    while lz < 64 && (mask >> ((63 - lz) as u64)) & 1u64 == 0u64
        invariant
            lz <= 64,
            mask >> ((64 - lz) as u64) == 0u64,
        decreases 64 - lz,
    {
        proof {
            lemma_mask_lz_step(mask, (63 - lz) as u64, (64 - lz) as u64);
        }
        lz = lz + 1;
    }
    proof {
        if lz == 64 {
            assert(mask >> 0u64 == mask) by (bit_vector);
            assert(false);
        }
        lemma_mask_bit_binary(mask, (63 - lz) as u64);
        assert(mask_bit(mask, 63 - lz as int));
        lemma_mask_high_zero(mask, (64 - lz) as u64);
        assert forall|j: int| 63 - lz < j < 64 implies !mask_bit(mask, j) by {
            let ju = j as u64;
            assert(((mask >> ju) & 1u64) == 0u64);
        }
    }
    lz
}

/// Resolve every match recorded in the mask of the window
/// `[window_end - width, window_end)`, from the highest set bit down: each
/// set bit marks a delimiter, emits the segment that starts just past it,
/// moves the cursor there, and is cleared exactly once before the next
/// highest bit is re-derived. The net effect equals a scalar scan of the
/// window.
fn resolve_matches(
    bytes: &[u8],
    window_end: usize,
    width: usize,
    mask: u64,
    stop: &mut usize,
    separator: u8,
    output: &mut Vec<u8>,
)
    requires
        0 < width <= 64,
        width <= window_end,
        window_end <= bytes@.len(),
        forall|k: int|
            0 <= k < width ==> (mask_bit(mask, k) <==> bytes@[window_end - width + k]
                == separator),
        forall|k: int| width <= k < 64 ==> !mask_bit(mask, k),
        *old(stop) == seg_end_from(bytes@, separator, window_end as int),
    ensures
        *final(stop) == seg_end_from(bytes@, separator, window_end - width),
        final(output)@ == old(output)@ + emitted_between(
            bytes@,
            separator,
            window_end - width,
            window_end as int,
        ),
{
    let ghost b = bytes@;
    let ghost out0 = output@;
    let ghost we = window_end as int;
    let ghost lo = we - width;
    let len = bytes.len();
    let mut rest: u64 = mask;
    let ghost mut cur: int = we;
    while rest != 0
        invariant
            0 < width <= 64,
            width <= window_end,
            window_end <= len,
            len == bytes@.len(),
            b == bytes@,
            we == window_end as int,
            lo == we - width,
            lo <= cur <= we,
            forall|k: int|
                0 <= k < width ==> (mask_bit(rest, k) <==> (lo + k < cur && b[lo + k]
                    == separator)),
            forall|k: int| width <= k < 64 ==> !mask_bit(rest, k),
            *stop == seg_end_from(b, separator, cur),
            output@ == out0 + emitted_between(b, separator, cur, we),
        decreases rest,
    {
        let leading: usize = leading_zero_count(rest);
        let m: usize = 63 - leading;
        proof {
            assert(mask_bit(rest, m as int));
            assert(m < width);
            assert(lo + m < cur && b[lo + m] == separator);
        }
        // the absolute position of this match is `window_end - width + m`;
        // the segment to emit starts one past it
        let offset: usize = window_end - width + m + 1;
        proof {
            assert(offset as int == lo + m + 1);
            assert forall|q: int| offset <= q < cur implies b[q] != separator by {
                let k = q - lo;
                assert(m < k < width);
                assert(!mask_bit(rest, k));
            }
            lemma_seg_end_bounds(b, separator, cur);
            lemma_seg_end_no_delim(b, separator, offset as int, cur);
            lemma_seg_end_bounds(b, separator, offset as int);
            assert(*stop == seg_end_from(b, separator, offset as int));
        }
        emit(output, bytes, offset, *stop);
        let ghost stop0 = *stop as int;
        *stop = offset;
        let ghost rest0 = rest;
        let shift: u64 = 63 - (leading as u64);
        rest = rest & !(1u64 << shift);
        proof {
            let p = lo + m;
            assert(shift == m as u64);
            assert((m as int) as u64 == shift);
            lemma_mask_clear(rest0, shift);
            assert((rest0 >> shift) & 1u64 == 1u64);
            assert(rest < rest0);
            assert forall|j: int| 0 <= j < 64 implies (mask_bit(rest, j) <==> (j != m as int
                && mask_bit(rest0, j))) by {
                let ju = j as u64;
                assert(((rest0 & !(1u64 << shift)) >> ju) & 1u64 == (if ju == shift {
                    0u64
                } else {
                    (rest0 >> ju) & 1u64
                }));
            }
            // what this iteration emitted: exactly the one segment that the
            // scalar scan of `[p, cur)` would emit at the delimiter `p`
            lemma_seg_end_bounds(b, separator, p + 1);
            lemma_emitted_split(b, separator, p, cur, we);
            lemma_emitted_split(b, separator, p, p + 1, cur);
            lemma_emitted_no_delim(b, separator, p + 1, cur);
            lemma_seg_end_no_delim(b, separator, p + 1, cur);
            assert(emitted_between(b, separator, p, p) == Seq::<u8>::empty());
            let w = b.subrange(p + 1, seg_end_from(b, separator, p + 1));
            assert(emitted_between(b, separator, p, p + 1) =~= w);
            assert(emitted_between(b, separator, p, cur) =~= w);
            assert(w == b.subrange(p + 1, stop0));
            assert((out0 + emitted_between(b, separator, cur, we)) + w =~= out0 + (
            emitted_between(b, separator, cur, we) + emitted_between(b, separator, p, cur)));
            cur = p;
            assert(output@ =~= out0 + emitted_between(b, separator, cur, we));
            assert(seg_end_from(b, separator, p) == p + 1);
            assert forall|k: int|
                0 <= k < width implies (mask_bit(rest, k) <==> (lo + k < cur && b[lo + k]
                    == separator)) by {
                if k < m as int {
                    assert(lo + k < p);
                } else if k > m as int {
                    assert(!mask_bit(rest0, k));
                }
            }
        }
    }
    proof {
        assert(forall|j: u64| j < 64 ==> (0u64 >> j) & 1u64 == 0u64) by (bit_vector);
        assert forall|q: int| lo <= q < cur implies b[q] != separator by {
            let k = q - lo;
            let ku = k as u64;
            assert((0u64 >> ku) & 1u64 == 0u64);
            assert(!mask_bit(rest, k));
        }
        lemma_seg_end_no_delim(b, separator, lo, cur);
        lemma_emitted_no_delim(b, separator, lo, cur);
        lemma_emitted_split(b, separator, lo, cur, we);
        assert(output@ =~= out0 + emitted_between(b, separator, lo, we));
    }
}

/// Distance from the address `addr + index` up to the next multiple of
/// `align`: the address-arithmetic form of a pointer alignment offset.
/// It decides only where the aligned windows fall; the scan's output never
/// depends on it.
fn align_offset_from(addr: usize, index: usize, align: usize) -> (r: usize)
    requires
        0 < align <= 64,
    ensures
        r < align,
        (addr as int + index as int + r) % (align as int) == 0,
{
    let rem = ((addr % align) + (index % align)) % align;
    proof {
        vstd::arithmetic::div_mod::lemma_add_mod_noop(addr as int, index as int, align as int);
    }
    if rem == 0 {
        0
    } else {
        proof {
            vstd::arithmetic::div_mod::lemma_add_mod_noop(
                addr as int + index as int,
                (align - rem) as int,
                align as int,
            );
            vstd::arithmetic::div_mod::lemma_small_mod((align - rem) as nat, align as nat);
            vstd::arithmetic::div_mod::lemma_mod_self_0(align as int);
        }
        align - rem
    }
}

/// Bytes per window of the 256-bit strategy; also the alignment its window
/// loads would require.
pub const VECTOR256_WIDTH: usize = 32;

/// Bytes per window of the 128-bit strategy; also the alignment its window
/// loads would require.
pub const VECTOR128_WIDTH: usize = 16;

/// The 256-bit vector scan strategy, over a numeric view `addr` of the
/// buffer's base address: a scalar preflight from the true end down to the
/// nearest 32-byte-aligned window boundary, then one 32-byte window per
/// iteration reduced to a match mask and resolved highest bit first, then a
/// scalar tail. The output equals the scalar strategy's for every `addr`,
/// which is precisely the guarantee that window placement cannot change,
/// duplicate or drop a segment.
pub fn search256(bytes: &[u8], addr: usize, separator: u8, output: &mut Vec<u8>)
    ensures
        final(output)@ == old(output)@ + rev_segments(bytes@, separator),
{
    let ghost b = bytes@;
    let ghost out0 = output@;
    let len = bytes.len();
    let mut last_printed: usize = len;
    let mut remaining: usize = len;
    proof {
        lemma_seg_end_bounds(b, separator, len as int);
        assert(seg_end_from(b, separator, len as int) == len as int);
        assert(emitted_between(b, separator, len as int, len as int) == Seq::<u8>::empty());
        assert(output@ =~= out0 + emitted_between(b, separator, len as int, len as int));
    }
    // guaranteed to leave at least two aligned windows for the vector loop
    if len >= VECTOR256_WIDTH * 3 - 1 {
        let align_offset = align_offset_from(addr, len, VECTOR256_WIDTH);
        if align_offset != 0 {
            // scan the unaligned tail by the scalar method so that every
            // window below starts at an aligned address
            let aligned_index = len - (VECTOR256_WIDTH - align_offset);
            slow_search_and_print(bytes, aligned_index, len, &mut last_printed, separator, output);
            remaining = aligned_index;
        }
        while remaining >= VECTOR256_WIDTH
            invariant
                remaining <= len,
                len == bytes@.len(),
                b == bytes@,
                last_printed == seg_end_from(b, separator, remaining as int),
                output@ == out0 + emitted_between(b, separator, remaining as int, len as int),
            decreases remaining,
        {
            let window_end = remaining;
            remaining = remaining - VECTOR256_WIDTH;
            let mask = window_movemask(bytes, remaining, VECTOR256_WIDTH, separator);
            resolve_matches(
                bytes,
                window_end,
                VECTOR256_WIDTH,
                mask,
                &mut last_printed,
                separator,
                output,
            );
            proof {
                lemma_emitted_split(b, separator, remaining as int, window_end as int, len as int);
                assert((out0 + emitted_between(b, separator, window_end as int, len as int))
                    + emitted_between(b, separator, remaining as int, window_end as int) =~= out0
                    + emitted_between(b, separator, remaining as int, len as int));
            }
        }
    }
    proof {
        assert(last_printed == seg_end_from(b, separator, remaining as int));
        assert(output@ == out0 + emitted_between(b, separator, remaining as int, len as int));
    }
    if remaining != 0 {
        slow_search_and_print(bytes, 0, remaining, &mut last_printed, separator, output);
        proof {
            lemma_emitted_split(b, separator, 0, remaining as int, len as int);
            assert((out0 + emitted_between(b, separator, remaining as int, len as int))
                + emitted_between(b, separator, 0, remaining as int) =~= out0 + emitted_between(
                b,
                separator,
                0,
                len as int,
            ));
        }
    }
    proof {
        lemma_seg_end_bounds(b, separator, 0);
    }
    emit(output, bytes, 0, last_printed);
    proof {
        lemma_scan_complete(b, separator);
        assert((out0 + emitted_between(b, separator, 0, len as int)) + b.take(
            seg_end_from(b, separator, 0),
        ) =~= out0 + rev_segments(b, separator));
    }
}

/// The 128-bit vector scan strategy: as [`search256`], but with 16-byte
/// windows aligned to 16 bytes, and a preflight measured from the index of
/// the last byte. The output equals the scalar strategy's for every `addr`.
pub fn search128(bytes: &[u8], addr: usize, separator: u8, output: &mut Vec<u8>)
    ensures
        final(output)@ == old(output)@ + rev_segments(bytes@, separator),
{
    let ghost b = bytes@;
    let ghost out0 = output@;
    let len = bytes.len();
    let mut last_printed: usize = len;
    // the index of the last byte; the windowed loop stays well below it
    let mut index: usize = if len > 0 {
        len - 1
    } else {
        0
    };
    proof {
        lemma_seg_end_bounds(b, separator, len as int);
        assert(seg_end_from(b, separator, len as int) == len as int);
        assert(emitted_between(b, separator, len as int, len as int) == Seq::<u8>::empty());
        if len > 0 {
            // the final byte alone emits nothing: even if it is a delimiter,
            // the segment past it is empty, and the cursor stays at the end
            assert(seg_end_from(b, separator, len - 1) == len as int);
            assert(emitted_between(b, separator, len - 1, len - 1) == Seq::<u8>::empty());
            assert(emitted_between(b, separator, len - 1, len as int) =~= Seq::<u8>::empty());
        }
        assert(last_printed == seg_end_from(b, separator, index as int));
        assert(output@ =~= out0 + emitted_between(b, separator, index as int, len as int));
    }
    if index >= 64 {
        let align_offset = align_offset_from(addr, index, VECTOR128_WIDTH);
        // scan the unaligned tail by the scalar method so that every window
        // below starts at an aligned address
        let aligned_index = index - VECTOR128_WIDTH + align_offset;
        slow_search_and_print(bytes, aligned_index, len, &mut last_printed, separator, output);
        index = aligned_index;
        while index >= VECTOR128_WIDTH
            invariant
                index <= len,
                len == bytes@.len(),
                b == bytes@,
                last_printed == seg_end_from(b, separator, index as int),
                output@ == out0 + emitted_between(b, separator, index as int, len as int),
            decreases index,
        {
            let window_end = index;
            index = index - VECTOR128_WIDTH;
            let mask = window_movemask(bytes, index, VECTOR128_WIDTH, separator);
            resolve_matches(
                bytes,
                window_end,
                VECTOR128_WIDTH,
                mask,
                &mut last_printed,
                separator,
                output,
            );
            proof {
                lemma_emitted_split(b, separator, index as int, window_end as int, len as int);
                assert((out0 + emitted_between(b, separator, window_end as int, len as int))
                    + emitted_between(b, separator, index as int, window_end as int) =~= out0
                    + emitted_between(b, separator, index as int, len as int));
            }
        }
    }
    proof {
        assert(last_printed == seg_end_from(b, separator, index as int));
        assert(output@ == out0 + emitted_between(b, separator, index as int, len as int));
    }
    if index != 0 {
        slow_search_and_print(bytes, 0, index, &mut last_printed, separator, output);
        proof {
            lemma_emitted_split(b, separator, 0, index as int, len as int);
            assert((out0 + emitted_between(b, separator, index as int, len as int))
                + emitted_between(b, separator, 0, index as int) =~= out0 + emitted_between(
                b,
                separator,
                0,
                len as int,
            ));
        }
    }
    proof {
        lemma_seg_end_bounds(b, separator, 0);
        assert(output@ == out0 + emitted_between(b, separator, 0, len as int));
    }
    emit(output, bytes, 0, last_printed);
    proof {
        lemma_scan_complete(b, separator);
        assert((out0 + emitted_between(b, separator, 0, len as int)) + b.take(
            seg_end_from(b, separator, 0),
        ) =~= out0 + rev_segments(b, separator));
    }
}

} // verus!
