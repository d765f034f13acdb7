//! The scalar scan strategy: the reference semantics every other strategy
//! must match byte for byte.
//!
//! The scan walks the byte view back to front, keeping one cursor `stop`,
//! the exclusive upper bound of the next segment to emit. Whenever it finds
//! the delimiter at position `i` it writes `bytes[i + 1 .. stop)` to the
//! sink and moves the cursor to `i + 1`; after the scan the prefix
//! `bytes[0 .. stop)` is written. The sink is an in-memory byte buffer; the
//! caller hands the finished buffer to whatever output destination it uses.

use vstd::prelude::*;
use vstd::slice::slice_index_get;
use crate::segments::{
    emitted_between,
    lemma_emitted_no_delim,
    lemma_emitted_split,
    lemma_scan_complete,
    lemma_seg_end_bounds,
    rev_segments,
    seg_end_from,
};

verus! {

/// Append `bytes[start .. end)` to the output buffer: the `write_all` of the
/// in-memory sink.
pub fn emit(output: &mut Vec<u8>, bytes: &[u8], start: usize, end: usize)
    requires
        start <= end,
        end <= bytes@.len(),
    ensures
        final(output)@ == old(output)@ + bytes@.subrange(start as int, end as int),
{
    let ghost out0 = output@;
    let mut k: usize = start;
    while k < end
        invariant
            start <= k <= end <= bytes@.len(),
            output@ == out0 + bytes@.subrange(start as int, k as int),
        decreases end - k,
    {
        output.push(*slice_index_get(bytes, k));
        k = k + 1;
        proof {
            assert(bytes@.subrange(start as int, k as int) =~= bytes@.subrange(
                start as int,
                k - 1,
            ).push(bytes@[k - 1]));
            assert(out0 + bytes@.subrange(start as int, k - 1).push(bytes@[k - 1]) =~= (out0
                + bytes@.subrange(start as int, k - 1)).push(bytes@[k - 1]));
        }
    }
    proof {
        assert(output@ =~= out0 + bytes@.subrange(start as int, end as int));
    }
}

/// Scan `bytes[start .. end)` index by index, back to front, emitting a
/// segment at every delimiter and advancing the cursor `stop`. Used on its
/// own as the scalar strategy's loop, and by the vector strategies for the
/// unaligned head and tail of the view.
///
/// The cursor must sit at the segment boundary that follows `end`; the scan
/// leaves it at the boundary that follows `start`.
pub fn slow_search_and_print(
    bytes: &[u8],
    start: usize,
    end: usize,
    stop: &mut usize,
    separator: u8,
    output: &mut Vec<u8>,
)
    requires
        start <= end,
        end <= bytes@.len(),
        *old(stop) == seg_end_from(bytes@, separator, end as int),
    ensures
        *final(stop) == seg_end_from(bytes@, separator, start as int),
        final(output)@ == old(output)@ + emitted_between(
            bytes@,
            separator,
            start as int,
            end as int,
        ),
{
    let ghost out0 = output@;
    let mut index: usize = end;
    while index > start
        invariant
            start <= index <= end <= bytes@.len(),
            *stop == seg_end_from(bytes@, separator, index as int),
            output@ == out0 + emitted_between(bytes@, separator, index as int, end as int),
        decreases index,
    {
        index = index - 1;
        proof {
            lemma_seg_end_bounds(bytes@, separator, index + 1);
            lemma_emitted_split(bytes@, separator, index as int, index + 1, end as int);
            assert(emitted_between(bytes@, separator, index as int, index as int) == Seq::<
                u8,
            >::empty());
        }
        let ghost emitted_above = emitted_between(bytes@, separator, index + 1, end as int);
        if *slice_index_get(bytes, index) == separator {
            emit(output, bytes, index + 1, *stop);
            *stop = index + 1;
            proof {
                let w = bytes@.subrange(index + 1, seg_end_from(bytes@, separator, index + 1));
                assert(emitted_between(bytes@, separator, index as int, index + 1) =~= w);
                assert((out0 + emitted_above) + w =~= out0 + (emitted_above + w));
            }
        } else {
            proof {
                assert(emitted_between(bytes@, separator, index as int, index + 1) =~= Seq::<
                    u8,
                >::empty());
                assert(emitted_above + Seq::<u8>::empty() =~= emitted_above);
            }
        }
    }
}

/// The scalar scan strategy: append the reversed segments of `bytes` to the
/// output buffer. This is the default used when no vector extension is
/// available, and the semantics the vector strategies are proved against.
pub fn search(bytes: &[u8], separator: u8, output: &mut Vec<u8>)
    ensures
        final(output)@ == old(output)@ + rev_segments(bytes@, separator),
{
    let ghost out0 = output@;
    let mut last_printed: usize = bytes.len();
    slow_search_and_print(bytes, 0, bytes.len(), &mut last_printed, separator, output);
    proof {
        lemma_seg_end_bounds(bytes@, separator, 0);
    }
    emit(output, bytes, 0, last_printed);
    proof {
        lemma_scan_complete(bytes@, separator);
        let e = emitted_between(bytes@, separator, 0, bytes@.len() as int);
        let t = bytes@.take(seg_end_from(bytes@, separator, 0));
        assert((out0 + e) + t =~= out0 + (e + t));
    }
}

} // verus!
