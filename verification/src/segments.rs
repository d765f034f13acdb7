//! The mathematical model of the segment-reversal engine.
//!
//! A byte sequence is split on a delimiter byte into maximal runs; every run
//! except possibly the last ends with the delimiter. The engine's output is
//! the concatenation of those runs in reverse order of appearance. The
//! executable scan strategies never materialize the runs: they discover
//! segment boundaries back to front and emit one range at a time, so the
//! model also describes the partial output of a scan over an index range.

use vstd::prelude::*;

verus! {

/// Index just past the first occurrence of `d` in `b` at or after position
/// `i`, or `b.len()` when no such occurrence exists. This is the exclusive
/// end of the run that starts at `i`.
pub open spec fn seg_end_from(b: Seq<u8>, d: u8, i: int) -> int
    decreases b.len() - i when 0 <= i <= b.len()
{
    if i >= b.len() {
        b.len() as int
    } else if b[i] == d {
        i + 1
    } else {
        seg_end_from(b, d, i + 1)
    }
}

pub proof fn lemma_seg_end_bounds(b: Seq<u8>, d: u8, i: int)
    requires
        0 <= i <= b.len(),
    ensures
        i <= seg_end_from(b, d, i) <= b.len(),
        i < b.len() ==> i + 1 <= seg_end_from(b, d, i),
    decreases b.len() - i,
{
    if i < b.len() && b[i] != d {
        lemma_seg_end_bounds(b, d, i + 1);
    }
}

/// The run starting at `i` contains the delimiter only as its final byte,
/// and ends before `b.len()` only because of a delimiter.
pub proof fn lemma_seg_end_chars(b: Seq<u8>, d: u8, i: int)
    requires
        0 <= i <= b.len(),
    ensures
        forall|j: int| i <= j < seg_end_from(b, d, i) - 1 ==> b[j] != d,
        seg_end_from(b, d, i) < b.len() ==> b[seg_end_from(b, d, i) - 1] == d,
        (exists|j: int| i <= j < b.len() && b[j] == d) ==> b[seg_end_from(b, d, i) - 1] == d,
    decreases b.len() - i,
{
    if i < b.len() && b[i] != d {
        lemma_seg_end_chars(b, d, i + 1);
        lemma_seg_end_bounds(b, d, i + 1);
        if exists|j: int| i <= j < b.len() && b[j] == d {
            let j = choose|j: int| i <= j < b.len() && b[j] == d;
            assert(i + 1 <= j < b.len() && b[j] == d);
        }
    }
}

/// A range free of the delimiter does not move the next segment boundary.
pub proof fn lemma_seg_end_no_delim(b: Seq<u8>, d: u8, i: int, j: int)
    requires
        0 <= i <= j <= b.len(),
        forall|k: int| i <= k < j ==> b[k] != d,
    ensures
        seg_end_from(b, d, i) == seg_end_from(b, d, j),
    decreases j - i,
{
    if i < j {
        lemma_seg_end_no_delim(b, d, i + 1, j);
    }
}

/// Dropping a prefix shifts segment boundaries by the prefix length.
pub proof fn lemma_seg_end_skip(b: Seq<u8>, d: u8, k: int, i: int)
    requires
        0 <= k <= b.len(),
        0 <= i <= b.len() - k,
    ensures
        seg_end_from(b.skip(k), d, i) == seg_end_from(b, d, k + i) - k,
    decreases b.len() - k - i,
{
    if i < b.len() - k {
        assert(b.skip(k)[i] == b[k + i]);
        if b[k + i] != d {
            lemma_seg_end_skip(b, d, k, i + 1);
        }
    }
}

/// The output of the segment-reversal engine: `b` split into maximal
/// delimiter-terminated runs, concatenated in reverse order of appearance.
/// The first run keeps its trailing delimiter (it is part of the run), so
/// the output is a permutation of `b` at run granularity.
pub open spec fn rev_segments(b: Seq<u8>, d: u8) -> Seq<u8>
    decreases b.len()
    via rev_segments_decreases
{
    if b.len() == 0 {
        Seq::empty()
    } else {
        rev_segments(b.skip(seg_end_from(b, d, 0)), d) + b.take(seg_end_from(b, d, 0))
    }
}

#[via_fn]
proof fn rev_segments_decreases(b: Seq<u8>, d: u8) {
    if b.len() != 0 {
        lemma_seg_end_bounds(b, d, 0);
    }
}

/// Empty input produces empty output.
pub proof fn lemma_rev_segments_empty(d: u8)
    ensures
        rev_segments(Seq::empty(), d) == Seq::<u8>::empty(),
{
}

/// The bytes a scan emits while it examines positions `[i, j)` from high to
/// low, given that every position at or above `j` was already examined (so
/// the emission cursor sits at `seg_end_from(b, d, j)` when position `j - 1`
/// is inspected). A delimiter at position `p` emits the range
/// `[p + 1, seg_end_from(b, d, p + 1))` and moves the cursor to `p + 1`.
pub open spec fn emitted_between(b: Seq<u8>, d: u8, i: int, j: int) -> Seq<u8>
    decreases j - i when 0 <= i <= j <= b.len()
{
    if j <= i {
        Seq::empty()
    } else if b[j - 1] == d {
        b.subrange(j, seg_end_from(b, d, j)) + emitted_between(b, d, i, j - 1)
    } else {
        emitted_between(b, d, i, j - 1)
    }
}

/// A scan over `[i, j)` is the scan over the upper part `[m, j)` followed by
/// the scan over the lower part `[i, m)`.
pub proof fn lemma_emitted_split(b: Seq<u8>, d: u8, i: int, m: int, j: int)
    requires
        0 <= i <= m <= j <= b.len(),
    ensures
        emitted_between(b, d, i, j) == emitted_between(b, d, m, j) + emitted_between(b, d, i, m),
    decreases j - m,
{
    if m == j {
        assert(emitted_between(b, d, m, j) + emitted_between(b, d, i, m) =~= emitted_between(
            b,
            d,
            i,
            m,
        ));
    } else {
        lemma_emitted_split(b, d, i, m, j - 1);
        if b[j - 1] == d {
            let w = b.subrange(j, seg_end_from(b, d, j));
            assert((w + emitted_between(b, d, m, j - 1)) + emitted_between(b, d, i, m) =~= w + (
            emitted_between(b, d, m, j - 1) + emitted_between(b, d, i, m)));
        }
    }
}

/// A range free of the delimiter emits nothing.
pub proof fn lemma_emitted_no_delim(b: Seq<u8>, d: u8, i: int, j: int)
    requires
        0 <= i <= j <= b.len(),
        forall|k: int| i <= k < j ==> b[k] != d,
    ensures
        emitted_between(b, d, i, j) == Seq::<u8>::empty(),
    decreases j - i,
{
    if i < j {
        lemma_emitted_no_delim(b, d, i, j - 1);
    }
}

/// Scanning everything above position `i` emits exactly the reversed
/// segments of the suffix that starts at the next segment boundary.
pub proof fn lemma_emitted_suffix(b: Seq<u8>, d: u8, i: int)
    requires
        0 <= i <= b.len(),
    ensures
        emitted_between(b, d, i, b.len() as int) == rev_segments(
            b.skip(seg_end_from(b, d, i)),
            d,
        ),
    decreases b.len() - i,
{
    let n = b.len() as int;
    if i == n {
        assert(b.skip(n) =~= Seq::<u8>::empty());
    } else {
        lemma_emitted_suffix(b, d, i + 1);
        lemma_emitted_split(b, d, i, i + 1, n);
        lemma_seg_end_bounds(b, d, i + 1);
        let s = seg_end_from(b, d, i + 1);
        assert(emitted_between(b, d, i, i) == Seq::<u8>::empty());
        if b[i] != d {
            assert(emitted_between(b, d, i, i + 1) =~= Seq::<u8>::empty());
            assert(emitted_between(b, d, i, n) =~= emitted_between(b, d, i + 1, n));
        } else {
            // The cursor sits at `s`; position `i` emits `[i + 1, s)` and the
            // remaining suffix starts at `i + 1`.
            let w = b.subrange(i + 1, s);
            assert(emitted_between(b, d, i, i + 1) =~= w);
            assert(emitted_between(b, d, i, n) =~= emitted_between(b, d, i + 1, n) + w);
            let t = b.skip(i + 1);
            if i + 1 == n {
                assert(s == n);
                assert(t =~= Seq::<u8>::empty());
                assert(b.skip(s) =~= Seq::<u8>::empty());
                assert(emitted_between(b, d, i, n) =~= rev_segments(b.skip(i + 1), d));
            } else {
                lemma_seg_end_skip(b, d, i + 1, 0);
                assert(seg_end_from(t, d, 0) == s - (i + 1));
                assert(t.skip(s - (i + 1)) =~= b.skip(s));
                assert(t.take(s - (i + 1)) =~= w);
                assert(rev_segments(t, d) == rev_segments(b.skip(s), d) + w);
                assert(emitted_between(b, d, i + 1, n) == rev_segments(b.skip(s), d));
            }
        }
    }
}

/// Input without a single occurrence of the delimiter is one run, emitted
/// unchanged.
pub proof fn lemma_rev_segments_no_delim(b: Seq<u8>, d: u8)
    requires
        forall|i: int| 0 <= i < b.len() ==> b[i] != d,
    ensures
        rev_segments(b, d) == b,
{
    if b.len() > 0 {
        let n = b.len() as int;
        lemma_seg_end_no_delim(b, d, 0, n);
        assert(seg_end_from(b, d, 0) == n);
        assert(b.skip(n) =~= Seq::<u8>::empty());
        lemma_rev_segments_empty(d);
        assert(rev_segments(b, d) == Seq::<u8>::empty() + b.take(n));
        assert(Seq::<u8>::empty() + b.take(n) =~= b);
    }
}

/// Input consisting solely of delimiters is a sequence of empty-content runs;
/// the output is byte-identical to the input.
pub proof fn lemma_rev_segments_all_delim(b: Seq<u8>, d: u8)
    requires
        forall|i: int| 0 <= i < b.len() ==> b[i] == d,
    ensures
        rev_segments(b, d) == b,
    decreases b.len(),
{
    if b.len() > 0 {
        assert(seg_end_from(b, d, 0) == 1);
        let t = b.skip(1);
        assert forall|i: int| 0 <= i < t.len() implies t[i] == d by {
            assert(t[i] == b[i + 1]);
        }
        lemma_rev_segments_all_delim(t, d);
        assert(t + b.take(1) =~= b);
    }
}

/// The maximal delimiter-terminated runs of `b`, in order of appearance.
pub open spec fn segments(b: Seq<u8>, d: u8) -> Seq<Seq<u8>>
    decreases b.len()
    via segments_decreases
{
    if b.len() == 0 {
        Seq::empty()
    } else {
        seq![b.take(seg_end_from(b, d, 0))] + segments(b.skip(seg_end_from(b, d, 0)), d)
    }
}

#[via_fn]
proof fn segments_decreases(b: Seq<u8>, d: u8) {
    if b.len() != 0 {
        lemma_seg_end_bounds(b, d, 0);
    }
}

/// Concatenation of a list of byte runs, in list order.
pub open spec fn concat_all(ss: Seq<Seq<u8>>) -> Seq<u8>
    decreases ss.len(),
{
    if ss.len() == 0 {
        Seq::empty()
    } else {
        ss[0] + concat_all(ss.skip(1))
    }
}

proof fn lemma_concat_all_push(ss: Seq<Seq<u8>>, x: Seq<u8>)
    ensures
        concat_all(ss.push(x)) == concat_all(ss) + x,
    decreases ss.len(),
{
    if ss.len() == 0 {
        assert(ss.push(x).skip(1) =~= Seq::<Seq<u8>>::empty());
        assert(concat_all(Seq::<Seq<u8>>::empty()) == Seq::<u8>::empty());
        assert(ss.push(x)[0] == x);
        assert(concat_all(ss.push(x)) == x + Seq::<u8>::empty());
        assert(x + Seq::<u8>::empty() =~= concat_all(ss) + x);
    } else {
        assert(ss.push(x).skip(1) =~= ss.skip(1).push(x));
        lemma_concat_all_push(ss.skip(1), x);
        assert(ss[0] + (concat_all(ss.skip(1)) + x) =~= (ss[0] + concat_all(ss.skip(1))) + x);
    }
}

/// Splitting on the delimiter and concatenating the runs in order reproduces
/// the input: the runs partition `b`.
pub proof fn lemma_segments_concat(b: Seq<u8>, d: u8)
    ensures
        concat_all(segments(b, d)) == b,
    decreases b.len(),
{
    if b.len() > 0 {
        lemma_seg_end_bounds(b, d, 0);
        let e = seg_end_from(b, d, 0);
        lemma_segments_concat(b.skip(e), d);
        assert((seq![b.take(e)] + segments(b.skip(e), d)).skip(1) =~= segments(b.skip(e), d));
        assert(b.take(e) + b.skip(e) =~= b);
    }
}

/// Concatenating the runs in reverse order of appearance gives exactly the
/// engine's output.
pub proof fn lemma_segments_round_trip(b: Seq<u8>, d: u8)
    ensures
        concat_all(segments(b, d).reverse()) == rev_segments(b, d),
    decreases b.len(),
{
    if b.len() == 0 {
        assert(segments(b, d).reverse() =~= Seq::<Seq<u8>>::empty());
    } else {
        lemma_seg_end_bounds(b, d, 0);
        let e = seg_end_from(b, d, 0);
        let rest = segments(b.skip(e), d);
        lemma_segments_round_trip(b.skip(e), d);
        assert((seq![b.take(e)] + rest).reverse() =~= rest.reverse().push(b.take(e)));
        lemma_concat_all_push(rest.reverse(), b.take(e));
    }
}

/// A well-formed run: nonempty, with the delimiter at most as its final byte.
pub open spec fn run_wf(s: Seq<u8>, d: u8) -> bool {
    s.len() >= 1 && forall|j: int| 0 <= j < s.len() - 1 ==> s[j] != d
}

/// Shape of the runs: each is a maximal run (nonempty, no interior
/// delimiter), and every run except possibly the last keeps its trailing
/// delimiter.
pub proof fn lemma_segments_shape(b: Seq<u8>, d: u8)
    ensures
        forall|k: int| 0 <= k < segments(b, d).len() ==> run_wf(#[trigger] segments(b, d)[k], d),
        forall|k: int|
            0 <= k < segments(b, d).len() - 1 ==> (#[trigger] segments(b, d)[k]).last() == d,
    decreases b.len(),
{
    if b.len() > 0 {
        lemma_seg_end_bounds(b, d, 0);
        lemma_seg_end_chars(b, d, 0);
        let e = seg_end_from(b, d, 0);
        let first = b.take(e);
        let rest = segments(b.skip(e), d);
        lemma_segments_shape(b.skip(e), d);
        assert(run_wf(first, d)) by {
            assert(forall|j: int| 0 <= j < first.len() - 1 ==> first[j] == b[j]);
        }
        assert forall|k: int| 0 <= k < segments(b, d).len() implies run_wf(
            #[trigger] segments(b, d)[k],
            d,
        ) by {
            if k > 0 {
                assert(segments(b, d)[k] == rest[k - 1]);
            }
        }
        assert forall|k: int| 0 <= k < segments(b, d).len() - 1 implies (#[trigger] segments(
            b,
            d,
        )[k]).last() == d by {
            if k == 0 {
                // A later run exists, so the first run ends before `b.len()`
                // and therefore ends with the delimiter.
                assert(rest.len() >= 1);
                assert(b.skip(e).len() > 0);
                assert(e < b.len());
                assert(first.last() == b[e - 1]);
            } else {
                assert(segments(b, d)[k] == rest[k - 1]);
            }
        }
    }
}

/// A full back-to-front scan followed by the final prefix write produces the
/// reversed segments of the whole input.
pub proof fn lemma_scan_complete(b: Seq<u8>, d: u8)
    ensures
        emitted_between(b, d, 0, b.len() as int) + b.take(seg_end_from(b, d, 0)) == rev_segments(
            b,
            d,
        ),
{
    lemma_emitted_suffix(b, d, 0);
    if b.len() == 0 {
        assert(emitted_between(b, d, 0, 0) + b.take(seg_end_from(b, d, 0)) =~= Seq::<u8>::empty());
    }
}

} // verus!
