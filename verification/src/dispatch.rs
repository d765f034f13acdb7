//! Run-time strategy selection, and the verified core of processing one
//! acquired input.

use vstd::prelude::*;
use crate::scalar::search;
use crate::segments::lemma_rev_segments_empty;
use crate::segments::rev_segments;
use crate::wide::search128;
use crate::wide::search256;

verus! {

/// The run-time CPU facts the dispatcher consumes. A vector strategy may be
/// chosen only when its full required feature set is present; the probe that
/// fills this in runs once per invocation, outside the verified core.
#[derive(Clone, Copy, PartialEq, Eq, Structural, Debug)]
pub struct CpuFeatures {
    /// 256-bit vector compares are available.
    pub avx2: bool,
    /// Fast leading-zero count is available.
    pub lzcnt: bool,
    /// Fast bit extraction, used to clear a resolved match, is available.
    pub bmi2: bool,
    /// 128-bit vector compares are available.
    pub neon: bool,
}

/// The closed set of interchangeable scan strategies.
#[derive(Clone, Copy, PartialEq, Eq, Structural, Debug)]
pub enum ScanStrategy {
    /// The byte-by-byte reference scan.
    Scalar,
    /// 16-byte windows.
    Vector128,
    /// 32-byte windows.
    Vector256,
}

/// The selection policy: the widest vector strategy whose full required
/// feature set is present; otherwise the narrower one; otherwise scalar.
pub open spec fn selected_strategy(f: CpuFeatures) -> ScanStrategy {
    if f.avx2 && f.lzcnt && f.bmi2 {
        ScanStrategy::Vector256
    } else if f.neon {
        ScanStrategy::Vector128
    } else {
        ScanStrategy::Scalar
    }
}

/// Choose the fastest scan strategy usable with the given run-time features.
pub fn select_strategy(features: &CpuFeatures) -> (s: ScanStrategy)
    ensures
        s == selected_strategy(*features),
{
    if features.avx2 && features.lzcnt && features.bmi2 {
        ScanStrategy::Vector256
    } else if features.neon {
        ScanStrategy::Vector128
    } else {
        ScanStrategy::Scalar
    }
}

/// Scan one byte view with the fastest strategy the features allow. All
/// strategies meet the same contract, so the choice never shows in the
/// output.
pub fn search_auto(
    bytes: &[u8],
    addr: usize,
    separator: u8,
    features: &CpuFeatures,
    output: &mut Vec<u8>,
)
    ensures
        final(output)@ == old(output)@ + rev_segments(bytes@, separator),
{
    match select_strategy(features) {
        ScanStrategy::Vector256 => search256(bytes, addr, separator, output),
        ScanStrategy::Vector128 => search128(bytes, addr, separator, output),
        ScanStrategy::Scalar => search(bytes, separator, output),
    }
}

/// Reverse one acquired byte view: the verified core of processing one
/// input. An empty view short-circuits to an empty output with no strategy
/// invoked; otherwise the dispatched strategy emits the segments in reverse
/// order of appearance. `addr` is the numeric address of `bytes[0]`, used
/// only for window alignment.
pub fn reverse(bytes: &[u8], addr: usize, separator: u8, features: &CpuFeatures) -> (out: Vec<u8>)
    ensures
        out@ == rev_segments(bytes@, separator),
{
    let mut out: Vec<u8> = Vec::new();
    if bytes.len() > 0 {
        search_auto(bytes, addr, separator, features, &mut out);
        proof {
            assert(Seq::<u8>::empty() + rev_segments(bytes@, separator) =~= rev_segments(
                bytes@,
                separator,
            ));
        }
    } else {
        proof {
            lemma_rev_segments_empty(separator);
            assert(bytes@ =~= Seq::<u8>::empty());
        }
    }
    out
}

} // verus!
