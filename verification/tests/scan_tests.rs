//! End-to-end tests of the scan strategies and the dispatcher.

use tac_k::CpuFeatures;
use tac_k::ScanStrategy;
use tac_k::reverse;
use tac_k::scalar::emit;
use tac_k::search;
use tac_k::search128;
use tac_k::search256;
use tac_k::search_auto;
use tac_k::select_strategy;
use tac_k::slow_search_and_print;

/// Independent reference: split into maximal delimiter-terminated runs
/// (each non-final run keeps its trailing delimiter) and concatenate the
/// runs in reverse order of appearance.
fn reversed_by_segments(bytes: &[u8], sep: u8) -> Vec<u8> {
    let mut runs: Vec<Vec<u8>> = Vec::new();
    let mut cur: Vec<u8> = Vec::new();
    for &x in bytes {
        cur.push(x);
        if x == sep {
            runs.push(cur);
            cur = Vec::new();
        }
    }
    if !cur.is_empty() {
        runs.push(cur);
    }
    let mut out: Vec<u8> = Vec::new();
    for r in runs.iter().rev() {
        out.extend_from_slice(r);
    }
    out
}

fn lcg_bytes(seed: u64, len: usize) -> Vec<u8> {
    let mut s: u64 = seed;
    let mut v: Vec<u8> = Vec::with_capacity(len);
    for _ in 0..len {
        s = s.wrapping_mul(6364136223846793005).wrapping_add(1442695040888963407);
        // a small alphabet keeps delimiters frequent
        v.push(((s >> 33) % 8) as u8);
    }
    v
}

fn run_scalar(bytes: &[u8], sep: u8) -> Vec<u8> {
    let mut out: Vec<u8> = Vec::new();
    search(bytes, sep, &mut out);
    out
}

fn run_128(bytes: &[u8], addr: usize, sep: u8) -> Vec<u8> {
    let mut out: Vec<u8> = Vec::new();
    search128(bytes, addr, sep, &mut out);
    out
}

fn run_256(bytes: &[u8], addr: usize, sep: u8) -> Vec<u8> {
    let mut out: Vec<u8> = Vec::new();
    search256(bytes, addr, sep, &mut out);
    out
}

const NO_FEATURES: CpuFeatures = CpuFeatures { avx2: false, lzcnt: false, bmi2: false, neon: false };
const X86_FEATURES: CpuFeatures = CpuFeatures { avx2: true, lzcnt: true, bmi2: true, neon: false };
const ARM_FEATURES: CpuFeatures = CpuFeatures { avx2: false, lzcnt: false, bmi2: false, neon: true };

#[test]
fn empty_input_produces_empty_output() {
    assert_eq!(run_scalar(b"", b'\n'), b"");
    assert_eq!(run_128(b"", 0, b'\n'), b"");
    assert_eq!(run_256(b"", 0, b'\n'), b"");
    assert_eq!(reverse(b"", 0, b'\n', &NO_FEATURES), b"");
    assert_eq!(reverse(b"", 16, b'\n', &X86_FEATURES), b"");
    assert_eq!(reverse(b"", 32, b'\n', &ARM_FEATURES), b"");
}

#[test]
fn no_delimiter_input_unchanged() {
    let input: &[u8] = b"one long segment without newline";
    assert_eq!(run_scalar(input, b'\n'), input);
    for addr in 0..33usize {
        assert_eq!(run_128(input, addr, b'\n'), input);
        assert_eq!(run_256(input, addr, b'\n'), input);
    }
    let big: Vec<u8> = vec![7u8; 300];
    assert_eq!(run_scalar(&big, b'\n'), big);
    assert_eq!(run_128(&big, 5, b'\n'), big);
    assert_eq!(run_256(&big, 5, b'\n'), big);
}

#[test]
fn all_delimiter_input_unchanged() {
    for n in [1usize, 2, 15, 16, 17, 31, 32, 33, 95, 96, 200] {
        let input: Vec<u8> = vec![b'\n'; n];
        assert_eq!(run_scalar(&input, b'\n'), input);
        for addr in [0usize, 1, 13, 16, 32] {
            assert_eq!(run_128(&input, addr, b'\n'), input);
            assert_eq!(run_256(&input, addr, b'\n'), input);
        }
    }
}

#[test]
fn reverses_lines_with_trailing_delimiter() {
    let out = run_scalar(b"a\nb\nc\n", b'\n');
    assert_eq!(out, b"c\nb\na\n");
    assert_eq!(run_128(b"a\nb\nc\n", 0, b'\n'), b"c\nb\na\n");
    assert_eq!(run_256(b"a\nb\nc\n", 0, b'\n'), b"c\nb\na\n");
    assert_eq!(reverse(b"a\nb\nc\n", 0, b'\n', &X86_FEATURES), b"c\nb\na\n");
}

#[test]
fn reverses_lines_without_trailing_delimiter() {
    // the final run has no delimiter: it is emitted first, unchanged, and
    // fuses with the segment that follows it in the output
    let out = run_scalar(b"a\nb\nc", b'\n');
    assert_eq!(out, b"cb\na\n");
    assert_eq!(run_128(b"a\nb\nc", 0, b'\n'), b"cb\na\n");
    assert_eq!(run_256(b"a\nb\nc", 0, b'\n'), b"cb\na\n");
    assert_eq!(reverse(b"a\nb\nc", 0, b'\n', &ARM_FEATURES), b"cb\na\n");
}

#[test]
fn custom_separator_is_respected() {
    let out = run_scalar(b"a.b.c.", b'.');
    assert_eq!(out, b"c.b.a.");
    assert_eq!(run_256(b"one.two.three", 0, b'.'), b"threetwo.one.");
    assert_eq!(reverse(b"x:y:z", 0, b':', &NO_FEATURES), b"zy:x:");
}

#[test]
fn strategies_match_naive_reference() {
    for len in [0usize, 1, 2, 15, 16, 17, 31, 32, 33, 63, 64, 65, 94, 95, 96, 97, 127, 128, 1023] {
        let input = lcg_bytes(0x9e3779b97f4a7c15 ^ (len as u64), len);
        for sep in 0u8..8 {
            let expected = reversed_by_segments(&input, sep);
            assert_eq!(run_scalar(&input, sep), expected);
            assert_eq!(run_128(&input, 0, sep), expected);
            assert_eq!(run_256(&input, 0, sep), expected);
        }
    }
}

#[test]
fn strategies_agree_for_every_window_offset() {
    // a delimiter at every offset modulo the window width, crossing the
    // aligned window boundaries for every base-address residue
    let n: usize = 160;
    for delim_pos in 0..n {
        let mut input: Vec<u8> = vec![b'x'; n];
        input[delim_pos] = b'\n';
        let expected = run_scalar(&input, b'\n');
        for addr in 0..33usize {
            assert_eq!(run_128(&input, addr, b'\n'), expected, "128-bit, pos {delim_pos}, addr {addr}");
            assert_eq!(run_256(&input, addr, b'\n'), expected, "256-bit, pos {delim_pos}, addr {addr}");
        }
    }
}

#[test]
fn dense_random_inputs_agree_across_addresses() {
    for seed in 1u64..6 {
        let input = lcg_bytes(seed, 512);
        for sep in [0u8, 3, 7] {
            let expected = reversed_by_segments(&input, sep);
            for addr in [0usize, 1, 15, 16, 17, 31, 32, 63] {
                assert_eq!(run_128(&input, addr, sep), expected);
                assert_eq!(run_256(&input, addr, sep), expected);
            }
        }
    }
}

#[test]
fn selection_policy_prefers_widest_usable() {
    assert_eq!(select_strategy(&X86_FEATURES), ScanStrategy::Vector256);
    assert_eq!(select_strategy(&ARM_FEATURES), ScanStrategy::Vector128);
    assert_eq!(select_strategy(&NO_FEATURES), ScanStrategy::Scalar);
    // an incomplete 256-bit feature set falls back to the narrower strategy
    let partial = CpuFeatures { avx2: true, lzcnt: true, bmi2: false, neon: true };
    assert_eq!(select_strategy(&partial), ScanStrategy::Vector128);
    let partial2 = CpuFeatures { avx2: true, lzcnt: false, bmi2: true, neon: false };
    assert_eq!(select_strategy(&partial2), ScanStrategy::Scalar);
    // the full 256-bit set wins even when the narrower set is present too
    let both = CpuFeatures { avx2: true, lzcnt: true, bmi2: true, neon: true };
    assert_eq!(select_strategy(&both), ScanStrategy::Vector256);
}

#[test]
fn search_auto_output_independent_of_features() {
    let input = lcg_bytes(42, 300);
    let expected = reversed_by_segments(&input, 5);
    for features in [NO_FEATURES, X86_FEATURES, ARM_FEATURES] {
        let mut out: Vec<u8> = Vec::new();
        search_auto(&input, 7, 5, &features, &mut out);
        assert_eq!(out, expected);
    }
}

#[test]
fn partial_scan_updates_cursor() {
    // scanning the whole range by hand: the cursor ends at the boundary
    // that follows position 0, and the final prefix is not yet written
    let bytes: &[u8] = b"a\nb\nc\n";
    let mut stop: usize = bytes.len();
    let mut out: Vec<u8> = Vec::new();
    slow_search_and_print(bytes, 0, bytes.len(), &mut stop, b'\n', &mut out);
    assert_eq!(out, b"c\nb\n");
    assert_eq!(stop, 2);
    // writing the remaining prefix completes the reversal
    let mut rest: Vec<u8> = Vec::new();
    emit(&mut rest, bytes, 0, stop);
    assert_eq!(rest, b"a\n");
}

#[test]
fn emit_appends_ranges() {
    let bytes: &[u8] = b"abcdef";
    let mut out: Vec<u8> = Vec::new();
    emit(&mut out, bytes, 2, 5);
    assert_eq!(out, b"cde");
    emit(&mut out, bytes, 0, 2);
    assert_eq!(out, b"cdeab");
    emit(&mut out, bytes, 6, 6);
    assert_eq!(out, b"cdeab");
}

#[test]
fn output_appends_after_existing_bytes() {
    let mut out: Vec<u8> = b"prefix:".to_vec();
    search(b"a\nb\n", b'\n', &mut out);
    assert_eq!(out, b"prefix:b\na\n");
}
