//! Tests of the bounded-buffer acquisition stage and the spill decision.

use tac_k::CpuFeatures;
use tac_k::MAX_BUF_SIZE;
use tac_k::SpillBuffer;
use tac_k::reverse;

const NO_FEATURES: CpuFeatures = CpuFeatures { avx2: false, lzcnt: false, bmi2: false, neon: false };

/// Simulate the acquisition read loop on an in-memory stream: read at most
/// `buf.room()` bytes per chunk, stop when the stream ends or the buffer
/// signals a spill. Returns the contiguous byte view the consumer would
/// see: the buffered bytes, plus (on the spill path) the remainder of the
/// stream appended the way the temporary file would receive it.
fn acquire_from_stream(stream: &[u8], chunk_size: usize, limit: usize) -> (Vec<u8>, bool) {
    let mut buf = SpillBuffer::new(limit);
    let mut pos: usize = 0;
    loop {
        let room = buf.room();
        let want = chunk_size.min(room);
        let take = want.min(stream.len() - pos);
        if take == 0 {
            // stream ended before the threshold: serve from memory
            return (buf.bytes().to_vec(), false);
        }
        let spill = buf.push_chunk(&stream[pos..pos + take]);
        pos += take;
        if spill {
            // threshold reached: persist what was buffered, then the rest
            // of the stream, exactly as the temporary file would hold it
            let mut view = buf.bytes().to_vec();
            view.extend_from_slice(&stream[pos..]);
            return (view, true);
        }
    }
}

#[test]
fn spill_fires_exactly_at_the_threshold() {
    let limit: usize = 8;
    let stream: Vec<u8> = (0u8..32).collect();

    // one byte below the threshold: stays in memory
    let (view, spilled) = acquire_from_stream(&stream[..limit - 1], 3, limit);
    assert!(!spilled);
    assert_eq!(view, &stream[..limit - 1]);

    // exactly at the threshold: spills, view still covers the whole input
    let (view, spilled) = acquire_from_stream(&stream[..limit], 3, limit);
    assert!(spilled);
    assert_eq!(view, &stream[..limit]);

    // one byte above: spills and the remainder lands behind the buffer
    let (view, spilled) = acquire_from_stream(&stream[..limit + 1], 3, limit);
    assert!(spilled);
    assert_eq!(view, &stream[..limit + 1]);
}

#[test]
fn acquisition_path_does_not_change_the_output() {
    // threshold crossings must be invisible: output equals the direct path
    let limit: usize = 16;
    let mut stream: Vec<u8> = Vec::new();
    for i in 0u8..48 {
        stream.push(if i % 5 == 4 { b'\n' } else { b'a' + (i % 5) });
    }
    for input_len in [limit - 1, limit, limit + 1, 2 * limit + 3] {
        let input = &stream[..input_len];
        let direct = reverse(input, 0, b'\n', &NO_FEATURES);
        for chunk_size in [1usize, 3, 7, 16] {
            let (view, _) = acquire_from_stream(input, chunk_size, limit);
            assert_eq!(view, input);
            let buffered = reverse(&view, 0, b'\n', &NO_FEATURES);
            assert_eq!(buffered, direct);
        }
    }
}

#[test]
fn buffer_tracks_content_and_room() {
    let mut buf = SpillBuffer::new(10);
    assert_eq!(buf.len(), 0);
    assert_eq!(buf.room(), 10);
    let spill = buf.push_chunk(b"abc");
    assert!(!spill);
    assert_eq!(buf.len(), 3);
    assert_eq!(buf.room(), 7);
    assert_eq!(buf.bytes(), b"abc");
    let spill = buf.push_chunk(b"");
    assert!(!spill);
    assert_eq!(buf.bytes(), b"abc");
    let spill = buf.push_chunk(b"defghij");
    assert!(spill);
    assert_eq!(buf.len(), 10);
    assert_eq!(buf.room(), 0);
    assert_eq!(buf.bytes(), b"abcdefghij");
}

#[test]
fn default_limit_is_the_documented_threshold() {
    let mut buf = SpillBuffer::with_default_limit();
    assert_eq!(buf.room(), MAX_BUF_SIZE);
    assert_eq!(MAX_BUF_SIZE, 4 * 1024 * 1024);
    // filling right up to the default threshold raises the spill signal
    let chunk: Vec<u8> = vec![b'x'; MAX_BUF_SIZE - 1];
    let spill = buf.push_chunk(&chunk);
    assert!(!spill);
    let spill = buf.push_chunk(b"y");
    assert!(spill);
    assert_eq!(buf.len(), MAX_BUF_SIZE);
}
