//! Reverse a byte stream by delimiter-terminated segments.
//!
//! The input is split into maximal runs, each run ending at an occurrence of a
//! single delimiter byte (every run except possibly the last keeps its trailing
//! delimiter), and the runs are written out in reverse order of appearance.
//! Three interchangeable scan strategies produce this output: a scalar
//! back-to-front scan, and two windowed strategies that model 128-bit and
//! 256-bit vector scans over aligned windows of the buffer. All three are
//! proved to emit exactly the same byte sequence, described by the
//! specification function [`segments::rev_segments`].

pub mod acquire;
pub mod dispatch;
pub mod scalar;
pub mod segments;
pub mod wide;

pub use acquire::MAX_BUF_SIZE;
pub use acquire::SpillBuffer;
pub use dispatch::reverse;
pub use dispatch::search_auto;
pub use dispatch::select_strategy;
pub use dispatch::CpuFeatures;
pub use dispatch::ScanStrategy;
pub use scalar::search;
pub use scalar::slow_search_and_print;
pub use segments::rev_segments;
pub use wide::search128;
pub use wide::search256;
