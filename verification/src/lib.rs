//! Binary-only address sanitization and instrumentation support for an
//! in-process, coverage-guided fuzzer.
//!
//! The crate models the core of the sanitizer: a shadow-memory allocator that
//! tracks every allocation handed to the guest, poisons and unpoisons shadow
//! bytes, and answers addressability queries; an error registry of sanitizer
//! findings; a coverage runtime; and the per-instruction instrumentation
//! decisions taken while the guest's basic blocks are translated.

pub mod allocator;
pub mod asan_rt;
pub mod coverage;
pub mod errors;
pub mod executor;
pub mod helper;
pub mod meta;
pub mod options;
pub mod ranges;
pub mod shadow;
pub mod stack;
pub mod tmin;

