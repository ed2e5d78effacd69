use vstd::prelude::*;

verus! {

/// The options recognised by the sanitizer and instrumentation core.
///
/// `dont_instrument` lists `(module, offset)` pairs; a four-byte window at
/// each such offset is punched out of the instrumented ranges.
pub struct FuzzerOptions {
    /// Path of the guest library that the harness loads.
    pub harness: Option<String>,
    /// Name of the entry symbol inside the harness library.
    pub harness_function: String,
    /// Further modules whose code is instrumented.
    pub libs_to_instrument: Vec<String>,
    /// `(module, offset)` windows excluded from instrumentation.
    pub dont_instrument: Vec<(String, u64)>,
    /// Record comparison operands for the external mutator.
    pub cmplog: bool,
    /// Enable the address sanitizer.
    pub asan: bool,
    /// Disable edge-coverage instrumentation.
    pub disable_coverage: bool,
    /// Largest size a single allocation may request.
    pub max_allocation: u64,
    /// Abort instead of returning null when `max_allocation` is exceeded.
    pub max_allocation_panics: bool,
    /// Cap on the running total of rounded-up allocation sizes.
    pub max_total_allocation: u64,
    /// Capture allocation and release site backtraces.
    pub allocation_backtraces: bool,
}

} // verus!
