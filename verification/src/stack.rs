use vstd::prelude::*;

verus! {

/// Relies on backtrace::Backtrace::new_unresolved: captures the current call
/// stack without resolving symbols. The frames depend on the call site and
/// the machine, so nothing is promised of the result.
#[verifier::external_body]
pub fn capture_stack() -> Vec<u64> {
    let bt = backtrace::Backtrace::new_unresolved();
    bt.frames().iter().map(|f| f.ip() as u64).collect()
}

} // verus!
