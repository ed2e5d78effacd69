use vstd::prelude::*;

verus! {

/// How the guest's invocation itself ended, as the external executor
/// observed it.
pub enum GuestExit {
    /// The entry point returned.
    Finished,
    /// A signal was delivered while the guest ran.
    Crashed,
    /// The watchdog fired before the guest returned.
    TimedOut,
}

/// The classification of one iteration, surfaced to the external fuzzing
/// loop. Any outcome but `Clean` marks the input as solution-worthy.
#[derive(Clone, Copy, Debug, PartialEq, Eq, Structural)]
pub enum ExitClassification {
    Clean,
    Crash,
    Timeout,
    SanitizerViolation,
}

/// Classifies one iteration: a crash or timeout of the guest is surfaced as
/// such; otherwise a non-empty error registry makes the iteration a
/// sanitizer violation, and an empty one leaves it clean.
pub fn classify_exit(guest: GuestExit, sanitizer_findings: usize) -> (r: ExitClassification)
    ensures
        guest is Crashed ==> r == ExitClassification::Crash,
        guest is TimedOut ==> r == ExitClassification::Timeout,
        guest is Finished && sanitizer_findings > 0 ==> r
            == ExitClassification::SanitizerViolation,
        guest is Finished && sanitizer_findings == 0 ==> r == ExitClassification::Clean,
{
    match guest {
        GuestExit::Crashed => ExitClassification::Crash,
        GuestExit::TimedOut => ExitClassification::Timeout,
        GuestExit::Finished => if sanitizer_findings > 0 {
            ExitClassification::SanitizerViolation
        } else {
            ExitClassification::Clean
        },
    }
}

} // verus!
