//! Liveness of the capture session, decided from what is known of the
//! external video source.
use vstd::prelude::*;

verus! {

/// What a poll of the external video source found.
#[derive(Debug, Clone, Copy, PartialEq, Eq, Structural)]
pub enum SourceStatus {
    /// The source was never started.
    NotStarted,
    /// The source is still running.
    Running,
    /// The source has exited.
    Exited,
    /// Polling the source failed.
    Unknown,
}

/// The session is alive exactly while its source is running: dead before
/// start, and dead at the first poll after the source has exited.
pub fn check_health(status: SourceStatus) -> (alive: bool)
    ensures
        alive == (status == SourceStatus::Running),
{
    match status {
        SourceStatus::Running => true,
        _ => false,
    }
}

} // verus!
