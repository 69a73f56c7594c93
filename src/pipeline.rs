use vstd::prelude::*;

verus! {

/// How a session with the feed server ended.
#[derive(Clone, Copy, Debug, PartialEq, Eq, Structural)]
pub enum SessionEnd {
    /// The server closed the connection, or a transient I/O error occurred.
    Disconnected,
    /// An error from which the client cannot recover.
    Failed,
}

/// What the ingestion loop does after a session ended.
#[derive(Clone, Copy, Debug, PartialEq, Eq, Structural)]
pub enum NextStep {
    /// Connect again and carry on.
    Reconnect,
    /// Stop ingesting and signal shutdown to the other units, once.
    Shutdown,
}

/// Decides what follows a session with the feed server: a disconnect is
/// recovered by reconnecting, a failure is terminal.
pub fn next_step(end: SessionEnd) -> (r: NextStep)
    ensures
        end == SessionEnd::Disconnected ==> r == NextStep::Reconnect,
        end == SessionEnd::Failed ==> r == NextStep::Shutdown,
{
    match end {
        SessionEnd::Disconnected => NextStep::Reconnect,
        SessionEnd::Failed => NextStep::Shutdown,
    }
}

} // verus!
