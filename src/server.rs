//! The server subcommands of the command line, and the decision taken on
//! each poll while waiting for a server to initialize.
use vstd::prelude::*;

verus! {

/// How long to wait between two polls of the server's status, in milliseconds.
pub const POLL_INTERVAL_MILLIS: u64 = 100;

/// How long to wait for initialization, in seconds, unless told otherwise.
pub const DEFAULT_WAIT_TIMEOUT_SECS: u64 = 10;

/// Server commands.
#[derive(Debug, Clone, PartialEq, Eq, Structural)]
pub struct Config {
    pub command: Command,
}

/// A server subcommand.
#[derive(Debug, Clone, PartialEq, Eq, Structural)]
pub enum Command {
    /// Set the server ID.
    SetId(SetId),
    /// Get the server ID.
    Get,
    /// Wait until the server is initialized.
    WaitServerInitialized(WaitServerInitialized),
}

/// Set the server ID.
#[derive(Debug, Clone, Copy, PartialEq, Eq, Structural)]
pub struct SetId {
    /// The server ID to set; never zero.
    pub id: u32,
}

/// Wait until the server is initialized.
#[derive(Debug, Clone, Copy, PartialEq, Eq, Structural)]
pub struct WaitServerInitialized {
    /// Timeout in seconds.
    pub timeout: u64,
}

/// What to do after one poll of the server's status.
#[derive(Debug, Clone, Copy, PartialEq, Eq, Structural)]
pub enum WaitAction {
    /// The server is initialized: stop waiting.
    Initialized,
    /// The timeout has passed: give up.
    TimedOut,
    /// Poll again after `POLL_INTERVAL_MILLIS`.
    PollAgain,
}

/// Why a server command failed.
#[derive(Debug, Clone, PartialEq, Eq)]
pub enum Error {
    /// The request to the server failed.
    Request(String),
    /// The server did not initialize within the timeout.
    TimeoutDatabasesLoaded,
}

impl SetId {
    /// A `SetId` command for a non-zero server ID.
    pub fn new(id: u32) -> (r: Option<SetId>)
        ensures
            id == 0 ==> r is None,
            id != 0 ==> r == Some(SetId { id }),
    {
        if id == 0 {
            None
        } else {
            Some(SetId { id })
        }
    }
}

impl WaitServerInitialized {
    pub fn new(timeout: u64) -> (r: WaitServerInitialized)
        ensures
            r.timeout == timeout,
    {
        WaitServerInitialized { timeout }
    }

    /// The decision after a poll that found the server `initialized` or not,
    /// `elapsed_millis` after the wait began: stop once initialized; else
    /// give up once the timeout has passed; else poll again.
    pub fn next_action(&self, initialized: bool, elapsed_millis: u64) -> (r: WaitAction)
        ensures
            initialized ==> r == WaitAction::Initialized,
            !initialized && elapsed_millis >= self.timeout * 1000 ==> r == WaitAction::TimedOut,
            !initialized && elapsed_millis < self.timeout * 1000 ==> r == WaitAction::PollAgain,
    {
        if initialized {
            WaitAction::Initialized
        } else if elapsed_millis as u128 >= self.timeout as u128 * 1000 {
            WaitAction::TimedOut
        } else {
            WaitAction::PollAgain
        }
    }
}

} // verus!
