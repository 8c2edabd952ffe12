//! In-memory accounting of ingested writes that decides when buffered data
//! of a partition is old enough to be persisted, and up to which row
//! timestamp.
//!
//! Writes are grouped by arrival time into windows: one open window takes
//! writes, closed windows wait out the late arrival period, and a
//! persistable window collects those that have. A flush takes the
//! persistable window in two steps, `flush_handle` and `flush`, so that the
//! data can be written out in between.
pub mod checkpoint;
pub mod laws;
pub mod model;
pub mod persistence;
pub mod sequence;
pub mod server;
pub mod time;
pub mod window;

pub use checkpoint::{PartitionAddr, PartitionCheckpoint, WriteSummary};
pub use persistence::{FlushHandle, PersistenceWindows, TimeProvider};
pub use sequence::{MinMaxSequence, OptionalMinMaxSequence, Sequence};
pub use server::{Command, Config, WaitAction, WaitServerInitialized};
pub use time::{Duration, Time};
pub use window::Window;
