//! The records a partition hands out: its address, flush checkpoints and
//! write summaries.
use std::collections::BTreeMap;
use vstd::prelude::*;

use crate::sequence::OptionalMinMaxSequence;
use crate::time::Time;

verus! {

/// Names the partition that a set of windows belongs to.
#[derive(Debug, Clone)]
pub struct PartitionAddr {
    pub db_name: String,
    pub table_name: String,
    pub partition_key: String,
}

/// What a partition holds once a flush is done: for each sequencer, the
/// positions still unpersisted, and the row timestamp up to which rows are
/// persisted.
#[derive(Debug, Clone)]
pub struct PartitionCheckpoint {
    pub table_name: String,
    pub partition_key: String,
    pub sequencer_numbers: BTreeMap<u32, OptionalMinMaxSequence>,
    pub flush_timestamp: Time,
}

impl PartitionCheckpoint {
    pub fn new(
        table_name: String,
        partition_key: String,
        sequencer_numbers: BTreeMap<u32, OptionalMinMaxSequence>,
        flush_timestamp: Time,
    ) -> (r: PartitionCheckpoint)
        ensures
            r.table_name@ == table_name@,
            r.partition_key@ == partition_key@,
            r.sequencer_numbers@ == sequencer_numbers@,
            r.flush_timestamp == flush_timestamp,
    {
        PartitionCheckpoint { table_name, partition_key, sequencer_numbers, flush_timestamp }
    }

    /// The range recorded for sequencer `id`, if any.
    pub fn sequencer_numbers(&self, id: u32) -> (r: Option<OptionalMinMaxSequence>)
        ensures
            self.sequencer_numbers@.contains_key(id) ==> r == Some(self.sequencer_numbers@[id]),
            !self.sequencer_numbers@.contains_key(id) ==> r is None,
    {
        match self.sequencer_numbers.get(&id) {
            Some(n) => Some(*n),
            None => None,
        }
    }

    /// All recorded ranges, by sequencer.
    pub fn sequencer_numbers_map(&self) -> (r: &BTreeMap<u32, OptionalMinMaxSequence>)
        ensures
            r@ == self.sequencer_numbers@,
    {
        &self.sequencer_numbers
    }

    pub fn flush_timestamp(&self) -> (r: Time)
        ensures
            r == self.flush_timestamp,
    {
        self.flush_timestamp
    }
}

/// An approximate summary of the writes held in one window. After a partial
/// flush the row count may include rows that are already persisted.
#[derive(Debug, Clone, Copy, PartialEq, Eq, Structural)]
pub struct WriteSummary {
    pub time_of_first_write: Time,
    pub time_of_last_write: Time,
    pub min_timestamp: Time,
    pub max_timestamp: Time,
    pub row_count: usize,
}

} // verus!
