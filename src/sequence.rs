//! Positions on the input streams ("sequencers") that feed a partition.
use vstd::prelude::*;

verus! {

/// A position `number` on the input stream `id`.
#[derive(Clone, Copy, Debug, PartialEq, Eq, Structural, Hash)]
pub struct Sequence {
    pub id: u32,
    pub number: u64,
}

/// The lowest and highest position of one sequencer within a group of writes.
///
/// `min <= max` for every value built by [`MinMaxSequence::new`].
#[derive(Clone, Copy, Debug, PartialEq, Eq, Structural, Hash)]
pub struct MinMaxSequence {
    pub min: u64,
    pub max: u64,
}

/// The highest position seen of one sequencer, with the lowest position that
/// is still held in memory, if any is.
///
/// `min <= max` where `min` is present, for every value built by
/// [`OptionalMinMaxSequence::new`].
#[derive(Clone, Copy, Debug, PartialEq, Eq, Structural, Hash)]
pub struct OptionalMinMaxSequence {
    pub min: Option<u64>,
    pub max: u64,
}

impl MinMaxSequence {
    pub fn new(min: u64, max: u64) -> (r: MinMaxSequence)
        requires
            min <= max,
        ensures
            r == (MinMaxSequence { min, max }),
    {
        MinMaxSequence { min, max }
    }

    pub fn min(&self) -> (r: u64)
        ensures
            r == self.min,
    {
        self.min
    }

    pub fn max(&self) -> (r: u64)
        ensures
            r == self.max,
    {
        self.max
    }
}

impl OptionalMinMaxSequence {
    pub fn new(min: Option<u64>, max: u64) -> (r: OptionalMinMaxSequence)
        requires
            min matches Some(m) ==> m <= max,
        ensures
            r == (OptionalMinMaxSequence { min, max }),
    {
        OptionalMinMaxSequence { min, max }
    }

    pub fn min(&self) -> (r: Option<u64>)
        ensures
            r == self.min,
    {
        self.min
    }

    pub fn max(&self) -> (r: u64)
        ensures
            r == self.max,
    {
        self.max
    }
}

} // verus!
