//! A window: the aggregate of a run of writes that arrived close together.
use std::collections::BTreeMap;
use vstd::prelude::*;

use crate::sequence::{MinMaxSequence, Sequence};
use crate::time::{Duration, Time};

verus! {

/// The earlier of two instants.
pub open spec fn earliest(a: Time, b: Time) -> Time {
    if a.nanos <= b.nanos { a } else { b }
}

/// The later of two instants.
pub open spec fn latest(a: Time, b: Time) -> Time {
    if a.nanos <= b.nanos { b } else { a }
}

/// Whether `now` lies at least `period` after `start`; never where the clock
/// stands before `start`.
pub open spec fn aged(start: Time, now: Time, period: Duration) -> bool {
    start.nanos <= now.nanos && now.nanos - start.nanos >= period.nanos
}

/// The sequencer ranges of `seqs` after recording position `number` of
/// sequencer `id`.
pub open spec fn record_sequence(seqs: Map<u32, MinMaxSequence>, s: Sequence) -> Map<u32, MinMaxSequence> {
    if seqs.contains_key(s.id) {
        seqs.insert(s.id, MinMaxSequence { min: seqs[s.id].min, max: s.number })
    } else {
        seqs.insert(s.id, MinMaxSequence { min: s.number, max: s.number })
    }
}

/// The sequencer ranges of an older group `a` and a newer group `b` taken
/// together: the lower bound of the older, the upper bound of the newer.
pub open spec fn union_sequences(a: Map<u32, MinMaxSequence>, b: Map<u32, MinMaxSequence>) -> Map<u32, MinMaxSequence> {
    Map::new(
        |id: u32| a.contains_key(id) || b.contains_key(id),
        |id: u32|
            if a.contains_key(id) && b.contains_key(id) {
                MinMaxSequence { min: a[id].min, max: b[id].max }
            } else if b.contains_key(id) {
                b[id]
            } else {
                a[id]
            },
    )
}

/// What a window holds, as plain values.
pub struct WindowModel {
    /// Arrival time of the first write.
    pub time_of_first_write: Time,
    /// Arrival time of the last write.
    pub time_of_last_write: Time,
    /// Rows written.
    pub row_count: nat,
    /// Lowest row timestamp.
    pub min_time: Time,
    /// Highest row timestamp.
    pub max_time: Time,
    /// For each sequencer, the lowest and highest position written.
    pub sequencer_numbers: Map<u32, MinMaxSequence>,
}

impl WindowModel {
    /// The bounds are in order and the window holds rows.
    pub open spec fn valid(self) -> bool {
        &&& self.time_of_first_write.nanos <= self.time_of_last_write.nanos
        &&& self.min_time.nanos <= self.max_time.nanos
        &&& self.row_count > 0
        &&& forall|id: u32| #[trigger]
            self.sequencer_numbers.contains_key(id) ==> self.sequencer_numbers[id].min
                <= self.sequencer_numbers[id].max
    }

    /// `self` came before `later`: it stopped taking writes before `later`
    /// took its first, and each sequencer's positions in `self` lie below its
    /// positions in `later`.
    pub open spec fn precedes(self, later: WindowModel) -> bool {
        &&& self.time_of_last_write.nanos <= later.time_of_first_write.nanos
        &&& forall|id: u32|
            #![trigger self.sequencer_numbers.contains_key(id), later.sequencer_numbers.contains_key(id)]
            self.sequencer_numbers.contains_key(id) && later.sequencer_numbers.contains_key(id)
                ==> self.sequencer_numbers[id].max < later.sequencer_numbers[id].min
    }

    /// `later` may be taken into this window: it began arriving no earlier
    /// than this one's last write, and each sequencer the two share reaches
    /// a higher position in `later`.
    pub open spec fn may_take(self, later: WindowModel) -> bool {
        &&& self.time_of_last_write.nanos <= later.time_of_first_write.nanos
        &&& forall|id: u32|
            #![trigger self.sequencer_numbers.contains_key(id), later.sequencer_numbers.contains_key(id)]
            self.sequencer_numbers.contains_key(id) && later.sequencer_numbers.contains_key(id)
                ==> self.sequencer_numbers[id].max < later.sequencer_numbers[id].max
    }

    /// A window of one write that arrived at `now`.
    pub open spec fn first_write(
        now: Time,
        sequence: Option<Sequence>,
        row_count: nat,
        min_time: Time,
        max_time: Time,
    ) -> WindowModel {
        WindowModel {
            time_of_first_write: now,
            time_of_last_write: now,
            row_count,
            min_time,
            max_time,
            sequencer_numbers: match sequence {
                Some(s) => Map::empty().insert(s.id, MinMaxSequence { min: s.number, max: s.number }),
                None => Map::empty(),
            },
        }
    }

    /// The window after one more write that arrived at `now`.
    pub open spec fn with_write(
        self,
        sequence: Option<Sequence>,
        row_count: nat,
        min_time: Time,
        max_time: Time,
        now: Time,
    ) -> WindowModel {
        WindowModel {
            time_of_first_write: self.time_of_first_write,
            time_of_last_write: now,
            row_count: self.row_count + row_count,
            min_time: earliest(self.min_time, min_time),
            max_time: latest(self.max_time, max_time),
            sequencer_numbers: match sequence {
                Some(s) => record_sequence(self.sequencer_numbers, s),
                None => self.sequencer_numbers,
            },
        }
    }

    /// This window and the newer window `later` taken as one.
    pub open spec fn merged(self, later: WindowModel) -> WindowModel {
        WindowModel {
            time_of_first_write: self.time_of_first_write,
            time_of_last_write: later.time_of_last_write,
            row_count: self.row_count + later.row_count,
            min_time: earliest(self.min_time, later.min_time),
            max_time: latest(self.max_time, later.max_time),
            sequencer_numbers: union_sequences(self.sequencer_numbers, later.sequencer_numbers),
        }
    }

    /// The window with its lowest row timestamp raised to at least `new_min`.
    pub open spec fn truncated(self, new_min: Time) -> WindowModel {
        WindowModel { min_time: latest(self.min_time, new_min), ..self }
    }
}

/// Merging two valid windows in order gives a valid window, which precedes
/// whatever the newer one preceded.
pub proof fn lemma_merged_valid(a: WindowModel, b: WindowModel)
    requires
        a.valid(),
        b.valid(),
        a.precedes(b),
    ensures
        a.merged(b).valid(),
        forall|c: WindowModel| a.precedes(c) && b.precedes(c) ==> #[trigger] a.merged(b).precedes(c),
        forall|c: WindowModel| c.precedes(a) && c.precedes(b) ==> #[trigger] c.precedes(a.merged(b)),
{
    let m = a.merged(b);
    assert forall|id: u32| #[trigger] m.sequencer_numbers.contains_key(id) implies m.sequencer_numbers[id].min
        <= m.sequencer_numbers[id].max by {
        if a.sequencer_numbers.contains_key(id) && b.sequencer_numbers.contains_key(id) {
            assert(a.sequencer_numbers[id].max < b.sequencer_numbers[id].min);
        }
    }
    assert forall|c: WindowModel| a.precedes(c) && b.precedes(c) implies #[trigger] m.precedes(c) by {
        assert forall|id: u32|
            m.sequencer_numbers.contains_key(id) && c.sequencer_numbers.contains_key(id) implies m.sequencer_numbers[id].max
            < c.sequencer_numbers[id].min by {
            if a.sequencer_numbers.contains_key(id) && !b.sequencer_numbers.contains_key(id) {
                assert(a.sequencer_numbers.contains_key(id));
            }
        }
    }
    assert forall|c: WindowModel| c.precedes(a) && c.precedes(b) implies #[trigger] c.precedes(m) by {
        assert forall|id: u32|
            c.sequencer_numbers.contains_key(id) && m.sequencer_numbers.contains_key(id) implies c.sequencer_numbers[id].max
            < m.sequencer_numbers[id].min by {
            if a.sequencer_numbers.contains_key(id) {
                assert(c.sequencer_numbers[id].max < a.sequencer_numbers[id].min);
            } else {
                assert(b.sequencer_numbers.contains_key(id));
            }
        }
    }
}

/// A window that precedes a valid one may take it.
pub proof fn lemma_precedes_may_take(a: WindowModel, b: WindowModel)
    requires
        b.valid(),
        a.precedes(b),
    ensures
        a.may_take(b),
{
    assert forall|id: u32|
        a.sequencer_numbers.contains_key(id) && b.sequencer_numbers.contains_key(id) implies a.sequencer_numbers[id].max
        < b.sequencer_numbers[id].max by {
        assert(b.sequencer_numbers[id].min <= b.sequencer_numbers[id].max);
    }
}

/// A contiguous group of writes, with its arrival-time bounds, row-time
/// bounds, row count and the positions of each sequencer in it.
#[derive(Debug, Clone)]
pub struct Window {
    time_of_first_write: Time,
    time_of_last_write: Time,
    row_count: usize,
    min_time: Time,
    max_time: Time,
    sequencer_numbers: BTreeMap<u32, MinMaxSequence>,
}

impl View for Window {
    type V = WindowModel;

    closed spec fn view(&self) -> WindowModel {
        WindowModel {
            time_of_first_write: self.time_of_first_write,
            time_of_last_write: self.time_of_last_write,
            row_count: self.row_count as nat,
            min_time: self.min_time,
            max_time: self.max_time,
            sequencer_numbers: self.sequencer_numbers@,
        }
    }
}

impl Window {
    /// A window of the single write that arrived at `time_of_write`.
    pub fn new(
        time_of_write: Time,
        sequence: Option<&Sequence>,
        row_count: usize,
        min_time: Time,
        max_time: Time,
    ) -> (r: Window)
        ensures
            r@ == WindowModel::first_write(
                time_of_write,
                match sequence {
                    Some(s) => Some(*s),
                    None => None,
                },
                row_count as nat,
                min_time,
                max_time,
            ),
    {
        let mut sequencer_numbers = BTreeMap::new();
        if let Some(sequence) = sequence {
            sequencer_numbers.insert(sequence.id, MinMaxSequence::new(sequence.number, sequence.number));
        }
        let r = Window {
            time_of_first_write: time_of_write,
            time_of_last_write: time_of_write,
            row_count,
            min_time,
            max_time,
            sequencer_numbers,
        };
        assert(r@.sequencer_numbers =~= WindowModel::first_write(
            time_of_write,
            match sequence {
                Some(s) => Some(*s),
                None => None,
            },
            row_count as nat,
            min_time,
            max_time,
        ).sequencer_numbers);
        r
    }

    /// Records one more write that arrived at `time_of_write`.
    pub fn add_range(
        &mut self,
        sequence: Option<&Sequence>,
        row_count: usize,
        min_time: Time,
        max_time: Time,
        time_of_write: Time,
    )
        requires
            old(self)@.valid(),
            old(self)@.time_of_last_write.nanos <= time_of_write.nanos,
            old(self)@.row_count + row_count <= usize::MAX,
            sequence matches Some(s) ==> (old(self)@.sequencer_numbers.contains_key(s.id)
                ==> old(self)@.sequencer_numbers[s.id].max < s.number),
        ensures
            final(self)@ == old(self)@.with_write(
                match sequence {
                    Some(s) => Some(*s),
                    None => None,
                },
                row_count as nat,
                min_time,
                max_time,
                time_of_write,
            ),
    {
        self.time_of_last_write = time_of_write;
        self.row_count = self.row_count + row_count;
        if self.min_time.nanos > min_time.nanos {
            self.min_time = min_time;
        }
        if self.max_time.nanos < max_time.nanos {
            self.max_time = max_time;
        }
        if let Some(sequence) = sequence {
            let existing = match self.sequencer_numbers.get(&sequence.id) {
                Some(n) => Some(*n),
                None => None,
            };
            match existing {
                Some(n) => {
                    self.sequencer_numbers.insert(sequence.id, MinMaxSequence::new(n.min, sequence.number));
                },
                None => {
                    self.sequencer_numbers.insert(
                        sequence.id,
                        MinMaxSequence::new(sequence.number, sequence.number),
                    );
                },
            }
        }
    }

    /// Takes the newer window `other` into this one.
    pub fn add_window(&mut self, other: Window)
        requires
            old(self)@.valid(),
            other@.valid(),
            old(self)@.may_take(other@),
            old(self)@.row_count + other@.row_count <= usize::MAX,
        ensures
            final(self)@ == old(self)@.merged(other@),
            final(self)@.valid(),
    {
        self.time_of_last_write = other.time_of_last_write;
        self.row_count = self.row_count + other.row_count;
        if self.min_time.nanos > other.min_time.nanos {
            self.min_time = other.min_time;
        }
        if self.max_time.nanos < other.max_time.nanos {
            self.max_time = other.max_time;
        }
        let ghost a = self.sequencer_numbers@;
        let ghost b = other.sequencer_numbers@;
        let ghost mut done: Map<u32, MinMaxSequence> = Map::empty();
        assert(union_sequences(a, done) =~= a);
        for (id, n) in it: other.sequencer_numbers.iter()
            invariant
                self.sequencer_numbers@ == union_sequences(a, done),
                self@ == (WindowModel { sequencer_numbers: self@.sequencer_numbers, ..old(self)@.merged(other@) }),
                done.submap_of(b),
                forall|k: u32| #[trigger]
                    b.contains_key(k) ==> done.contains_key(k) || exists|j: int|
                        it.index() <= j < it.seq().len() && *it.seq()[j].0 == k,
                a == old(self)@.sequencer_numbers,
                b == other@.sequencer_numbers,
                old(self)@.valid(),
                other@.valid(),
                old(self)@.may_take(other@),
        {
            let existing = match self.sequencer_numbers.get(id) {
                Some(m) => Some(*m),
                None => None,
            };
            proof {
                assert(b.contains_key(*id) && b[*id] == *n);
            }
            match existing {
                Some(m) => {
                    self.sequencer_numbers.insert(*id, MinMaxSequence::new(m.min, n.max));
                },
                None => {
                    self.sequencer_numbers.insert(*id, *n);
                },
            }
            proof {
                assert(union_sequences(a, done.insert(*id, *n)) =~= union_sequences(a, done).insert(
                    *id,
                    if a.contains_key(*id) {
                        MinMaxSequence { min: a[*id].min, max: n.max }
                    } else {
                        *n
                    },
                ));
                done = done.insert(*id, *n);
            }
        }
        proof {
            assert forall|k: u32| b.contains_key(k) implies done.contains_key(k) by {}
            assert forall|k: u32| done.contains_key(k) implies b.contains_key(k) && done[k] == b[k] by {}
            assert(done =~= b);
            let m = old(self)@.merged(other@);
            assert forall|id: u32| #[trigger] m.sequencer_numbers.contains_key(id) implies m.sequencer_numbers[id].min
                <= m.sequencer_numbers[id].max by {
                if a.contains_key(id) && b.contains_key(id) {
                    assert(a[id].min <= a[id].max && a[id].max < b[id].max);
                } else if b.contains_key(id) {
                    assert(b[id].min <= b[id].max);
                } else {
                    assert(a[id].min <= a[id].max);
                }
            }
        }
    }

    /// Raises the lowest row timestamp to at least `new_min`; the row count
    /// is left as it was.
    pub fn truncate(&mut self, new_min: Time)
        ensures
            final(self)@ == old(self)@.truncated(new_min),
    {
        if self.min_time.nanos < new_min.nanos {
            self.min_time = new_min;
        }
    }

    pub fn time_of_first_write(&self) -> (r: Time)
        ensures
            r == self@.time_of_first_write,
    {
        self.time_of_first_write
    }

    pub fn time_of_last_write(&self) -> (r: Time)
        ensures
            r == self@.time_of_last_write,
    {
        self.time_of_last_write
    }

    pub fn row_count(&self) -> (r: usize)
        ensures
            r == self@.row_count,
    {
        self.row_count
    }

    pub fn min_time(&self) -> (r: Time)
        ensures
            r == self@.min_time,
    {
        self.min_time
    }

    pub fn max_time(&self) -> (r: Time)
        ensures
            r == self@.max_time,
    {
        self.max_time
    }

    pub fn sequencer_numbers(&self) -> (r: &BTreeMap<u32, MinMaxSequence>)
        ensures
            r@ == self@.sequencer_numbers,
    {
        &self.sequencer_numbers
    }

    /// If the window is at least `closed_window_period` old at `now`.
    pub fn is_closeable(&self, now: Time, closed_window_period: Duration) -> (r: bool)
        ensures
            r == aged(self@.time_of_first_write, now, closed_window_period),
    {
        match now.checked_duration_since(self.time_of_first_write) {
            Some(age) => age.nanos >= closed_window_period.nanos,
            None => false,
        }
    }

    /// If the window is at least `late_arrival_period` old at `now`.
    pub fn is_persistable(&self, now: Time, late_arrival_period: Duration) -> (r: bool)
        ensures
            r == aged(self@.time_of_first_write, now, late_arrival_period),
    {
        match now.checked_duration_since(self.time_of_first_write) {
            Some(age) => age.nanos >= late_arrival_period.nanos,
            None => false,
        }
    }
}

} // verus!
