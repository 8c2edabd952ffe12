//! The windows of one partition: which writes may be persisted, and the
//! two-step flush that persists them.
use std::collections::BTreeMap;
use std::sync::Arc;
use vstd::prelude::*;

use crate::checkpoint::{PartitionAddr, PartitionCheckpoint, WriteSummary};
use crate::model::{
    first_min, fold_persistable, highest_row_time, in_arrival_order, lemma_first_min_append,
    lemma_first_min_found, lemma_leading_aged, lemma_len_le_rows, lemma_merge_front,
    lemma_record_wf, lemma_retained_order, lemma_retained_rows, lemma_rows_append,
    lemma_rows_take, lowest_row_time, opt_seq, raise_maxima, retained, rows_of, seen_by,
    summary_of, FlushHandleModel, PartitionModel, DEFAULT_CLOSED_WINDOW_NANOS,
};
use crate::sequence::{MinMaxSequence, OptionalMinMaxSequence, Sequence};
use crate::time::{Duration, Time};
use crate::window::{aged, lemma_precedes_may_take, Window, WindowModel};

verus! {

/// A clock. It need not be monotonic: the windows clamp what it reports.
pub trait TimeProvider {
    fn now(&self) -> Time;
}

/// Relies on std's `Arc::strong_count`: the number of live clones of the
/// lease, the one passed in included. A flush handle holds the only other.
#[verifier::external_body]
fn lease_holders(lease: &Arc<()>) -> (r: usize)
    ensures
        r >= 1,
{
    Arc::strong_count(lease)
}

/// The position in `s`, as a plain value.
pub open spec fn sequence_of(s: Option<&Sequence>) -> Option<Sequence> {
    match s {
        Some(s) => Some(*s),
        None => None,
    }
}

/// The window in `w`, as plain values.
pub open spec fn opt_view(w: Option<Window>) -> Option<WindowModel> {
    match w {
        Some(w) => Some(w@),
        None => None,
    }
}

/// The flush handle in `h`, as plain values.
pub open spec fn handle_view(h: Option<FlushHandle>) -> Option<FlushHandleModel> {
    match h {
        Some(h) => Some(h@),
        None => None,
    }
}

/// The right to persist the persistable window of a partition, and what the
/// partition will hold once that is done.
///
/// While it exists, no closed window is folded into the persistable window.
/// Dropping it without a flush gives the right up.
pub struct FlushHandle {
    closed_count: usize,
    addr: PartitionAddr,
    timestamp: Time,
    sequencer_numbers: BTreeMap<u32, OptionalMinMaxSequence>,
    lease: Arc<()>,
}

impl View for FlushHandle {
    type V = FlushHandleModel;

    closed spec fn view(&self) -> FlushHandleModel {
        FlushHandleModel {
            closed_count: self.closed_count as nat,
            timestamp: self.timestamp,
            sequencer_numbers: self.sequencer_numbers@,
            table_name: self.addr.table_name@,
            partition_key: self.addr.partition_key@,
        }
    }
}

impl FlushHandle {
    /// Rows with a timestamp at or below this one are to be flushed.
    pub fn timestamp(&self) -> (r: Time)
        ensures
            r == self@.timestamp,
    {
        self.timestamp
    }

    /// The number of closed windows when the handle was taken.
    pub fn closed_count(&self) -> (r: usize)
        ensures
            r == self@.closed_count,
    {
        self.closed_count
    }

    /// What the partition will hold once this flush is done.
    pub fn checkpoint(&self) -> (r: PartitionCheckpoint)
        ensures
            r.table_name@ == self@.table_name,
            r.partition_key@ == self@.partition_key,
            r.sequencer_numbers@ == self@.sequencer_numbers,
            r.flush_timestamp == self@.timestamp,
    {
        PartitionCheckpoint::new(
            self.addr.table_name.clone(),
            self.addr.partition_key.clone(),
            self.sequencer_numbers.clone(),
            self.timestamp,
        )
    }
}

/// Tracks the writes of one partition in arrival-time windows to tell when,
/// and up to which row timestamp, they can be persisted.
///
/// Writes go to the open window; it closes once `closed_window_period` old,
/// and closed windows are folded into the persistable window once
/// `late_arrival_period` old. A flush handle takes the persistable window;
/// while one is out, nothing more is folded into it.
pub struct PersistenceWindows<P: TimeProvider> {
    persistable: Option<Window>,
    closed: Vec<Window>,
    open: Option<Window>,
    addr: PartitionAddr,
    late_arrival_period: Duration,
    closed_window_period: Duration,
    /// The latest arrival time recorded.
    time_of_last_write: Time,
    /// For each sequencer, the highest position ever seen.
    max_sequence_numbers: BTreeMap<u32, u64>,
    /// A flush handle was handed out and has not been seen to go away.
    frozen: bool,
    /// Shared with the flush handle that is out, if any: while it lives,
    /// this has two holders.
    lease: Arc<()>,
    time_provider: Arc<P>,
}

impl<P: TimeProvider> View for PersistenceWindows<P> {
    type V = PartitionModel;

    closed spec fn view(&self) -> PartitionModel {
        PartitionModel {
            persistable: opt_view(self.persistable),
            closed: self.closed@.map_values(|w: Window| w@),
            open: opt_view(self.open),
            late_arrival_period: self.late_arrival_period,
            closed_window_period: self.closed_window_period,
            time_of_last_write: self.time_of_last_write,
            max_sequence_numbers: self.max_sequence_numbers@,
            frozen: self.frozen,
            table_name: self.addr.table_name@,
            partition_key: self.addr.partition_key@,
        }
    }
}

impl<P: TimeProvider> PersistenceWindows<P> {
    /// No windows yet for the partition `addr`, with the clock reading
    /// `now`: no write will be taken to arrive before it. Windows close once
    /// `late_arrival_period` old, or thirty seconds old where that is sooner.
    pub fn new_at(addr: PartitionAddr, late_arrival_period: Duration, now: Time, time_provider: Arc<P>) -> (r: Self)
        ensures
            r@.wf(),
            r@.persistable is None,
            r@.closed.len() == 0,
            r@.open is None,
            r@.late_arrival_period == late_arrival_period,
            r@.time_of_last_write == now,
            r@.max_sequence_numbers.is_empty(),
            !r@.frozen,
            r@.table_name == addr.table_name@,
            r@.partition_key == addr.partition_key@,
            rows_of(r@.windows()) == 0,
    {
        let closed_window_period = late_arrival_period.shorter(
            Duration::from_nanos(DEFAULT_CLOSED_WINDOW_NANOS),
        );
        let r = PersistenceWindows {
            persistable: None,
            closed: Vec::new(),
            open: None,
            addr,
            late_arrival_period,
            closed_window_period,
            time_of_last_write: now,
            max_sequence_numbers: BTreeMap::new(),
            frozen: false,
            lease: Arc::new(()),
            time_provider,
        };
        assert(r@.windows() =~= Seq::<WindowModel>::empty());
        r
    }

    /// No windows yet for the partition `addr`, with the time provider's
    /// current time as the earliest arrival.
    pub fn new(addr: PartitionAddr, late_arrival_period: Duration, time_provider: Arc<P>) -> (r: Self)
        ensures
            r@.wf(),
            r@.persistable is None,
            r@.closed.len() == 0,
            r@.open is None,
            r@.late_arrival_period == late_arrival_period,
            r@.max_sequence_numbers.is_empty(),
            !r@.frozen,
            r@.table_name == addr.table_name@,
            r@.partition_key == addr.partition_key@,
            rows_of(r@.windows()) == 0,
    {
        let now = time_provider.now();
        Self::new_at(addr, late_arrival_period, now, time_provider)
    }

    /// Notices a flush handle that was dropped without being flushed.
    fn sync_lease(&mut self)
        ensures
            final(self)@ == old(self)@.with_frozen(final(self)@.frozen),
            final(self)@.frozen ==> old(self)@.frozen,
    {
        if self.frozen && lease_holders(&self.lease) == 1 {
            self.frozen = false;
        }
    }

    /// Rotates the windows as of `now`: the open window closes once
    /// `closed_window_period` old, and, unless a flush handle is out, closed
    /// windows `late_arrival_period` old are folded into the persistable one.
    ///
    /// The lease is released first where its flush handle was dropped.
    pub fn rotate_to(&mut self, now: Time)
        requires
            old(self)@.wf(),
        ensures
            final(self)@.frozen ==> old(self)@.frozen,
            final(self)@ == old(self)@.with_frozen(final(self)@.frozen).rotate(now),
            rows_of(final(self)@.windows()) == rows_of(old(self)@.windows()),
            final(self)@.wf(),
    {
        self.sync_lease();
        self.rotate_core(now);
    }

    /// Rotates the windows as of the time provider's current time.
    pub fn rotate(&mut self)
        requires
            old(self)@.wf(),
        ensures
            final(self)@.frozen ==> old(self)@.frozen,
            exists|now: Time| final(self)@ == #[trigger] old(self)@.with_frozen(final(self)@.frozen).rotate(now),
            rows_of(final(self)@.windows()) == rows_of(old(self)@.windows()),
            final(self)@.wf(),
    {
        let now = self.time_provider.now();
        self.rotate_to(now);
    }

    /// Records a write that was observed when the clock read `now`, of
    /// `row_count` rows with row timestamps from `min_time` to `max_time`.
    ///
    /// The arrival time is `now`, clamped to no earlier than the latest
    /// arrival recorded; the windows rotate as of `now` first.
    pub fn add_range_at(
        &mut self,
        now: Time,
        sequence: Option<&Sequence>,
        row_count: usize,
        min_time: Time,
        max_time: Time,
    )
        requires
            old(self)@.wf(),
            old(self)@.add_range_allowed(
                sequence_of(sequence),
                row_count as nat,
                min_time,
                max_time,
            ),
        ensures
            final(self)@.frozen ==> old(self)@.frozen,
            final(self)@ == old(self)@.with_frozen(final(self)@.frozen).add_range(
                now,
                sequence_of(sequence),
                row_count as nat,
                min_time,
                max_time,
            ),
            final(self)@.time_of_last_write.nanos >= old(self)@.time_of_last_write.nanos,
            rows_of(final(self)@.windows()) == rows_of(old(self)@.windows()) + row_count,
            final(self)@.wf(),
    {
        let ghost sq = sequence_of(sequence);
        let time_of_write = if self.time_of_last_write.nanos >= now.nanos {
            self.time_of_last_write
        } else {
            now
        };
        self.sync_lease();
        let ghost s1 = self@;
        self.rotate_core(now);
        let ghost s2 = self@;
        self.time_of_last_write = time_of_write;
        if let Some(sequence) = sequence {
            self.max_sequence_numbers.insert(sequence.id, sequence.number);
        }
        assert(self@ == s2.note_write(now, sq));
        proof {
            lemma_record_wf(s2, now, sq, row_count as nat, min_time, max_time);
        }
        match self.open.take() {
            Some(mut w) => {
                proof {
                    let ws = s2.windows();
                    assert(ws[ws.len() - 1] == w@);
                    assert(seen_by(ws[ws.len() - 1], s2.max_sequence_numbers, s2.time_of_last_write));
                    assert(ws[ws.len() - 1].valid());
                    lemma_rows_append(opt_seq(s2.persistable) + s2.closed, seq![w@]);
                    assert(ws =~= opt_seq(s2.persistable) + s2.closed + seq![w@]);
                    assert(rows_of(seq![w@].drop_first()) == 0);
                }
                w.add_range(sequence, row_count, min_time, max_time, time_of_write);
                self.open = Some(w);
            },
            None => {
                self.open = Some(Window::new(time_of_write, sequence, row_count, min_time, max_time));
            },
        }
        assert(self@ == s2.note_write(now, sq).record(time_of_write, sq, row_count as nat, min_time, max_time));
        assert(s1.note_write(now, sq).rotate(now) == s2.note_write(now, sq));
    }

    /// Records a write observed now, by the time provider's clock.
    ///
    /// # Requires
    /// - `row_count > 0` and `min_time <= max_time`;
    /// - a sequence position above the highest seen of its sequencer;
    /// - a total row count that fits in a `usize`.
    pub fn add_range(
        &mut self,
        sequence: Option<&Sequence>,
        row_count: usize,
        min_time: Time,
        max_time: Time,
    )
        requires
            old(self)@.wf(),
            old(self)@.add_range_allowed(
                sequence_of(sequence),
                row_count as nat,
                min_time,
                max_time,
            ),
        ensures
            final(self)@.frozen ==> old(self)@.frozen,
            exists|now: Time|
                final(self)@ == #[trigger] old(self)@.with_frozen(final(self)@.frozen).add_range(
                    now,
                    sequence_of(sequence),
                    row_count as nat,
                    min_time,
                    max_time,
                ),
            final(self)@.time_of_last_write.nanos >= old(self)@.time_of_last_write.nanos,
            rows_of(final(self)@.windows()) == rows_of(old(self)@.windows()) + row_count,
            final(self)@.wf(),
    {
        let now = self.time_provider.now();
        self.add_range_at(now, sequence, row_count, min_time, max_time);
    }

    /// The lowest position of sequencer `id` in the first window searched
    /// by `sequencer_numbers(skip_persistable)` that holds it.
    fn first_min_of(&self, id: u32, skip_persistable: bool) -> (r: Option<u64>)
        requires
            self@.wf(),
        ensures
            r == first_min(self@.searched_windows(skip_persistable), id, self@.search_cut(skip_persistable)),
            r matches Some(m) ==> self@.max_sequence_numbers.contains_key(id)
                && m <= self@.max_sequence_numbers[id],
    {
        let ghost ws = self@.searched_windows(skip_persistable);
        let ghost cut = self@.search_cut(skip_persistable);
        proof {
            lemma_first_min_found(ws, id, cut);
            if first_min(ws, id, cut) is Some {
                let i = choose|i: int|
                    0 <= i < ws.len() && #[trigger] ws[i].sequencer_numbers.contains_key(id)
                        && ws[i].sequencer_numbers[id].min == first_min(ws, id, cut)->0;
                if self@.skips(skip_persistable) {
                    assert(ws[i] == self@.windows()[i + 1]);
                    assert(seen_by(self@.windows()[i + 1], self@.max_sequence_numbers, self@.time_of_last_write));
                    assert(self@.windows()[i + 1].valid());
                } else {
                    assert(seen_by(ws[i], self@.max_sequence_numbers, self@.time_of_last_write));
                    assert(ws[i].valid());
                }
            }
        }
        let skip = skip_persistable && self.persistable.is_some();
        let cut_time: Option<Time> = if skip {
            match &self.persistable {
                Some(p) => Some(p.max_time()),
                None => None,
            }
        } else {
            None
        };
        assert(first_min(Seq::<WindowModel>::empty(), id, cut) is None);
        let ghost front = if skip { Seq::<WindowModel>::empty() } else { opt_seq(self@.persistable) };
        assert(ws =~= front + self@.closed + opt_seq(self@.open));
        proof {
            lemma_first_min_append(front + self@.closed, opt_seq(self@.open), id, cut);
            lemma_first_min_append(front, self@.closed, id, cut);
        }
        if !skip {
            if let Some(p) = &self.persistable {
                assert(front =~= seq![p@]);
                assert(front.drop_first() =~= Seq::<WindowModel>::empty());
                if let Some(n) = p.sequencer_numbers().get(&id) {
                    return Some(n.min);
                }
            }
        }
        assert(first_min(front, id, cut) is None);
        assert(self@.closed.skip(0) =~= self@.closed);
        let mut i: usize = 0;
        while i < self.closed.len()
            invariant
                i <= self.closed.len(),
                first_min(self@.closed, id, cut) == first_min(self@.closed.skip(i as int), id, cut),
                cut_time == cut,
                first_min(ws, id, cut) == match first_min(self@.closed, id, cut) {
                    Some(m) => Some(m),
                    None => first_min(opt_seq(self@.open), id, cut),
                },
                first_min(ws, id, cut) matches Some(m) ==> self@.max_sequence_numbers.contains_key(id)
                    && m <= self@.max_sequence_numbers[id],
                ws == self@.searched_windows(skip_persistable),
                cut == self@.search_cut(skip_persistable),
            decreases self.closed.len() - i,
        {
            let w = &self.closed[i];
            let ghost rest = self@.closed.skip(i as int);
            assert(rest[0] == w@);
            assert(rest.drop_first() =~= self@.closed.skip(i as int + 1));
            let past_cut = match cut_time {
                Some(c) => w.max_time().nanos > c.nanos,
                None => true,
            };
            if past_cut {
                if let Some(n) = w.sequencer_numbers().get(&id) {
                    return Some(n.min);
                }
            }
            i = i + 1;
        }
        assert(self@.closed.skip(i as int) =~= Seq::<WindowModel>::empty());
        if let Some(w) = &self.open {
            assert(opt_seq(self@.open) =~= seq![w@]);
            assert(opt_seq(self@.open).drop_first() =~= Seq::<WindowModel>::empty());
            let past_cut = match cut_time {
                Some(c) => w.max_time().nanos > c.nanos,
                None => true,
            };
            if past_cut {
                if let Some(n) = w.sequencer_numbers().get(&id) {
                    return Some(n.min);
                }
            }
        }
        None
    }

    /// For each sequencer seen, the highest position seen and the lowest
    /// position still held in a window; with `skip_persistable`, the
    /// persistable window and the windows whose rows all lie at or below its
    /// highest row time are passed over.
    fn sequencer_numbers_inner(&self, skip_persistable: bool) -> (r: BTreeMap<u32, OptionalMinMaxSequence>)
        requires
            self@.wf(),
        ensures
            r@ == self@.sequencer_numbers(skip_persistable),
    {
        let ghost target = self@.sequencer_numbers(skip_persistable);
        let ghost all = self@.max_sequence_numbers;
        let mut result: BTreeMap<u32, OptionalMinMaxSequence> = BTreeMap::new();
        let ghost mut done: Set<u32> = Set::empty();
        assert(result@ =~= target.restrict(done));
        for (id, max) in it: self.max_sequence_numbers.iter()
            invariant
                result@ == target.restrict(done),
                done.subset_of(all.dom()),
                all == self@.max_sequence_numbers,
                target == self@.sequencer_numbers(skip_persistable),
                self@.wf(),
                forall|k: u32| #[trigger]
                    all.contains_key(k) ==> done.contains(k) || exists|j: int|
                        it.index() <= j < it.seq().len() && *it.seq()[j].0 == k,
        {
            assert(all.contains_key(*id) && all[*id] == *max);
            let min = self.first_min_of(*id, skip_persistable);
            result.insert(*id, OptionalMinMaxSequence::new(min, *max));
            proof {
                assert(result@ =~= target.restrict(done.insert(*id)));
                done = done.insert(*id);
            }
        }
        proof {
            assert(done =~= all.dom());
            assert(result@ =~= target);
        }
        result
    }

    /// For each sequencer seen, the highest position seen and the lowest
    /// position not yet persisted, if any.
    pub fn sequencer_numbers(&self) -> (r: BTreeMap<u32, OptionalMinMaxSequence>)
        requires
            self@.wf(),
        ensures
            r@ == self@.sequencer_numbers(false),
    {
        self.sequencer_numbers_inner(false)
    }

    /// Takes a flush handle as of `now`, with the lease as it stands.
    fn acquire_at(&mut self, now: Time) -> (r: Option<FlushHandle>)
        requires
            old(self)@.wf(),
        ensures
            (final(self)@, handle_view(r)) == old(self)@.acquire(now),
            final(self)@.wf(),
    {
        if self.frozen {
            return None;
        }
        let ghost s0 = self@;
        let ghost s1 = match s0.open {
            Some(o) => PartitionModel { closed: s0.closed.push(o), open: None, ..s0 },
            None => s0,
        };
        if let Some(open) = self.open.take() {
            self.closed.push(open);
            assert(self@.closed =~= s0.closed.push(s0.open->0));
        }
        assert(self@ == s1);
        assert(self@.windows() =~= s0.windows());
        assert(self@.wf());
        self.rotate_core(now);
        let timestamp = match &self.persistable {
            Some(p) => p.max_time(),
            None => {
                return None;
            },
        };
        let sequencer_numbers = self.sequencer_numbers_inner(true);
        let closed_count = self.closed.len();
        self.frozen = true;
        Some(
            FlushHandle {
                closed_count,
                addr: PartitionAddr {
                    db_name: self.addr.db_name.clone(),
                    table_name: self.addr.table_name.clone(),
                    partition_key: self.addr.partition_key.clone(),
                },
                timestamp,
                sequencer_numbers,
                lease: Arc::clone(&self.lease),
            },
        )
    }

    /// Takes a flush handle as of `now`: `None` while another is out, or
    /// where nothing is persistable. The open window is closed first, and
    /// the windows rotate as of `now`.
    ///
    /// Where an earlier handle has been dropped, its lease is released first.
    pub fn flush_handle_at(&mut self, now: Time) -> (r: Option<FlushHandle>)
        requires
            old(self)@.wf(),
        ensures
            (final(self)@, handle_view(r)) == old(self)@.acquire(now) || (old(self)@.frozen
                && (final(self)@, handle_view(r)) == old(self)@.with_frozen(false).acquire(now)),
            r matches Some(h) ==> h@.table_name == old(self)@.table_name && h@.partition_key
                == old(self)@.partition_key,
            final(self)@.wf(),
    {
        self.sync_lease();
        self.acquire_at(now)
    }

    /// Takes a flush handle as of the time provider's current time.
    ///
    /// Returns `None` while another handle is out or where nothing is
    /// persistable.
    pub fn flush_handle(&mut self) -> (r: Option<FlushHandle>)
        requires
            old(self)@.wf(),
        ensures
            exists|now: Time|
                (final(self)@, handle_view(r)) == #[trigger] old(self)@.acquire(now) || (old(self)@.frozen
                    && (final(self)@, handle_view(r)) == old(self)@.with_frozen(false).acquire(now)),
            final(self)@.wf(),
    {
        let now = self.time_provider.now();
        self.flush_handle_at(now)
    }

    /// Takes a flush handle that covers every window: rotation runs as of
    /// the latest representable instant.
    pub fn flush_all_handle(&mut self) -> (r: Option<FlushHandle>)
        requires
            old(self)@.wf(),
        ensures
            (final(self)@, handle_view(r)) == old(self)@.acquire((Time { nanos: i64::MAX })) || (old(self)@.frozen
                && (final(self)@, handle_view(r)) == old(self)@.with_frozen(false).acquire((Time { nanos: i64::MAX }))),
            final(self)@.wf(),
    {
        self.flush_handle_at(Time::max_value())
    }

    /// Completes the flush of `handle`: the persistable window is gone, and
    /// the closed windows that existed when the handle was taken lose the
    /// rows at or below its timestamp; those left with none are dropped.
    /// Where the timestamp is the latest representable instant, every closed
    /// window is dropped.
    ///
    /// # Requires
    /// The persistable window is the one `handle` was taken for, and no
    /// closed window it knew of is gone.
    pub fn flush(&mut self, handle: FlushHandle)
        requires
            old(self)@.wf(),
            old(self)@.flush_allowed(handle@),
        ensures
            final(self)@ == old(self)@.flush(handle@),
            final(self)@.wf(),
            rows_of(final(self)@.windows()) <= rows_of(old(self)@.windows()),
            forall|i: int|
                0 <= i < final(self)@.closed.len() - (old(self)@.closed.len() - handle@.closed_count) ==> #[trigger] final(self)@.closed[i].min_time.nanos > handle@.timestamp.nanos,
    {
        let ghost s0 = self@;
        let ghost h = handle@;
        let closed_count = handle.closed_count;
        let timestamp = handle.timestamp;
        self.persistable = None;
        self.frozen = false;
        let ghost ws = s0.windows();
        assert(ws.drop_first() =~= s0.closed + opt_seq(s0.open));
        proof {
            assert forall|i: int, j: int| 0 <= i < j < ws.drop_first().len() implies #[trigger] ws.drop_first()[i].precedes(ws.drop_first()[j]) by {
                assert(ws[i + 1].precedes(ws[j + 1]));
            }
            assert forall|i: int| 0 <= i < ws.drop_first().len() implies #[trigger] ws.drop_first()[i].valid() by {
                assert(ws[i + 1].valid());
            }
            assert forall|i: int| 0 <= i < ws.drop_first().len() implies #[trigger] seen_by(ws.drop_first()[i], s0.max_sequence_numbers, s0.time_of_last_write) by {
                assert(seen_by(ws[i + 1], s0.max_sequence_numbers, s0.time_of_last_write));
            }
            assert(rows_of(ws) == ws[0].row_count + rows_of(ws.drop_first()));
        }
        match timestamp.checked_add(Duration::from_nanos(1)) {
            Some(new_min) => {
                let mut tail = self.closed.split_off(closed_count);
                let ghost head = self@.closed;
                let mut kept: Vec<Window> = Vec::new();
                let ghost mut i: int = 0;
                assert(head.take(0) =~= Seq::<WindowModel>::empty());
                assert(kept@.map_values(|w: Window| w@) =~= retained(head.take(0), new_min));
                while self.closed.len() > 0
                    invariant
                        0 <= i <= head.len(),
                        self@.closed == head.skip(i),
                        kept@.map_values(|w: Window| w@) == retained(head.take(i), new_min),
                        head == s0.closed.take(closed_count as int),
                        tail@.map_values(|w: Window| w@) == s0.closed.skip(closed_count as int),
                        self@ == (PartitionModel { closed: self@.closed, ..s0.flush(h) }),
                    decreases self.closed.len(),
                {
                    let ghost before = self@.closed;
                    assert(before.len() == self.closed.len());
                    assert(before[0] == head[i]);
                    let ghost bv = self.closed@;
                    let mut w = self.closed.remove(0);
                    assert(w@ == before[0]);
                    assert(self.closed@ =~= bv.drop_first());
                    assert forall|k: int| 0 <= k < self@.closed.len() implies self@.closed[k] == before[k + 1] by {
                        assert(self.closed@[k] == bv[k + 1]);
                    }
                    assert(head.take(i + 1).drop_last() =~= head.take(i));
                    assert(self@.closed =~= head.skip(i + 1));
                    if w.max_time().nanos >= new_min.nanos {
                        w.truncate(new_min);
                        kept.push(w);
                        assert(kept@.map_values(|w: Window| w@) =~= retained(head.take(i), new_min).push(head[i].truncated(new_min)));
                    }
                    proof {
                        i = i + 1;
                    }
                }
                assert(head.take(i) =~= head);
                kept.append(&mut tail);
                self.closed = kept;
                assert(self@.closed =~= retained(head, new_min) + s0.closed.skip(closed_count as int));
                proof {
                    assert(s0.closed =~= head + s0.closed.skip(closed_count as int));
                    let b = s0.closed.skip(closed_count as int) + opt_seq(s0.open);
                    assert(ws.drop_first() =~= head + b);
                    lemma_retained_order(head, b, new_min, s0.max_sequence_numbers, s0.time_of_last_write);
                    lemma_retained_rows(head, new_min);
                    lemma_rows_append(head, b);
                    lemma_rows_append(retained(head, new_min), b);
                    assert(self@.windows() =~= retained(head, new_min) + b);
                    assert(forall|k: int| 0 <= k < retained(head, new_min).len() ==> self@.closed[k] == retained(head, new_min)[k]);
                }
            },
            None => {
                self.closed = Vec::new();
                proof {
                    let b = opt_seq(s0.open);
                    assert(self@.windows() =~= b);
                    assert(ws.drop_first() =~= s0.closed + b);
                    lemma_rows_append(s0.closed, b);
                    if s0.open is Some {
                        assert(b[0] == ws.drop_first()[s0.closed.len() as int]);
                    }
                }
            },
        }
    }

    /// The number of windows held.
    fn window_count(&self) -> (r: usize)
        requires
            self@.wf(),
        ensures
            r == self@.windows().len(),
    {
        proof {
            lemma_len_le_rows(self@.windows());
        }
        let p: usize = if self.persistable.is_some() { 1 } else { 0 };
        let o: usize = if self.open.is_some() { 1 } else { 0 };
        p + self.closed.len() + o
    }

    /// Window `k` of all windows, oldest first.
    fn window_at(&self, k: usize) -> (r: &Window)
        requires
            k < self@.windows().len(),
        ensures
            r@ == self@.windows()[k as int],
    {
        match &self.persistable {
            Some(p) => {
                if k == 0 {
                    return p;
                }
                if k - 1 < self.closed.len() {
                    return &self.closed[k - 1];
                }
            },
            None => {
                if k < self.closed.len() {
                    return &self.closed[k];
                }
            },
        }
        match &self.open {
            Some(o) => o,
            None => {
                assert(false);
                &self.closed[0]
            },
        }
    }

    /// Approximate summaries of the writes held, one per window, oldest
    /// first. A window that a flush persisted in part keeps its row count.
    pub fn summaries(&self) -> (r: Vec<WriteSummary>)
        requires
            self@.wf(),
        ensures
            r@ == self@.windows().map_values(|w: WindowModel| summary_of(w)),
    {
        let n = self.window_count();
        let mut r: Vec<WriteSummary> = Vec::new();
        let mut k: usize = 0;
        while k < n
            invariant
                k <= n,
                n == self@.windows().len(),
                r@ == self@.windows().take(k as int).map_values(|w: WindowModel| summary_of(w)),
            decreases n - k,
        {
            let w = self.window_at(k);
            r.push(
                WriteSummary {
                    time_of_first_write: w.time_of_first_write(),
                    time_of_last_write: w.time_of_last_write(),
                    min_timestamp: w.min_time(),
                    max_timestamp: w.max_time(),
                    row_count: w.row_count(),
                },
            );
            k = k + 1;
            assert(r@ =~= self@.windows().take(k as int).map_values(|w: WindowModel| summary_of(w)));
        }
        assert(self@.windows().take(n as int) =~= self@.windows());
        r
    }

    /// Whether no window is held.
    pub fn is_empty(&self) -> (r: bool)
        ensures
            r == (self@.windows().len() == 0),
    {
        let r = self.persistable.is_none() && self.closed.len() == 0 && self.open.is_none();
        assert(r == (self@.windows().len() == 0));
        r
    }

    /// The sequencer ranges of the oldest window, if any.
    pub fn minimum_unpersisted_sequence(&self) -> (r: Option<BTreeMap<u32, MinMaxSequence>>)
        ensures
            self@.windows().len() == 0 ==> r is None,
            self@.windows().len() > 0 ==> (r matches Some(m) && m@ == self@.windows()[0].sequencer_numbers),
    {
        if self.is_empty() {
            None
        } else {
            Some(self.window_at(0).sequencer_numbers().clone())
        }
    }

    /// The arrival time of the first write of the oldest window, if any.
    pub fn minimum_unpersisted_age(&self) -> (r: Option<Time>)
        ensures
            self@.windows().len() == 0 ==> r is None,
            self@.windows().len() > 0 ==> r == Some(self@.windows()[0].time_of_first_write),
    {
        if self.is_empty() {
            None
        } else {
            Some(self.window_at(0).time_of_first_write())
        }
    }

    /// The lowest row timestamp held, if any.
    pub fn minimum_unpersisted_timestamp(&self) -> (r: Option<Time>)
        requires
            self@.wf(),
        ensures
            r == lowest_row_time(self@.windows()),
    {
        let n = self.window_count();
        let mut r: Option<Time> = None;
        let mut k: usize = 0;
        while k < n
            invariant
                k <= n,
                n == self@.windows().len(),
                r == lowest_row_time(self@.windows().take(k as int)),
            decreases n - k,
        {
            let t = self.window_at(k).min_time();
            assert(self@.windows().take(k as int + 1).drop_last() =~= self@.windows().take(k as int));
            r = match r {
                Some(m) => Some(if m.nanos <= t.nanos { m } else { t }),
                None => Some(t),
            };
            k = k + 1;
        }
        assert(self@.windows().take(n as int) =~= self@.windows());
        r
    }

    /// The highest row timestamp held, if any.
    pub fn maximum_unpersisted_timestamp(&self) -> (r: Option<Time>)
        requires
            self@.wf(),
        ensures
            r == highest_row_time(self@.windows()),
    {
        let n = self.window_count();
        let mut r: Option<Time> = None;
        let mut k: usize = 0;
        while k < n
            invariant
                k <= n,
                n == self@.windows().len(),
                r == highest_row_time(self@.windows().take(k as int)),
            decreases n - k,
        {
            let t = self.window_at(k).max_time();
            assert(self@.windows().take(k as int + 1).drop_last() =~= self@.windows().take(k as int));
            r = match r {
                Some(m) => Some(if m.nanos >= t.nanos { m } else { t }),
                None => Some(t),
            };
            k = k + 1;
        }
        assert(self@.windows().take(n as int) =~= self@.windows());
        r
    }

    /// The rows of the oldest windows, in a row, that are
    /// `late_arrival_period` old at `now`.
    pub fn persistable_row_count_at(&self, now: Time) -> (r: usize)
        requires
            self@.wf(),
        ensures
            r == self@.persistable_rows(now),
    {
        let ghost ws = self@.windows();
        let n = self.window_count();
        let mut sum: usize = 0;
        let mut k: usize = 0;
        assert(ws.take(0) =~= Seq::<WindowModel>::empty());
        while k < n
            invariant
                k <= n,
                n == ws.len(),
                ws == self@.windows(),
                self@.wf(),
                sum == rows_of(ws.take(k as int)),
                forall|j: int| 0 <= j < k ==> aged(#[trigger] ws[j].time_of_first_write, now, self@.late_arrival_period),
            ensures
                sum == rows_of(ws.take(k as int)),
                forall|j: int| 0 <= j < k ==> aged(#[trigger] ws[j].time_of_first_write, now, self@.late_arrival_period),
                k == n || !aged(ws[k as int].time_of_first_write, now, self@.late_arrival_period),
            decreases n - k,
        {
            let w = self.window_at(k);
            if !w.is_persistable(now, self.late_arrival_period) {
                break;
            }
            proof {
                lemma_rows_take(ws, k as int);
            }
            sum = sum + w.row_count();
            k = k + 1;
        }
        proof {
            lemma_leading_aged(ws, now, self@.late_arrival_period, k as int);
        }
        sum
    }

    /// The rows that are persistable by the time provider's current time.
    pub fn persistable_row_count(&self) -> (r: usize)
        requires
            self@.wf(),
        ensures
            exists|now: Time| r == #[trigger] self@.persistable_rows(now),
    {
        let now = self.time_provider.now();
        self.persistable_row_count_at(now)
    }

    /// Updates the late arrival period, and with it the closed window period.
    pub fn set_late_arrival_period(&mut self, late_arrival_period: Duration)
        requires
            old(self)@.wf(),
        ensures
            final(self)@ == old(self)@.with_late_arrival_period(late_arrival_period),
            final(self)@.wf(),
    {
        self.closed_window_period = late_arrival_period.shorter(
            Duration::from_nanos(DEFAULT_CLOSED_WINDOW_NANOS),
        );
        self.late_arrival_period = late_arrival_period;
        assert(self@.windows() =~= old(self)@.windows());
    }

    /// Raises the highest position seen of each sequencer to the one the
    /// checkpoint records. Used on replay, to match data already persisted.
    pub fn mark_seen_and_persisted(&mut self, partition_checkpoint: &PartitionCheckpoint)
        requires
            old(self)@.wf(),
        ensures
            final(self)@ == old(self)@.mark_seen(partition_checkpoint.sequencer_numbers@),
            final(self)@.wf(),
    {
        let ghost a = self@.max_sequence_numbers;
        let ghost c = partition_checkpoint.sequencer_numbers@;
        let ghost mut done: Map<u32, OptionalMinMaxSequence> = Map::empty();
        assert(raise_maxima(a, done) =~= a);
        for (id, min_max) in it: partition_checkpoint.sequencer_numbers.iter()
            invariant
                self.max_sequence_numbers@ == raise_maxima(a, done),
                done.submap_of(c),
                forall|k: u32| #[trigger]
                    c.contains_key(k) ==> done.contains_key(k) || exists|j: int|
                        it.index() <= j < it.seq().len() && *it.seq()[j].0 == k,
                a == old(self)@.max_sequence_numbers,
                c == partition_checkpoint.sequencer_numbers@,
                self@ == (PartitionModel { max_sequence_numbers: self@.max_sequence_numbers, ..old(self)@ }),
        {
            proof {
                assert(c.contains_key(*id) && c[*id] == *min_max);
            }
            let current = match self.max_sequence_numbers.get(id) {
                Some(m) => Some(*m),
                None => None,
            };
            let raised = match current {
                Some(m) => if m >= min_max.max { m } else { min_max.max },
                None => min_max.max,
            };
            self.max_sequence_numbers.insert(*id, raised);
            proof {
                assert(raise_maxima(a, done.insert(*id, *min_max)) =~= raise_maxima(a, done).insert(*id, raised));
                done = done.insert(*id, *min_max);
            }
        }
        proof {
            assert(done =~= c);
            let s = self@;
            let ws = s.windows();
            assert(ws == old(self)@.windows());
            assert forall|i: int| 0 <= i < ws.len() implies #[trigger] seen_by(ws[i], s.max_sequence_numbers, s.time_of_last_write) by {
                assert(seen_by(ws[i], a, s.time_of_last_write));
                assert forall|id: u32| #[trigger] ws[i].sequencer_numbers.contains_key(id) implies s.max_sequence_numbers.contains_key(id)
                    && ws[i].sequencer_numbers[id].max <= s.max_sequence_numbers[id] by {
                    assert(a.contains_key(id));
                }
            }
        }
    }

    /// The persistable window, if any.
    pub fn persistable_window(&self) -> (r: Option<&Window>)
        ensures
            match r {
                Some(w) => self@.persistable == Some(w@),
                None => self@.persistable is None,
            },
    {
        self.persistable.as_ref()
    }

    /// The closed windows, oldest first.
    pub fn closed_windows(&self) -> (r: &[Window])
        ensures
            r@.map_values(|w: Window| w@) == self@.closed,
    {
        self.closed.as_slice()
    }

    /// The open window, if any.
    pub fn open_window(&self) -> (r: Option<&Window>)
        ensures
            match r {
                Some(w) => self@.open == Some(w@),
                None => self@.open is None,
            },
    {
        self.open.as_ref()
    }

    /// The latest arrival time recorded.
    pub fn time_of_last_write(&self) -> (r: Time)
        ensures
            r == self@.time_of_last_write,
    {
        self.time_of_last_write
    }

    /// Rotation at `now` with the lease as it stands.
    fn rotate_core(&mut self, now: Time)
        requires
            old(self)@.wf(),
        ensures
            final(self)@ == old(self)@.rotate(now),
            final(self)@.wf(),
            rows_of(final(self)@.windows()) == rows_of(old(self)@.windows()),
    {
        let ghost s0 = self@;
        let close = match &self.open {
            Some(w) => w.is_closeable(now, self.closed_window_period),
            None => false,
        };
        if close {
            let w = self.open.take().unwrap();
            self.closed.push(w);
            assert(self@.closed =~= s0.closed.push(s0.open->0));
            assert(self@.windows() =~= s0.windows());
        }
        assert(self@ == s0.close_open(now));
        if !self.frozen {
            let ghost target = fold_persistable(self@.persistable, self@.closed, now, self@.late_arrival_period);
            loop
                invariant
                    self@.wf(),
                    rows_of(self@.windows()) == rows_of(s0.windows()),
                    fold_persistable(self@.persistable, self@.closed, now, self@.late_arrival_period) == target,
                    self@ == (PartitionModel {
                        persistable: self@.persistable,
                        closed: self@.closed,
                        ..s0.close_open(now)
                    }),
                ensures
                    fold_persistable(self@.persistable, self@.closed, now, self@.late_arrival_period) == (
                    self@.persistable, self@.closed),
                decreases self.closed.len(),
            {
                if self.closed.len() == 0 {
                    assert(fold_persistable(self@.persistable, self@.closed, now, self@.late_arrival_period) == (self@.persistable, self@.closed));
                    break;
                }
                if !self.closed[0].is_persistable(now, self.late_arrival_period) {
                    assert(fold_persistable(self@.persistable, self@.closed, now, self@.late_arrival_period) == (self@.persistable, self@.closed));
                    break;
                }
                let ghost before = self@;
                let w = self.closed.remove(0);
                assert(self@.closed =~= before.closed.drop_first());
                match self.persistable.take() {
                    Some(mut p) => {
                        proof {
                            let ws = before.windows();
                            assert(ws[0] == p@ && ws[1] == w@);
                            lemma_merge_front(ws, before.max_sequence_numbers, before.time_of_last_write);
                            assert(ws[0].valid() && ws[1].valid() && ws[0].precedes(ws[1]));
                            lemma_precedes_may_take(ws[0], ws[1]);
                            lemma_rows_append(seq![ws[0]], ws.drop_first());
                            assert(seq![ws[0]] + ws.drop_first() =~= ws);
                            lemma_rows_append(seq![ws[1]], ws.skip(2));
                            assert(seq![ws[1]] + ws.skip(2) =~= ws.drop_first());
                        }
                        p.add_window(w);
                        self.persistable = Some(p);
                        proof {
                            let ws = before.windows();
                            assert(self@.windows() =~= seq![ws[0].merged(ws[1])] + ws.skip(2));
                            assert(in_arrival_order(self@.windows()));
                            assert(rows_of(self@.windows()) <= usize::MAX);
                            assert(self@.periods_agree());
                            assert(self@.wf());
                        }
                    },
                    None => {
                        self.persistable = Some(w);
                        assert(self@.windows() =~= before.windows());
                        assert(self@.max_sequence_numbers == before.max_sequence_numbers);
                        assert(self@.time_of_last_write == before.time_of_last_write);
                        assert(self@.periods_agree());
                        assert(in_arrival_order(self@.windows()));
                        assert(self@.wf());
                    },
                }
            }
            assert(self@.persistable == target.0 && self@.closed == target.1);
            assert(self@ == s0.rotate(now));
        }
    }
}

} // verus!
