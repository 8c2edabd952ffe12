use std::collections::BTreeMap;
use std::sync::{Arc, Mutex};

use persistence_windows::{
    Duration, MinMaxSequence, OptionalMinMaxSequence, PartitionAddr, PartitionCheckpoint,
    PersistenceWindows, Sequence, Time, TimeProvider, WriteSummary,
};

#[derive(Debug)]
struct MockProvider {
    now: Mutex<Time>,
}

impl MockProvider {
    fn new(start: Time) -> Self {
        Self { now: Mutex::new(start) }
    }

    fn set(&self, t: Time) {
        *self.now.lock().unwrap() = t;
    }

    fn inc(&self, d: Duration) {
        let mut now = self.now.lock().unwrap();
        *now = now.checked_add(d).unwrap();
    }
}

impl TimeProvider for MockProvider {
    fn now(&self) -> Time {
        *self.now.lock().unwrap()
    }
}

fn plus(t: Time, d: Duration) -> Time {
    t.checked_add(d).unwrap()
}

fn secs(n: u64) -> Duration {
    Duration::from_secs(n)
}

fn millis(n: u64) -> Duration {
    Duration::from_millis(n)
}

fn times(d: Duration, n: u64) -> Duration {
    Duration::from_nanos(d.as_nanos() * n)
}

fn default_closed_window() -> Duration {
    Duration::from_secs(30)
}

fn nanos(n: i64) -> Time {
    Time::from_timestamp_nanos(n)
}

fn make_windows(
    late_arrival_period: Duration,
    start: Time,
) -> (PersistenceWindows<MockProvider>, Arc<MockProvider>) {
    let provider = Arc::new(MockProvider::new(start));
    let windows = PersistenceWindows::new(
        PartitionAddr {
            db_name: String::from("db"),
            table_name: String::from("table_name"),
            partition_key: String::from("partition_key"),
        },
        late_arrival_period,
        Arc::clone(&provider),
    );
    (windows, provider)
}

#[test]
fn time_go_backwards() {
    let (mut w, time) = make_windows(Duration::from_secs(60), nanos(0));

    time.set(nanos(1));
    w.add_range(Some(&Sequence { id: 1, number: 1 }), 1, nanos(100), nanos(200));

    time.set(nanos(0));
    w.add_range(Some(&Sequence { id: 1, number: 2 }), 1, nanos(100), nanos(200));
}

#[test]
fn starts_open_window() {
    let row_t0 = nanos(23526);
    let row_t1 = plus(row_t0, secs(1));
    let row_t2 = plus(row_t1, millis(3));
    let row_t3 = plus(row_t2, millis(3));

    let write_t0 = nanos(39832985493);
    let write_t1 = plus(write_t0, secs(2));
    let write_t2 = plus(write_t1, secs(2));
    let write_t3 = plus(write_t2, secs(2));

    let (mut w, time) = make_windows(Duration::from_secs(60), write_t0);

    // Write timestamps are purposefully out of order
    w.add_range(Some(&Sequence { id: 1, number: 2 }), 1, row_t0, row_t0);
    time.set(write_t2);
    w.add_range(Some(&Sequence { id: 1, number: 4 }), 2, row_t1, row_t1);
    time.set(write_t3);
    w.add_range(Some(&Sequence { id: 1, number: 10 }), 1, row_t2, row_t3);
    time.set(write_t1);
    w.add_range(Some(&Sequence { id: 2, number: 23 }), 10, row_t2, row_t3);

    assert!(w.closed_windows().is_empty());
    assert!(w.persistable_window().is_none());
    let open = w.open_window().unwrap();

    assert_eq!(open.time_of_last_write(), write_t3);
    assert_eq!(open.min_time(), row_t0);
    assert_eq!(open.max_time(), row_t3);
    assert_eq!(open.row_count(), 14);
    assert_eq!(
        open.sequencer_numbers().get(&1).unwrap(),
        &MinMaxSequence::new(2, 10)
    );
    assert_eq!(
        open.sequencer_numbers().get(&2).unwrap(),
        &MinMaxSequence::new(23, 23)
    );
}

#[test]
fn closes_open_window() {
    let created_at = nanos(405693840963);
    let after_close_threshold = plus(created_at, default_closed_window());

    let row_t0 = nanos(39049493);
    let row_t1 = plus(row_t0, secs(3));
    let row_t2 = plus(row_t1, millis(65));

    let (mut w, time) = make_windows(Duration::from_secs(60), created_at);

    w.add_range(Some(&Sequence { id: 1, number: 2 }), 1, row_t0, row_t1);
    w.add_range(Some(&Sequence { id: 1, number: 3 }), 1, row_t0, row_t1);

    time.set(after_close_threshold);

    w.add_range(Some(&Sequence { id: 1, number: 6 }), 2, row_t1, row_t2);

    assert!(w.persistable_window().is_none());

    assert_eq!(w.closed_windows().len(), 1);
    let closed = w.closed_windows().get(0).unwrap();
    assert_eq!(
        closed.sequencer_numbers().get(&1).unwrap(),
        &MinMaxSequence::new(2, 3)
    );
    assert_eq!(closed.row_count(), 2);
    assert_eq!(closed.min_time(), row_t0);
    assert_eq!(closed.max_time(), row_t1);

    let open = w.open_window().unwrap();
    assert_eq!(open.row_count(), 2);
    assert_eq!(open.min_time(), row_t1);
    assert_eq!(open.max_time(), row_t2);
    assert_eq!(
        open.sequencer_numbers().get(&1).unwrap(),
        &MinMaxSequence::new(6, 6)
    )
}

#[test]
fn moves_to_persistable() {
    let write_t0 = nanos(23459823490);
    let write_t1 = plus(write_t0, default_closed_window());
    let write_t2 = plus(write_t1, default_closed_window());
    let write_t3 = plus(write_t2, times(default_closed_window(), 3));
    let write_t4 = plus(write_t3, times(default_closed_window(), 100));

    let row_t0 = nanos(346363);
    let row_t1 = plus(row_t0, secs(4));
    let row_t2 = plus(row_t1, millis(393));
    let row_t3 = plus(row_t2, millis(493));
    let row_t4 = plus(row_t3, millis(5956));
    let row_t5 = plus(row_t4, millis(6997));

    let (mut w, time) = make_windows(Duration::from_secs(120), write_t0);

    w.add_range(Some(&Sequence { id: 1, number: 2 }), 2, row_t0, row_t1);

    time.set(write_t1);
    w.add_range(Some(&Sequence { id: 1, number: 3 }), 3, row_t1, row_t2);

    time.set(write_t2);
    w.add_range(Some(&Sequence { id: 1, number: 4 }), 4, row_t2, row_t3);

    assert!(w.persistable_window().is_none());
    // confirm the two on closed and third on open
    let c = w.closed_windows().get(0).cloned().unwrap();
    assert_eq!(c.time_of_first_write(), write_t0);
    assert_eq!(c.row_count(), 2);
    assert_eq!(c.min_time(), row_t0);
    assert_eq!(c.max_time(), row_t1);

    let c = w.closed_windows().get(1).cloned().unwrap();
    assert_eq!(c.time_of_first_write(), write_t1);
    assert_eq!(c.row_count(), 3);
    assert_eq!(c.min_time(), row_t1);
    assert_eq!(c.max_time(), row_t2);

    let c = w.open_window().cloned().unwrap();
    assert_eq!(c.time_of_first_write(), write_t2);
    assert_eq!(c.row_count(), 4);
    assert_eq!(c.min_time(), row_t2);
    assert_eq!(c.max_time(), row_t3);

    time.set(write_t3);
    w.add_range(Some(&Sequence { id: 1, number: 5 }), 1, row_t4, row_t4);

    // confirm persistable has first and second
    let c = w.persistable_window().unwrap();
    assert_eq!(c.time_of_first_write(), write_t0);
    assert_eq!(c.row_count(), 5);
    assert_eq!(c.min_time(), row_t0);
    assert_eq!(c.max_time(), row_t2);

    // and the third window moved to closed
    let c = w.closed_windows().get(0).cloned().unwrap();
    assert_eq!(c.time_of_first_write(), write_t2);
    assert_eq!(c.row_count(), 4);
    assert_eq!(c.min_time(), row_t2);
    assert_eq!(c.max_time(), row_t3);

    time.set(write_t4);
    w.add_range(Some(&Sequence { id: 1, number: 9 }), 2, row_t5, row_t5);

    let c = w.persistable_window().unwrap();
    assert_eq!(c.time_of_first_write(), write_t0);
    assert_eq!(c.row_count(), 10);
    assert_eq!(c.min_time(), row_t0);
    assert_eq!(c.max_time(), row_t4);
}

#[test]
fn flush_persistable_keeps_open_and_closed() {
    let write_t0 = nanos(546859);
    let write_t1 = plus(write_t0, times(default_closed_window(), 2));
    let write_t2 = plus(write_t1, default_closed_window());
    let write_t3 = plus(write_t2, default_closed_window());

    let start_time = nanos(34693946939);
    let first_end = plus(start_time, secs(1));
    let second_start = plus(first_end, secs(1));
    let second_end = plus(second_start, secs(1));
    let third_start = plus(second_end, secs(1));
    let third_end = plus(third_start, secs(1));

    let (mut w, time) = make_windows(Duration::from_secs(120), write_t0);

    time.set(write_t0);
    w.add_range(Some(&Sequence { id: 1, number: 2 }), 2, start_time, first_end);

    time.set(write_t1);
    w.add_range(Some(&Sequence { id: 1, number: 3 }), 3, second_start, second_end);

    time.set(write_t2);
    w.add_range(Some(&Sequence { id: 1, number: 5 }), 2, third_start, third_end);

    time.set(write_t3);
    w.rotate();

    let c = w.persistable_window().unwrap();
    assert_eq!(c.time_of_first_write(), write_t0);
    assert_eq!(c.row_count(), 2);
    assert_eq!(c.min_time(), start_time);
    assert_eq!(c.max_time(), first_end);

    let mins = w.persistable_window().unwrap().sequencer_numbers().clone();
    assert_eq!(mins, w.minimum_unpersisted_sequence().unwrap());

    let handle = w.flush_handle().unwrap();
    w.flush(handle);

    assert!(w.persistable_window().is_none());
    let mins = w.closed_windows()[0].sequencer_numbers().clone();
    assert_eq!(mins, w.minimum_unpersisted_sequence().unwrap());

    let c = &w.closed_windows()[0];
    assert_eq!(c.row_count(), 3);
    assert_eq!(c.min_time(), second_start);
    assert_eq!(c.max_time(), second_end);
    assert_eq!(c.time_of_first_write(), write_t1);

    let c = &w.closed_windows()[1];
    assert_eq!(c.row_count(), 2);
    assert_eq!(c.min_time(), third_start);
    assert_eq!(c.max_time(), third_end);
    assert_eq!(c.time_of_first_write(), write_t2);
}

#[test]
fn flush_persistable_overlaps_closed() {
    let write_t0 = nanos(3949);
    let write_t1 = plus(write_t0, times(default_closed_window(), 2));
    let write_t2 = plus(write_t1, default_closed_window());
    let write_t3 = plus(write_t2, default_closed_window());

    let start_time = nanos(97945794);
    let second_start = plus(start_time, secs(1));
    let first_end = plus(second_start, secs(1));
    let second_end = plus(first_end, secs(1));
    let third_start = plus(first_end, secs(1));
    let third_end = plus(third_start, secs(1));

    let (mut w, time) = make_windows(Duration::from_secs(120), write_t0);

    w.add_range(Some(&Sequence { id: 1, number: 2 }), 2, start_time, first_end);

    time.set(write_t1);
    w.add_range(Some(&Sequence { id: 1, number: 3 }), 3, second_start, second_end);
    time.set(write_t2);
    w.add_range(Some(&Sequence { id: 1, number: 5 }), 2, third_start, third_end);

    time.set(write_t3);
    w.rotate();

    let c = w.persistable_window().unwrap();
    assert_eq!(c.time_of_first_write(), write_t0);
    assert_eq!(c.row_count(), 2);
    assert_eq!(c.min_time(), start_time);
    assert_eq!(c.max_time(), first_end);

    let mins = w.persistable_window().unwrap().sequencer_numbers().clone();
    assert_eq!(mins, w.minimum_unpersisted_sequence().unwrap());
    let flush = w.flush_handle().unwrap();

    assert_eq!(flush.timestamp(), first_end);
    let truncated_time = plus(flush.timestamp(), Duration::from_nanos(1));

    w.flush(flush);
    assert!(w.persistable_window().is_none());
    let mins = w.closed_windows()[0].sequencer_numbers().clone();
    assert_eq!(mins, w.minimum_unpersisted_sequence().unwrap());

    // the first closed window should have a min time truncated by the flush
    let c = &w.closed_windows()[0];
    assert_eq!(c.row_count(), 3);
    assert_eq!(c.min_time(), truncated_time);
    assert_eq!(c.max_time(), second_end);
    assert_eq!(c.time_of_first_write(), write_t1);

    let c = &w.closed_windows()[1];
    assert_eq!(c.row_count(), 2);
    assert_eq!(c.min_time(), third_start);
    assert_eq!(c.max_time(), third_end);
    assert_eq!(c.time_of_first_write(), write_t2);
}

#[test]
fn flush_persistable_overlaps_open() {
    let write_t0 = nanos(346934603);
    let write_t1 = plus(write_t0, times(default_closed_window(), 3));
    let write_t2 = plus(write_t1, default_closed_window());
    let write_t3 = plus(write_t2, secs(1));

    let start_time = nanos(346934603);
    let third_start = plus(start_time, secs(1));
    let first_end = plus(third_start, secs(1));
    let second_end = plus(first_end, secs(1));
    let third_end = plus(second_end, secs(1));

    let (mut w, time) = make_windows(Duration::from_secs(120), write_t0);

    w.add_range(Some(&Sequence { id: 1, number: 2 }), 2, start_time, first_end);
    time.set(write_t1);

    w.add_range(Some(&Sequence { id: 1, number: 3 }), 3, first_end, second_end);
    time.set(write_t2);

    w.add_range(Some(&Sequence { id: 1, number: 5 }), 2, third_start, third_end);
    time.set(write_t3);

    w.rotate();

    let c = w.persistable_window().unwrap();
    assert_eq!(c.time_of_first_write(), write_t0);
    assert_eq!(c.row_count(), 2);
    assert_eq!(c.min_time(), start_time);
    assert_eq!(c.max_time(), first_end);

    let mins = w.persistable_window().unwrap().sequencer_numbers().clone();
    assert_eq!(mins, w.minimum_unpersisted_sequence().unwrap());

    let flush = w.flush_handle().unwrap();
    assert_eq!(flush.timestamp(), first_end);
    assert!(w.open_window().is_none());
    let flushed_time = plus(flush.timestamp(), Duration::from_nanos(1));

    w.flush(flush);
    assert!(w.persistable_window().is_none());

    let mins = w.closed_windows()[0].sequencer_numbers().clone();
    assert_eq!(mins, w.minimum_unpersisted_sequence().unwrap());

    assert_eq!(w.closed_windows().len(), 2);

    // the closed window should have a min time equal to the flush
    let c = &w.closed_windows()[0];
    assert_eq!(c.row_count(), 3);
    assert_eq!(c.min_time(), flushed_time);
    assert_eq!(c.max_time(), second_end);
    assert_eq!(c.time_of_first_write(), write_t1);

    // the open window should have been closed as part of creating the flush
    // handle and then truncated by the flush timestamp
    let c = &w.closed_windows()[1];
    assert_eq!(c.row_count(), 2);
    assert_eq!(c.min_time(), flushed_time);
    assert_eq!(c.max_time(), third_end);
    assert_eq!(c.time_of_first_write(), write_t2);
}

#[test]
fn flush_persistable_overlaps_open_and_closed() {
    let write_t0 = nanos(347094709);
    let write_t1 = plus(write_t0, times(default_closed_window(), 3));
    let write_t2 = plus(write_t1, default_closed_window());
    let write_t3 = plus(write_t2, secs(1));

    let start_time = nanos(435760947094);
    let second_start = plus(start_time, secs(1));
    let third_start = plus(second_start, secs(1));
    let first_end = plus(third_start, secs(1));
    let second_end = plus(first_end, secs(1));
    let third_end = plus(second_end, secs(1));

    let (mut w, time) = make_windows(Duration::from_secs(120), write_t0);

    w.add_range(Some(&Sequence { id: 1, number: 2 }), 2, start_time, first_end);

    time.set(write_t1);
    w.add_range(Some(&Sequence { id: 1, number: 3 }), 3, second_start, second_end);

    time.set(write_t2);
    w.add_range(Some(&Sequence { id: 1, number: 5 }), 2, third_start, third_end);

    let c = w.persistable_window().unwrap();
    assert_eq!(c.time_of_first_write(), write_t0);
    assert_eq!(c.row_count(), 2);
    assert_eq!(c.min_time(), start_time);
    assert_eq!(c.max_time(), first_end);

    let mins = w.persistable_window().unwrap().sequencer_numbers().clone();
    assert_eq!(mins, w.minimum_unpersisted_sequence().unwrap());

    // this should rotate the first window into persistable
    // after flush we should see no more persistable window and the closed windows
    // should have min timestamps equal to the previous flush end.
    time.set(write_t3);
    let flush = w.flush_handle().unwrap();
    assert_eq!(flush.timestamp(), first_end);
    assert!(w.open_window().is_none());
    let flushed_time = plus(flush.timestamp(), Duration::from_nanos(1));
    w.flush(flush);
    assert!(w.persistable_window().is_none());
    let mins = w.closed_windows()[0].sequencer_numbers().clone();
    assert_eq!(mins, w.minimum_unpersisted_sequence().unwrap());

    assert_eq!(w.closed_windows().len(), 2);

    // the closed window should have a min time equal to the flush
    let c = &w.closed_windows()[0];
    assert_eq!(c.row_count(), 3);
    assert_eq!(c.min_time(), flushed_time);
    assert_eq!(c.max_time(), second_end);
    assert_eq!(c.time_of_first_write(), write_t1);

    // the open window should have been closed as part of creating the flush
    // handle and then truncated by the flush timestamp
    let c = &w.closed_windows()[1];
    assert_eq!(c.row_count(), 2);
    assert_eq!(c.min_time(), flushed_time);
    assert_eq!(c.max_time(), third_end);
    assert_eq!(c.time_of_first_write(), write_t2);
}

#[test]
fn test_flush_guard() {
    let late_arrival_period = Duration::from_secs(120);

    // Space writes so each goes to a separate window
    let write_t0 = nanos(565);
    let write_t1 = plus(write_t0, late_arrival_period);
    let write_t2 = plus(write_t1, times(late_arrival_period, 2));

    let row_t0 = nanos(340596340);
    let row_t1 = plus(row_t0, secs(2));
    let row_t2 = plus(row_t1, secs(2));

    let (mut w, time) = make_windows(late_arrival_period, write_t0);

    w.add_range(Some(&Sequence { id: 1, number: 2 }), 2, row_t0, row_t1);

    time.set(write_t1);
    w.rotate();
    assert!(w.persistable_window().is_some());
    assert_eq!(w.persistable_window().unwrap().row_count(), 2);
    assert_eq!(w.persistable_window().unwrap().max_time(), row_t1);

    w.add_range(Some(&Sequence { id: 1, number: 4 }), 5, row_t0, row_t2);

    // Should rotate into closed
    time.set(plus(write_t1, default_closed_window()));
    w.rotate();
    assert_eq!(w.closed_windows().len(), 1);

    let guard = w.flush_handle().unwrap();

    // Should only allow one at once
    assert!(w.flush_handle().is_none());

    time.set(plus(write_t1, late_arrival_period));

    // This should not rotate into persistable as active flush guard
    w.rotate();
    assert_eq!(w.persistable_window().unwrap().row_count(), 2);

    let flush_t = guard.timestamp();
    assert_eq!(flush_t, row_t1);

    // Min time should have been truncated by persist operation to be
    // 1 nanosecond more than was persisted
    let truncated_time = plus(flush_t, Duration::from_nanos(1));

    // The flush checkpoint should not include the writes being persisted
    let flush_checkpoint = guard.checkpoint();
    assert_eq!(
        flush_checkpoint.sequencer_numbers(1).unwrap(),
        OptionalMinMaxSequence::new(Some(4), 4)
    );
    assert_eq!(flush_checkpoint.flush_timestamp(), flush_t);

    // The sequencer numbers on the partition should include everything
    let sequencer_numbers = w.sequencer_numbers();
    assert_eq!(
        sequencer_numbers.get(&1).unwrap(),
        &OptionalMinMaxSequence::new(Some(2), 4)
    );

    // Flush persistable window
    w.flush(guard);
    assert!(w.persistable_window().is_none());

    // As there were no writes between creating the flush handle and the flush
    // the new partition sequencer numbers should match the persisted one
    let sequencer_numbers = w.sequencer_numbers();
    assert_eq!(
        &flush_checkpoint.sequencer_numbers(1).unwrap(),
        sequencer_numbers.get(&1).unwrap()
    );

    // This should rotate into persistable
    w.rotate();
    assert_eq!(w.persistable_window().unwrap().row_count(), 5);
    assert_eq!(w.persistable_window().unwrap().min_time(), truncated_time);

    let guard = w.flush_handle().unwrap();

    // that checkpoint has an optional minimum
    let flush_checkpoint = guard.checkpoint();
    assert_eq!(
        flush_checkpoint.sequencer_numbers(1).unwrap(),
        OptionalMinMaxSequence::new(None, 4)
    );

    time.set(write_t2);
    w.add_range(
        Some(&Sequence { id: 1, number: 9 }),
        9,
        row_t0,
        plus(row_t0, secs(2)),
    );

    // Should rotate into closed
    time.set(plus(write_t2, default_closed_window()));
    w.rotate();
    assert_eq!(w.closed_windows().len(), 1);

    // This should not rotate into persistable as active flush guard
    time.set(plus(write_t2, late_arrival_period));
    w.rotate();
    assert_eq!(w.persistable_window().unwrap().row_count(), 5);

    std::mem::drop(guard);
    // This should rotate into persistable
    w.rotate();
    assert_eq!(w.persistable_window().unwrap().row_count(), 5 + 9);
    assert_eq!(w.persistable_window().unwrap().min_time(), row_t0);
}

#[test]
fn test_flush_guard_multiple_closed() {
    let late_arrival_period = times(default_closed_window(), 3);

    // Space writes so each goes to a separate window
    let write_t0 = nanos(340634);
    let write_t1 = plus(write_t0, default_closed_window());
    let write_t2 = plus(write_t1, default_closed_window());
    let write_t3 = plus(write_t2, default_closed_window());
    let write_t4 = plus(write_t3, default_closed_window());

    let row_t0 = nanos(70780);
    let row_t1 = plus(row_t0, secs(2));
    let row_t2 = plus(row_t1, secs(2));

    let (mut w, time) = make_windows(late_arrival_period, write_t0);

    w.add_range(Some(&Sequence { id: 1, number: 2 }), 2, row_t0, row_t1);

    time.set(write_t1);
    w.add_range(Some(&Sequence { id: 1, number: 6 }), 5, row_t0, row_t2);

    time.set(write_t2);
    w.add_range(Some(&Sequence { id: 1, number: 9 }), 9, row_t0, row_t1);

    time.set(write_t3);
    w.add_range(Some(&Sequence { id: 1, number: 10 }), 17, row_t0, row_t1);

    assert_eq!(w.closed_windows().len(), 2);
    assert_eq!(w.closed_windows()[0].row_count(), 5);
    assert_eq!(w.closed_windows()[1].row_count(), 9);
    assert_eq!(w.open_window().unwrap().row_count(), 17);

    let flush = w.flush_handle().unwrap();
    let flush_t = flush.timestamp();

    assert!(w.open_window().is_none());
    assert_eq!(flush.closed_count(), 3);
    assert_eq!(flush_t, row_t1);
    let truncated_time = plus(flush_t, Duration::from_nanos(1));

    assert_eq!(w.persistable_window().unwrap().row_count(), 2);

    time.set(write_t4);
    w.add_range(Some(&Sequence { id: 1, number: 14 }), 11, row_t0, row_t1);

    time.set(plus(write_t4, default_closed_window()));
    w.rotate();

    // Despite time passing persistable window shouldn't have changed due to flush guard
    assert_eq!(w.persistable_window().unwrap().row_count(), 2);
    assert_eq!(w.closed_windows().len(), 4);

    // The flush checkpoint should not include the latest write nor those being persisted
    let checkpoint = flush.checkpoint();
    assert_eq!(
        checkpoint.sequencer_numbers(1).unwrap(),
        OptionalMinMaxSequence::new(Some(6), 10)
    );
    assert_eq!(checkpoint.flush_timestamp(), flush_t);

    // The sequencer numbers of partition should include everything
    let sequencer_numbers = w.sequencer_numbers();
    assert_eq!(
        sequencer_numbers.get(&1).unwrap(),
        &OptionalMinMaxSequence::new(Some(2), 14)
    );

    w.flush(flush);

    // The sequencer numbers after the flush should include the new write
    let sequencer_numbers = w.sequencer_numbers();
    assert_eq!(
        sequencer_numbers.get(&1).unwrap(),
        &OptionalMinMaxSequence::new(Some(6), 14)
    );

    // Windows from writes 2 and 3 have been completely persisted by the flush

    assert!(w.persistable_window().is_none());
    assert_eq!(w.closed_windows().len(), 2);

    assert_eq!(w.closed_windows()[0].time_of_first_write(), write_t1);
    assert_eq!(w.closed_windows()[0].time_of_last_write(), write_t1);
    assert_eq!(w.closed_windows()[0].min_time(), truncated_time);
    assert_eq!(w.closed_windows()[0].max_time(), row_t2);
    assert_eq!(w.closed_windows()[0].row_count(), 5);

    // Window created after flush handle - should be left alone
    assert_eq!(w.closed_windows()[1].time_of_first_write(), write_t4);
    assert_eq!(w.closed_windows()[1].time_of_last_write(), write_t4);
    assert_eq!(w.closed_windows()[1].min_time(), row_t0);
    assert_eq!(w.closed_windows()[1].max_time(), row_t1);
    assert_eq!(w.closed_windows()[1].row_count(), 11);
}

#[test]
fn test_summaries() {
    let late_arrival_period = Duration::from_secs(100);
    let write_t0 = nanos(3963);
    let write_t1 = plus(write_t0, millis(1));
    let write_t2 = plus(write_t1, millis(29));
    let write_t3 = plus(write_t2, millis(20));
    let write_t4 = plus(write_t1, default_closed_window());
    let write_t5 = plus(write_t0, times(default_closed_window(), 3));
    let write_t6 = plus(write_t4, late_arrival_period);

    let (mut w, time) = make_windows(late_arrival_period, write_t0);

    // Window 1
    time.set(write_t1);
    w.add_range(Some(&Sequence { id: 1, number: 1 }), 11, nanos(10), nanos(11));

    time.set(write_t2);
    w.add_range(Some(&Sequence { id: 1, number: 2 }), 4, nanos(10), nanos(340));

    time.set(write_t3);
    w.add_range(Some(&Sequence { id: 1, number: 3 }), 6, nanos(1), nanos(5));

    // More than DEFAULT_CLOSED_WINDOW_PERIOD after start of Window 1 => Window 2
    time.set(write_t4);
    w.add_range(Some(&Sequence { id: 1, number: 4 }), 3, nanos(89), nanos(90));

    // More than DEFAULT_CLOSED_WINDOW_PERIOD after start of Window 2 => Window 3
    time.set(write_t5);
    w.add_range(Some(&Sequence { id: 1, number: 5 }), 8, nanos(3), nanos(4));

    let summaries: Vec<_> = w.summaries();

    assert_eq!(summaries.len(), 3);
    assert_eq!(
        summaries,
        vec![
            WriteSummary {
                time_of_first_write: write_t1,
                time_of_last_write: write_t3,
                min_timestamp: nanos(1),
                max_timestamp: nanos(340),
                row_count: 21
            },
            WriteSummary {
                time_of_first_write: write_t4,
                time_of_last_write: write_t4,
                min_timestamp: nanos(89),
                max_timestamp: nanos(90),
                row_count: 3
            },
            WriteSummary {
                time_of_first_write: write_t5,
                time_of_last_write: write_t5,
                min_timestamp: nanos(3),
                max_timestamp: nanos(4),
                row_count: 8
            },
        ]
    );

    // Rotate first and second windows into persistable
    time.set(write_t6);
    w.rotate();

    let summaries: Vec<_> = w.summaries();

    assert_eq!(summaries.len(), 2);
    assert_eq!(
        summaries,
        vec![
            WriteSummary {
                time_of_first_write: write_t1,
                time_of_last_write: write_t4,
                min_timestamp: nanos(1),
                max_timestamp: nanos(340),
                row_count: 24
            },
            WriteSummary {
                time_of_first_write: write_t5,
                time_of_last_write: write_t5,
                min_timestamp: nanos(3),
                max_timestamp: nanos(4),
                row_count: 8
            },
        ]
    );
}

#[test]
fn test_regression_2206() {
    let late_arrival_period = times(default_closed_window(), 10);

    let t0 = nanos(47069490749);
    let t1 = plus(t0, late_arrival_period);

    let (mut w, time) = make_windows(late_arrival_period, t0);

    // window 1: to be persisted
    let min_time = nanos(10);
    let max_time = nanos(11);
    w.add_range(Some(&Sequence { id: 1, number: 1 }), 1, min_time, max_time);

    // window 2: closed but overlaps with the persistence range
    time.set(t1);
    w.add_range(Some(&Sequence { id: 1, number: 4 }), 1, min_time, max_time);

    // persist
    let handle = w.flush_handle().unwrap();
    let ckpt = handle.checkpoint();
    w.flush(handle);

    // speculated checkpoint should be correct
    let ckpt_sequencer_numbers: BTreeMap<_, _> = ckpt.sequencer_numbers_map().clone();
    assert_eq!(w.sequencer_numbers(), ckpt_sequencer_numbers);
}

#[test]
fn test_mark_seen_and_persisted() {
    let late_arrival_period = Duration::from_secs(100);
    let t0 = nanos(47069490749);

    let (mut w, _) = make_windows(late_arrival_period, t0);

    let mut sequencer_numbers1 = BTreeMap::new();
    sequencer_numbers1.insert(1, OptionalMinMaxSequence::new(Some(1), 2));
    let ckpt1 = PartitionCheckpoint::new(
        String::from("foo"),
        String::from("bar"),
        sequencer_numbers1,
        nanos(260936036),
    );
    w.mark_seen_and_persisted(&ckpt1);

    let mut sequencer_numbers2 = BTreeMap::new();
    sequencer_numbers2.insert(1, OptionalMinMaxSequence::new(Some(0), 1));
    sequencer_numbers2.insert(2, OptionalMinMaxSequence::new(None, 3));
    let ckpt2 = PartitionCheckpoint::new(
        String::from("foo"),
        String::from("bar"),
        sequencer_numbers2,
        nanos(345345),
    );
    w.mark_seen_and_persisted(&ckpt2);

    let actual = w.sequencer_numbers();
    let mut expected = BTreeMap::new();
    expected.insert(1, OptionalMinMaxSequence::new(None, 2));
    expected.insert(2, OptionalMinMaxSequence::new(None, 3));
    assert_eq!(actual, expected);
}

#[test]
fn flush_min_max_timestamp() {
    let (mut w, time) = make_windows(Duration::from_secs(30), nanos(0));

    w.add_range(
        Some(&Sequence { id: 1, number: 2 }),
        2,
        Time::min_value(),
        Time::max_value(),
    );
    time.inc(Duration::from_secs(30));
    w.add_range(
        Some(&Sequence { id: 1, number: 3 }),
        2,
        Time::min_value(),
        Time::max_value(),
    );

    time.inc(Duration::from_secs(3));
    let handle = w.flush_handle().unwrap();
    assert_eq!(handle.timestamp(), Time::max_value());
    let ckpt = handle.checkpoint();
    assert_eq!(ckpt.flush_timestamp(), Time::max_value());
    w.flush(handle);

    assert!(w.closed_windows().is_empty());
    assert!(w.persistable_window().is_none());
}
