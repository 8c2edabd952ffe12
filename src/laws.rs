//! Properties that hold across the operations on a partition's windows.
use vstd::prelude::*;

use crate::model::{first_min, fold_persistable, retained, FlushHandleModel, PartitionModel};
use crate::sequence::Sequence;
use crate::time::{Duration, Time};
use crate::window::{aged, latest, WindowModel};

verus! {

/// After a fold, the oldest closed window left, if any, is not old enough.
proof fn lemma_fold_stops(p: Option<WindowModel>, closed: Seq<WindowModel>, now: Time, period: Duration)
    ensures
        ({
            let f = fold_persistable(p, closed, now, period);
            f.1.len() == 0 || !aged(f.1[0].time_of_first_write, now, period)
        }),
    decreases closed.len(),
{
    if closed.len() > 0 && aged(closed[0].time_of_first_write, now, period) {
        lemma_fold_stops(
            Some(
                match p {
                    Some(w) => w.merged(closed[0]),
                    None => closed[0],
                },
            ),
            closed.drop_first(),
            now,
            period,
        );
    }
}

/// Where every closed window is old enough, a fold takes them all, and the
/// persistable window reaches at least the highest row time of the newest.
proof fn lemma_fold_all(p: Option<WindowModel>, closed: Seq<WindowModel>, now: Time, period: Duration)
    requires
        forall|i: int| 0 <= i < closed.len() ==> aged(#[trigger] closed[i].time_of_first_write, now, period),
    ensures
        ({
            let f = fold_persistable(p, closed, now, period);
            &&& f.1.len() == 0
            &&& closed.len() > 0 ==> (f.0 is Some && f.0->0.max_time.nanos >= closed.last().max_time.nanos)
            &&& closed.len() == 0 ==> f.0 == p
        }),
    decreases closed.len(),
{
    if closed.len() > 0 {
        assert(aged(closed[0].time_of_first_write, now, period));
        let q = Some(
            match p {
                Some(w) => w.merged(closed[0]),
                None => closed[0],
            },
        );
        assert forall|i: int| 0 <= i < closed.drop_first().len() implies aged(#[trigger] closed.drop_first()[i].time_of_first_write, now, period) by {
            assert(closed.drop_first()[i] == closed[i + 1]);
        }
        lemma_fold_all(q, closed.drop_first(), now, period);
    }
}

/// No window lies wholly above the latest representable instant.
proof fn lemma_first_min_past_end(ws: Seq<WindowModel>, id: u32)
    ensures
        first_min(ws, id, Some(Time { nanos: i64::MAX })) is None,
    decreases ws.len(),
{
    if ws.len() > 0 {
        lemma_first_min_past_end(ws.drop_first(), id);
    }
}

/// Searching the windows kept by a flush up to `cut` finds what searching
/// all of them past `cut` finds.
proof fn lemma_first_min_retained(ws: Seq<WindowModel>, id: u32, cut: Time)
    requires
        cut.nanos < i64::MAX,
    ensures
        first_min(retained(ws, Time { nanos: (cut.nanos + 1) as i64 }), id, None) == first_min(ws, id, Some(cut)),
    decreases ws.len(),
{
    let new_min = Time { nanos: (cut.nanos + 1) as i64 };
    if ws.len() > 0 {
        let front = ws.drop_last();
        let x = ws.last();
        lemma_first_min_retained(front, id, cut);
        crate::model::lemma_first_min_append(front, seq![x], id, Some(cut));
        assert(front + seq![x] =~= ws);
        let r = retained(front, new_min);
        assert(first_min(Seq::<WindowModel>::empty(), id, None) is None);
        assert(first_min(Seq::<WindowModel>::empty(), id, Some(cut)) is None);
        assert(seq![x].drop_first() =~= Seq::<WindowModel>::empty());
        if x.max_time.nanos >= new_min.nanos {
            let t = x.truncated(new_min);
            crate::model::lemma_first_min_append(r, seq![t], id, None);
            assert(r.push(t) =~= r + seq![t]);
            assert(seq![t].drop_first() =~= Seq::<WindowModel>::empty());
        }
    } else {
        assert(retained(ws, new_min) =~= Seq::<WindowModel>::empty());
    }
}

/// What the invariant kept by every operation says of the windows, oldest
/// first: each ends arriving before the next begins; each has its bounds in
/// order and holds rows; each sequencer's highest position rises from window
/// to window and never exceeds the highest position seen of it.
pub proof fn law_windows_in_order(s: PartitionModel)
    requires
        s.wf(),
    ensures
        forall|i: int|
            0 <= i < s.windows().len() - 1 ==> (#[trigger] s.windows()[i]).time_of_last_write.nanos
                <= s.windows()[i + 1].time_of_first_write.nanos,
        forall|i: int|
            0 <= i < s.windows().len() ==> {
                let w = #[trigger] s.windows()[i];
                &&& w.min_time.nanos <= w.max_time.nanos
                &&& w.time_of_first_write.nanos <= w.time_of_last_write.nanos
                &&& w.row_count > 0
            },
        forall|i: int, j: int, id: u32|
            #![trigger s.windows()[i].sequencer_numbers.contains_key(id), s.windows()[j].sequencer_numbers.contains_key(id)]
            0 <= i < j < s.windows().len() && s.windows()[i].sequencer_numbers.contains_key(id)
                && s.windows()[j].sequencer_numbers.contains_key(id)
                ==> s.windows()[i].sequencer_numbers[id].max <= s.windows()[j].sequencer_numbers[id].max,
        forall|i: int, id: u32|
            0 <= i < s.windows().len() && #[trigger] s.windows()[i].sequencer_numbers.contains_key(id)
                ==> s.max_sequence_numbers.contains_key(id)
                && s.windows()[i].sequencer_numbers[id].max <= s.max_sequence_numbers[id],
{
    let ws = s.windows();
    assert forall|i: int|
        0 <= i < ws.len() - 1 implies (#[trigger] ws[i]).time_of_last_write.nanos
            <= ws[i + 1].time_of_first_write.nanos by {
        assert(ws[i].precedes(ws[i + 1]));
    }
    assert forall|i: int, j: int, id: u32|
        #![trigger ws[i].sequencer_numbers.contains_key(id), ws[j].sequencer_numbers.contains_key(id)]
        0 <= i < j < ws.len() && ws[i].sequencer_numbers.contains_key(id)
            && ws[j].sequencer_numbers.contains_key(id) implies ws[i].sequencer_numbers[id].max
            <= ws[j].sequencer_numbers[id].max by {
        assert(ws[i].precedes(ws[j]));
        assert(ws[j].valid());
    }
    assert forall|i: int, id: u32|
        0 <= i < ws.len() && #[trigger] ws[i].sequencer_numbers.contains_key(id) implies s.max_sequence_numbers.contains_key(id)
            && ws[i].sequencer_numbers[id].max <= s.max_sequence_numbers[id] by {
        assert(crate::model::seen_by(ws[i], s.max_sequence_numbers, s.time_of_last_write));
    }
    assert forall|i: int| 0 <= i < ws.len() implies {
        let w = #[trigger] ws[i];
        &&& w.min_time.nanos <= w.max_time.nanos
        &&& w.time_of_first_write.nanos <= w.time_of_last_write.nanos
        &&& w.row_count > 0
    } by {
        assert(ws[i].valid());
    }
}

/// Once a flush handle is handed out, the lease is held: no second handle
/// is handed out, and neither rotation nor a write changes the persistable
/// window, until the handle is flushed or dropped.
pub proof fn law_one_flush_handle_at_a_time(
    s: PartitionModel,
    now: Time,
    later: Time,
    sequence: Option<Sequence>,
    row_count: nat,
    min_time: Time,
    max_time: Time,
)
    ensures
        s.acquire(now).1 is Some ==> ({
            let held = s.acquire(now).0;
            &&& held.frozen
            &&& held.acquire(later) == (held, None::<FlushHandleModel>)
            &&& held.rotate(later).frozen
            &&& held.rotate(later).persistable == held.persistable
            &&& held.add_range(later, sequence, row_count, min_time, max_time).frozen
            &&& held.add_range(later, sequence, row_count, min_time, max_time).persistable
                == held.persistable
        }),
{
}

/// Replaying the checkpoint of a flush handle and then completing the
/// flush leaves the partition reporting exactly the sequencer ranges the
/// checkpoint holds, where no write came in between.
pub proof fn law_checkpoint_matches_flushed_state(s: PartitionModel, now: Time)
    requires
        s.wf(),
    ensures
        s.acquire(now).1 matches Some(h) ==> s.acquire(now).0.mark_seen(h.sequencer_numbers).flush(
            h,
        ).sequencer_numbers(false) == h.sequencer_numbers,
{
    if s.acquire(now).1 is Some {
        let h = s.acquire(now).1->0;
        let s1 = s.acquire(now).0;
        let s2 = s1.mark_seen(h.sequencer_numbers);
        let s3 = s2.flush(h);
        assert(s1.open is None);
        assert(s2.max_sequence_numbers =~= s1.max_sequence_numbers);
        let c = s1.closed;
        assert(c.take(h.closed_count as int) =~= c);
        assert(c.skip(h.closed_count as int) =~= Seq::<WindowModel>::empty());
        assert(s1.searched_windows(true) =~= c);
        assert(s3.windows() =~= s3.closed);
        assert forall|id: u32| #[trigger] s1.max_sequence_numbers.contains_key(id) implies first_min(
            s3.closed,
            id,
            None,
        ) == first_min(c, id, Some(h.timestamp)) by {
            if h.timestamp.nanos == i64::MAX {
                lemma_first_min_past_end(c, id);
                assert(first_min(Seq::<WindowModel>::empty(), id, None) is None);
            } else {
                lemma_first_min_retained(c, id, h.timestamp);
                assert(s3.closed =~= retained(c, Time { nanos: (h.timestamp.nanos + 1) as i64 }));
            }
        }
        assert(s3.sequencer_numbers(false) =~= h.sequencer_numbers);
    }
}

/// Rotating again with the clock where it stood, or behind it, changes
/// nothing.
pub proof fn law_rotation_settles(s: PartitionModel, now: Time, earlier: Time)
    requires
        earlier.nanos <= now.nanos,
    ensures
        s.rotate(now).rotate(earlier) == s.rotate(now),
        s.rotate(now).rotate(now) == s.rotate(now),
{
    let c = s.close_open(now);
    let r = s.rotate(now);
    lemma_fold_stops(c.persistable, c.closed, now, c.late_arrival_period);
    assert(r.close_open(earlier) == r);
    assert(r.close_open(now) == r);
    if !r.frozen {
        assert(fold_persistable(r.persistable, r.closed, earlier, r.late_arrival_period) == (
        r.persistable, r.closed));
        assert(fold_persistable(r.persistable, r.closed, now, r.late_arrival_period) == (
        r.persistable, r.closed));
    }
}

/// A write whose clock reading lies behind one the windows have already
/// rotated at only records its rows, at the latest arrival time seen: no
/// window closes or moves on its account.
pub proof fn law_regressed_clock_only_records(
    s: PartitionModel,
    seen: Time,
    now: Time,
    sequence: Option<Sequence>,
    row_count: nat,
    min_time: Time,
    max_time: Time,
)
    requires
        now.nanos <= seen.nanos,
    ensures
        ({
            let r = s.rotate(seen);
            r.add_range(now, sequence, row_count, min_time, max_time) == r.note_write(now, sequence).record(
                latest(r.time_of_last_write, now),
                sequence,
                row_count,
                min_time,
                max_time,
            )
        }),
{
    let r = s.rotate(seen);
    law_rotation_settles(s, seen, now);
    assert(r.note_write(now, sequence).rotate(now) == r.rotate(now).note_write(now, sequence));
}

/// A write whose rows all carry the latest representable timestamp, taken
/// in a flush of everything, is flushed up to that timestamp and leaves the
/// partition empty. Its arrival time must lie at least the late arrival
/// period before the latest representable instant.
pub proof fn law_flush_all_at_end_of_time(
    s: PartitionModel,
    now: Time,
    sequence: Option<Sequence>,
    row_count: nat,
)
    requires
        s.wf(),
        !s.frozen,
        s.add_range_allowed(sequence, row_count, Time { nanos: i64::MAX }, Time { nanos: i64::MAX }),
        latest(s.time_of_last_write, now).nanos + s.late_arrival_period.nanos <= i64::MAX,
    ensures
        ({
            let end = Time { nanos: i64::MAX };
            let s1 = s.add_range(now, sequence, row_count, end, end);
            let (s2, h) = s1.acquire(end);
            &&& h matches Some(h) && h.timestamp == end
            &&& s2.flush(h->0).windows().len() == 0
        }),
{
    let end = Time { nanos: i64::MAX };
    crate::model::lemma_rotate_wf(s, now);
    crate::model::lemma_record_wf(s.rotate(now), now, sequence, row_count, end, end);
    let s1 = s.add_range(now, sequence, row_count, end, end);
    let t = latest(s.time_of_last_write, now);
    assert(s.note_write(now, sequence).rotate(now) == s.rotate(now).note_write(now, sequence));
    let m = s1.open->0;
    assert(m.max_time == end);
    let moved = PartitionModel { closed: s1.closed.push(m), open: None, ..s1 };
    assert(moved.close_open(end) == moved);
    assert(s1.windows() =~= moved.windows());
    assert forall|i: int| 0 <= i < moved.closed.len() implies aged(#[trigger] moved.closed[i].time_of_first_write, end, moved.late_arrival_period) by {
        assert(moved.windows()[i + if moved.persistable is Some { 1int } else { 0 }] == moved.closed[i]);
        assert(crate::model::seen_by(
            moved.windows()[i + if moved.persistable is Some { 1int } else { 0 }],
            moved.max_sequence_numbers,
            moved.time_of_last_write,
        ));
        assert(moved.windows()[i + if moved.persistable is Some { 1int } else { 0 }].valid());
    }
    lemma_fold_all(moved.persistable, moved.closed, end, moved.late_arrival_period);
}

} // verus!
