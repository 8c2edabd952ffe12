//! The state of a partition's windows as plain values, and what each
//! operation does to it.
use vstd::prelude::*;

use crate::checkpoint::WriteSummary;
use crate::sequence::{OptionalMinMaxSequence, Sequence};
use crate::time::{Duration, Time};
use crate::window::{aged, latest, lemma_merged_valid, WindowModel};

verus! {

/// The age at which an open window stops taking writes, unless the late
/// arrival period is shorter: thirty seconds, in nanoseconds.
pub const DEFAULT_CLOSED_WINDOW_NANOS: u64 = 30_000_000_000;

/// The window held in `w`, as a sequence of zero or one windows.
pub open spec fn opt_seq(w: Option<WindowModel>) -> Seq<WindowModel> {
    match w {
        Some(w) => seq![w],
        None => Seq::empty(),
    }
}

/// The rows written to the windows `ws`, all together.
pub open spec fn rows_of(ws: Seq<WindowModel>) -> nat
    decreases ws.len(),
{
    if ws.len() == 0 {
        0
    } else {
        ws[0].row_count + rows_of(ws.drop_first())
    }
}

/// Every window of `ws` is valid, and each precedes every later one: arrival
/// times never overlap, and each sequencer's positions rise from window to
/// window.
pub open spec fn in_arrival_order(ws: Seq<WindowModel>) -> bool {
    &&& forall|i: int| 0 <= i < ws.len() ==> #[trigger] ws[i].valid()
    &&& forall|i: int, j: int| 0 <= i < j < ws.len() ==> #[trigger] ws[i].precedes(ws[j])
}

/// The window arrived no later than `last_write`, and holds no position
/// above the highest seen of its sequencer.
pub open spec fn seen_by(w: WindowModel, max_sequence_numbers: Map<u32, u64>, last_write: Time) -> bool {
    &&& w.time_of_last_write.nanos <= last_write.nanos
    &&& forall|id: u32| #[trigger]
        w.sequencer_numbers.contains_key(id) ==> max_sequence_numbers.contains_key(id)
            && w.sequencer_numbers[id].max <= max_sequence_numbers[id]
}

/// The closed windows `ws` after a flush up to `new_min`: those whose rows
/// all lie below `new_min` are gone, the others start at `new_min` at the
/// earliest.
pub open spec fn retained(ws: Seq<WindowModel>, new_min: Time) -> Seq<WindowModel>
    decreases ws.len(),
{
    if ws.len() == 0 {
        Seq::empty()
    } else {
        let rest = retained(ws.drop_last(), new_min);
        if ws.last().max_time.nanos >= new_min.nanos {
            rest.push(ws.last().truncated(new_min))
        } else {
            rest
        }
    }
}

/// The lowest position of sequencer `id` in the first window of `ws` that
/// holds it, passing over windows whose rows all lie at or below `cut`.
pub open spec fn first_min(ws: Seq<WindowModel>, id: u32, cut: Option<Time>) -> Option<u64>
    decreases ws.len(),
{
    if ws.len() == 0 {
        None
    } else if (cut matches Some(c) ==> ws[0].max_time.nanos > c.nanos)
        && ws[0].sequencer_numbers.contains_key(id) {
        Some(ws[0].sequencer_numbers[id].min)
    } else {
        first_min(ws.drop_first(), id, cut)
    }
}

/// Folds the oldest closed windows of `closed` that are `period` old at `now`
/// into the persistable window `p`, oldest first.
pub open spec fn fold_persistable(
    p: Option<WindowModel>,
    closed: Seq<WindowModel>,
    now: Time,
    period: Duration,
) -> (Option<WindowModel>, Seq<WindowModel>)
    decreases closed.len(),
{
    if closed.len() > 0 && aged(closed[0].time_of_first_write, now, period) {
        fold_persistable(
            Some(
                match p {
                    Some(w) => w.merged(closed[0]),
                    None => closed[0],
                },
            ),
            closed.drop_first(),
            now,
            period,
        )
    } else {
        (p, closed)
    }
}

/// The highest positions of `a`, raised to those of the checkpoint `c`.
pub open spec fn raise_maxima(a: Map<u32, u64>, c: Map<u32, OptionalMinMaxSequence>) -> Map<u32, u64> {
    Map::new(
        |id: u32| a.contains_key(id) || c.contains_key(id),
        |id: u32|
            if a.contains_key(id) && c.contains_key(id) {
                if a[id] >= c[id].max { a[id] } else { c[id].max }
            } else if c.contains_key(id) {
                c[id].max
            } else {
                a[id]
            },
    )
}

/// The rows of two runs of windows add up.
pub proof fn lemma_rows_append(a: Seq<WindowModel>, b: Seq<WindowModel>)
    ensures
        rows_of(a + b) == rows_of(a) + rows_of(b),
    decreases a.len(),
{
    if a.len() > 0 {
        assert((a + b).drop_first() =~= a.drop_first() + b);
        lemma_rows_append(a.drop_first(), b);
    } else {
        assert(a + b =~= b);
    }
}

/// Merging the two oldest windows of a run keeps it in arrival order, seen,
/// and with the same rows.
pub proof fn lemma_merge_front(ws: Seq<WindowModel>, max_sequence_numbers: Map<u32, u64>, last_write: Time)
    requires
        ws.len() >= 2,
        in_arrival_order(ws),
        forall|i: int| 0 <= i < ws.len() ==> #[trigger] seen_by(ws[i], max_sequence_numbers, last_write),
    ensures
        ({
            let merged = seq![ws[0].merged(ws[1])] + ws.skip(2);
            &&& in_arrival_order(merged)
            &&& forall|i: int|
                0 <= i < merged.len() ==> #[trigger] seen_by(merged[i], max_sequence_numbers, last_write)
            &&& rows_of(merged) == rows_of(ws)
        }),
{
    let m = ws[0].merged(ws[1]);
    let merged = seq![m] + ws.skip(2);
    assert(ws[0].valid() && ws[1].valid() && ws[0].precedes(ws[1]));
    lemma_merged_valid(ws[0], ws[1]);
    assert forall|i: int, j: int| 0 <= i < j < merged.len() implies #[trigger] merged[i].precedes(merged[j]) by {
        assert(ws[0].precedes(ws[j + 1]) && ws[1].precedes(ws[j + 1]));
        if i > 0 {
            assert(ws[i + 1].precedes(ws[j + 1]));
        }
    }
    assert forall|i: int| 0 <= i < merged.len() implies #[trigger] merged[i].valid() by {
        if i > 0 {
            assert(ws[i + 1].valid());
        }
    }
    assert forall|i: int| 0 <= i < merged.len() implies #[trigger] seen_by(merged[i], max_sequence_numbers, last_write) by {
        if i > 0 {
            assert(seen_by(ws[i + 1], max_sequence_numbers, last_write));
        } else {
            assert(seen_by(ws[0], max_sequence_numbers, last_write));
            assert(seen_by(ws[1], max_sequence_numbers, last_write));
            assert forall|id: u32| #[trigger] m.sequencer_numbers.contains_key(id) implies max_sequence_numbers.contains_key(id)
                && m.sequencer_numbers[id].max <= max_sequence_numbers[id] by {
                if ws[1].sequencer_numbers.contains_key(id) {
                } else {
                    assert(ws[0].sequencer_numbers.contains_key(id));
                }
            }
        }
    }
    assert(ws.drop_first().drop_first() =~= ws.skip(2));
    assert(merged.drop_first() =~= ws.skip(2));
    assert(rows_of(ws) == ws[0].row_count + rows_of(ws.drop_first()));
    assert(rows_of(ws.drop_first()) == ws[1].row_count + rows_of(ws.drop_first().drop_first()));
    assert(rows_of(merged) == m.row_count + rows_of(merged.drop_first()));
    assert(in_arrival_order(merged));
}

/// Recording a write at the latest arrival time keeps the invariant, and adds
/// its rows to the total.
pub proof fn lemma_record_wf(
    s: PartitionModel,
    now: Time,
    sequence: Option<Sequence>,
    row_count: nat,
    min_time: Time,
    max_time: Time,
)
    requires
        s.wf(),
        s.add_range_allowed(sequence, row_count, min_time, max_time),
    ensures
        ({
            let r = s.note_write(now, sequence).record(
                latest(s.time_of_last_write, now),
                sequence,
                row_count,
                min_time,
                max_time,
            );
            &&& r.wf()
            &&& rows_of(r.windows()) == rows_of(s.windows()) + row_count
        }),
{
    let t = latest(s.time_of_last_write, now);
    let s1 = s.note_write(now, sequence);
    let r = s1.record(t, sequence, row_count, min_time, max_time);
    let ws = s.windows();
    let prefix = opt_seq(s.persistable) + s.closed;
    let o2 = r.open->0;
    assert(r.windows() =~= prefix.push(o2));
    assert(ws =~= prefix + opt_seq(s.open));
    assert forall|i: int| 0 <= i < prefix.len() implies #[trigger] prefix[i] == ws[i] by {}
    // the new or extended open window
    if s.open is Some {
        let o = s.open->0;
        assert(ws[ws.len() - 1] == o);
        assert(o.valid());
        assert(seen_by(o, s.max_sequence_numbers, s.time_of_last_write));
        if sequence is Some {
            let sq = sequence->0;
            if o.sequencer_numbers.contains_key(sq.id) {
                assert(o.sequencer_numbers[sq.id].max <= s.max_sequence_numbers[sq.id]);
            }
        }
    }
    assert(o2.valid());
    assert forall|i: int| 0 <= i < prefix.len() implies #[trigger] prefix[i].precedes(o2) by {
        assert(seen_by(ws[i], s.max_sequence_numbers, s.time_of_last_write));
        if s.open is Some {
            assert(ws[i].precedes(ws[ws.len() - 1]));
        }
        assert forall|id: u32|
            prefix[i].sequencer_numbers.contains_key(id) && o2.sequencer_numbers.contains_key(id) implies prefix[i].sequencer_numbers[id].max
            < o2.sequencer_numbers[id].min by {
            assert(prefix[i].sequencer_numbers.contains_key(id));
        }
    }
    let rw = r.windows();
    assert forall|i: int, j: int| 0 <= i < j < rw.len() implies #[trigger] rw[i].precedes(rw[j]) by {
        if j < prefix.len() {
            assert(ws[i].precedes(ws[j]));
        } else {
            assert(prefix[i].precedes(o2));
        }
    }
    assert forall|i: int| 0 <= i < rw.len() implies #[trigger] rw[i].valid() by {
        if i < prefix.len() {
            assert(ws[i].valid());
        }
    }
    assert forall|i: int| 0 <= i < rw.len() implies #[trigger] seen_by(rw[i], r.max_sequence_numbers, r.time_of_last_write) by {
        if i < prefix.len() {
            assert(seen_by(ws[i], s.max_sequence_numbers, s.time_of_last_write));
            assert forall|id: u32| #[trigger] rw[i].sequencer_numbers.contains_key(id) implies r.max_sequence_numbers.contains_key(id)
                && rw[i].sequencer_numbers[id].max <= r.max_sequence_numbers[id] by {
                assert(ws[i].sequencer_numbers.contains_key(id));
            }
        } else if s.open is Some {
            let o = s.open->0;
            assert(seen_by(ws[ws.len() - 1], s.max_sequence_numbers, s.time_of_last_write));
            assert forall|id: u32| #[trigger] o2.sequencer_numbers.contains_key(id) implies r.max_sequence_numbers.contains_key(id)
                && o2.sequencer_numbers[id].max <= r.max_sequence_numbers[id] by {
                if sequence is Some && sequence->0.id == id {
                } else {
                    assert(o.sequencer_numbers.contains_key(id));
                }
            }
        }
    }
    lemma_rows_append(prefix, opt_seq(s.open));
    lemma_rows_append(prefix, seq![o2]);
    assert(prefix.push(o2) =~= prefix + seq![o2]);
    assert(rows_of(seq![o2].drop_first()) == 0);
    if s.open is Some {
        assert(rows_of(opt_seq(s.open).drop_first()) == 0);
    }
}

/// The first window holding a sequencer, in two runs of windows, is the
/// first in the older run where it holds it there.
pub proof fn lemma_first_min_append(a: Seq<WindowModel>, b: Seq<WindowModel>, id: u32, cut: Option<Time>)
    ensures
        first_min(a + b, id, cut) == match first_min(a, id, cut) {
            Some(m) => Some(m),
            None => first_min(b, id, cut),
        },
    decreases a.len(),
{
    if a.len() > 0 {
        assert((a + b).drop_first() =~= a.drop_first() + b);
        assert((a + b)[0] == a[0]);
        lemma_first_min_append(a.drop_first(), b, id, cut);
    } else {
        assert(a + b =~= b);
    }
}

/// A lowest position found lies in one of the windows searched.
pub proof fn lemma_first_min_found(ws: Seq<WindowModel>, id: u32, cut: Option<Time>)
    ensures
        first_min(ws, id, cut) matches Some(m) ==> exists|i: int|
            0 <= i < ws.len() && #[trigger] ws[i].sequencer_numbers.contains_key(id)
                && ws[i].sequencer_numbers[id].min == m,
    decreases ws.len(),
{
    if ws.len() > 0 {
        lemma_first_min_found(ws.drop_first(), id, cut);
        if first_min(ws.drop_first(), id, cut) is Some {
            let m = first_min(ws.drop_first(), id, cut)->0;
            let i = choose|i: int|
                0 <= i < ws.drop_first().len() && #[trigger] ws.drop_first()[i].sequencer_numbers.contains_key(id)
                    && ws.drop_first()[i].sequencer_numbers[id].min == m;
            assert(ws[i + 1] == ws.drop_first()[i]);
        }
    }
}

/// Every window of `ws` is seen by `max_sequence_numbers` and `last_write`.
pub open spec fn all_seen(ws: Seq<WindowModel>, max_sequence_numbers: Map<u32, u64>, last_write: Time) -> bool {
    forall|i: int| 0 <= i < ws.len() ==> #[trigger] seen_by(ws[i], max_sequence_numbers, last_write)
}

/// Dropping a window from a run keeps the rest in arrival order and seen.
pub proof fn lemma_drop_window(
    a: Seq<WindowModel>,
    x: WindowModel,
    b: Seq<WindowModel>,
    ms: Map<u32, u64>,
    lw: Time,
)
    requires
        in_arrival_order(a + seq![x] + b),
        all_seen(a + seq![x] + b, ms, lw),
    ensures
        in_arrival_order(a + b),
        all_seen(a + b, ms, lw),
{
    let full = a + seq![x] + b;
    let short = a + b;
    assert forall|i: int| 0 <= i < short.len() implies short[i] == full[if i < a.len() { i } else { i + 1 }] by {}
    assert forall|i: int, j: int| 0 <= i < j < short.len() implies #[trigger] short[i].precedes(short[j]) by {
        let i2 = if i < a.len() { i } else { i + 1 };
        let j2 = if j < a.len() { j } else { j + 1 };
        assert(full[i2].precedes(full[j2]));
    }
    assert forall|i: int| 0 <= i < short.len() implies #[trigger] short[i].valid() by {
        let i2 = if i < a.len() { i } else { i + 1 };
        assert(full[i2].valid());
    }
    assert forall|i: int| 0 <= i < short.len() implies #[trigger] seen_by(short[i], ms, lw) by {
        let i2 = if i < a.len() { i } else { i + 1 };
        assert(seen_by(full[i2], ms, lw));
    }
}

/// Raising the lowest row time of a window, to no more than its highest,
/// keeps the run in arrival order and seen.
pub proof fn lemma_truncate_window(
    a: Seq<WindowModel>,
    x: WindowModel,
    b: Seq<WindowModel>,
    new_min: Time,
    ms: Map<u32, u64>,
    lw: Time,
)
    requires
        in_arrival_order(a + seq![x] + b),
        all_seen(a + seq![x] + b, ms, lw),
        x.max_time.nanos >= new_min.nanos,
    ensures
        in_arrival_order(a + seq![x.truncated(new_min)] + b),
        all_seen(a + seq![x.truncated(new_min)] + b, ms, lw),
{
    let full = a + seq![x] + b;
    let t = x.truncated(new_min);
    let new = a + seq![t] + b;
    assert forall|i: int| 0 <= i < new.len() && i != a.len() implies new[i] == full[i] by {}
    assert(new[a.len() as int] == t && full[a.len() as int] == x);
    assert forall|i: int, j: int| 0 <= i < j < new.len() implies #[trigger] new[i].precedes(new[j]) by {
        assert(full[i].precedes(full[j]));
    }
    assert forall|i: int| 0 <= i < new.len() implies #[trigger] new[i].valid() by {
        assert(full[i].valid());
    }
    assert forall|i: int| 0 <= i < new.len() implies #[trigger] seen_by(new[i], ms, lw) by {
        assert(seen_by(full[i], ms, lw));
    }
}

/// Rows in the windows kept by a flush never outnumber those before it.
pub proof fn lemma_retained_rows(ws: Seq<WindowModel>, new_min: Time)
    ensures
        rows_of(retained(ws, new_min)) <= rows_of(ws),
    decreases ws.len(),
{
    if ws.len() > 0 {
        let front = ws.drop_last();
        lemma_retained_rows(front, new_min);
        lemma_rows_append(front, seq![ws.last()]);
        assert(front + seq![ws.last()] =~= ws);
        assert(rows_of(seq![ws.last()].drop_first()) == 0);
        let r = retained(front, new_min);
        lemma_rows_append(r, seq![ws.last().truncated(new_min)]);
        assert(r.push(ws.last().truncated(new_min)) =~= r + seq![ws.last().truncated(new_min)]);
        assert(rows_of(seq![ws.last().truncated(new_min)].drop_first()) == 0);
    }
}

/// The windows kept by a flush stay in arrival order and seen, in front of
/// any later run, and start at `new_min` at the earliest.
pub proof fn lemma_retained_order(
    ws: Seq<WindowModel>,
    b: Seq<WindowModel>,
    new_min: Time,
    ms: Map<u32, u64>,
    lw: Time,
)
    requires
        in_arrival_order(ws + b),
        all_seen(ws + b, ms, lw),
    ensures
        in_arrival_order(retained(ws, new_min) + b),
        all_seen(retained(ws, new_min) + b, ms, lw),
        forall|i: int|
            0 <= i < retained(ws, new_min).len() ==> #[trigger] retained(ws, new_min)[i].min_time.nanos
                >= new_min.nanos,
    decreases ws.len(),
{
    if ws.len() == 0 {
        assert(retained(ws, new_min) =~= Seq::<WindowModel>::empty());
        assert(ws + b =~= b);
        assert(retained(ws, new_min) + b =~= b);
    } else {
        let front = ws.drop_last();
        let x = ws.last();
        assert(ws + b =~= front + (seq![x] + b));
        lemma_retained_order(front, seq![x] + b, new_min, ms, lw);
        let r = retained(front, new_min);
        assert(r + (seq![x] + b) =~= r + seq![x] + b);
        if x.max_time.nanos >= new_min.nanos {
            lemma_truncate_window(r, x, b, new_min, ms, lw);
            assert(r + seq![x.truncated(new_min)] + b =~= r.push(x.truncated(new_min)) + b);
        } else {
            lemma_drop_window(r, x, b, ms, lw);
        }
    }
}

/// The summary of a window.
pub open spec fn summary_of(w: WindowModel) -> WriteSummary {
    WriteSummary {
        time_of_first_write: w.time_of_first_write,
        time_of_last_write: w.time_of_last_write,
        min_timestamp: w.min_time,
        max_timestamp: w.max_time,
        row_count: w.row_count as usize,
    }
}

/// The lowest row timestamp in the windows `ws`.
pub open spec fn lowest_row_time(ws: Seq<WindowModel>) -> Option<Time>
    decreases ws.len(),
{
    if ws.len() == 0 {
        None
    } else {
        match lowest_row_time(ws.drop_last()) {
            Some(t) => Some(if t.nanos <= ws.last().min_time.nanos { t } else { ws.last().min_time }),
            None => Some(ws.last().min_time),
        }
    }
}

/// The highest row timestamp in the windows `ws`.
pub open spec fn highest_row_time(ws: Seq<WindowModel>) -> Option<Time>
    decreases ws.len(),
{
    if ws.len() == 0 {
        None
    } else {
        match highest_row_time(ws.drop_last()) {
            Some(t) => Some(if t.nanos >= ws.last().max_time.nanos { t } else { ws.last().max_time }),
            None => Some(ws.last().max_time),
        }
    }
}

/// How many of the oldest windows of `ws`, in a row, are `period` old at `now`.
pub open spec fn leading_aged(ws: Seq<WindowModel>, now: Time, period: Duration) -> nat
    decreases ws.len(),
{
    if ws.len() > 0 && aged(ws[0].time_of_first_write, now, period) {
        1 + leading_aged(ws.drop_first(), now, period)
    } else {
        0
    }
}

/// `leading_aged` is the first index of a window that is not old enough.
pub proof fn lemma_leading_aged(ws: Seq<WindowModel>, now: Time, period: Duration, k: int)
    requires
        0 <= k <= ws.len(),
        forall|j: int| 0 <= j < k ==> aged(#[trigger] ws[j].time_of_first_write, now, period),
        k == ws.len() || !aged(ws[k].time_of_first_write, now, period),
    ensures
        leading_aged(ws, now, period) == k,
    decreases k,
{
    if k > 0 {
        assert(aged(ws[0].time_of_first_write, now, period));
        assert forall|j: int| 0 <= j < k - 1 implies aged(#[trigger] ws.drop_first()[j].time_of_first_write, now, period) by {
            assert(ws.drop_first()[j] == ws[j + 1]);
        }
        lemma_leading_aged(ws.drop_first(), now, period, k - 1);
    }
}

/// The rows of the first `k + 1` windows are those of the first `k` and
/// those of window `k`.
pub proof fn lemma_rows_take(ws: Seq<WindowModel>, k: int)
    requires
        0 <= k < ws.len(),
    ensures
        rows_of(ws.take(k + 1)) == rows_of(ws.take(k)) + ws[k].row_count,
        rows_of(ws.take(k + 1)) <= rows_of(ws),
{
    lemma_rows_append(ws.take(k), seq![ws[k]]);
    assert(ws.take(k) + seq![ws[k]] =~= ws.take(k + 1));
    assert(rows_of(seq![ws[k]].drop_first()) == 0);
    lemma_rows_append(ws.take(k + 1), ws.skip(k + 1));
    assert(ws.take(k + 1) + ws.skip(k + 1) =~= ws);
}

/// Each window holds a row, so there are no more windows than rows.
pub proof fn lemma_len_le_rows(ws: Seq<WindowModel>)
    requires
        forall|i: int| 0 <= i < ws.len() ==> #[trigger] ws[i].valid(),
    ensures
        ws.len() <= rows_of(ws),
    decreases ws.len(),
{
    if ws.len() > 0 {
        assert(ws[0].valid());
        assert forall|i: int| 0 <= i < ws.drop_first().len() implies #[trigger] ws.drop_first()[i].valid() by {
            assert(ws[i + 1].valid());
        }
        lemma_len_le_rows(ws.drop_first());
    }
}

/// A fold keeps the windows in arrival order, seen, and with the same rows.
pub proof fn lemma_fold_wf(
    p: Option<WindowModel>,
    closed: Seq<WindowModel>,
    rest: Seq<WindowModel>,
    now: Time,
    period: Duration,
    ms: Map<u32, u64>,
    lw: Time,
)
    requires
        in_arrival_order(opt_seq(p) + closed + rest),
        all_seen(opt_seq(p) + closed + rest, ms, lw),
    ensures
        ({
            let f = fold_persistable(p, closed, now, period);
            &&& in_arrival_order(opt_seq(f.0) + f.1 + rest)
            &&& all_seen(opt_seq(f.0) + f.1 + rest, ms, lw)
            &&& rows_of(opt_seq(f.0) + f.1 + rest) == rows_of(opt_seq(p) + closed + rest)
        }),
    decreases closed.len(),
{
    if closed.len() > 0 && aged(closed[0].time_of_first_write, now, period) {
        let ws = opt_seq(p) + closed + rest;
        let q = Some(
            match p {
                Some(w) => w.merged(closed[0]),
                None => closed[0],
            },
        );
        let next = opt_seq(q) + closed.drop_first() + rest;
        if p is Some {
            assert(ws[0] == p->0 && ws[1] == closed[0]);
            lemma_merge_front(ws, ms, lw);
            assert(next =~= seq![ws[0].merged(ws[1])] + ws.skip(2));
        } else {
            assert(next =~= ws);
        }
        lemma_fold_wf(q, closed.drop_first(), rest, now, period, ms, lw);
    }
}

/// Rotation keeps the invariant and the rows.
pub proof fn lemma_rotate_wf(s: PartitionModel, now: Time)
    requires
        s.wf(),
    ensures
        s.rotate(now).wf(),
        rows_of(s.rotate(now).windows()) == rows_of(s.windows()),
{
    let c = s.close_open(now);
    if s.open is Some && aged(s.open->0.time_of_first_write, now, s.closed_window_period) {
        assert(c.windows() =~= s.windows());
    }
    if !c.frozen {
        lemma_fold_wf(
            c.persistable,
            c.closed,
            opt_seq(c.open),
            now,
            c.late_arrival_period,
            c.max_sequence_numbers,
            c.time_of_last_write,
        );
    }
}

/// What a flush handle holds, as plain values.
pub struct FlushHandleModel {
    /// The number of closed windows when the handle was taken.
    pub closed_count: nat,
    /// Rows at or below this row timestamp are covered by the flush.
    pub timestamp: Time,
    /// The sequencer ranges that remain once the flush is done.
    pub sequencer_numbers: Map<u32, OptionalMinMaxSequence>,
    /// The table of the partition.
    pub table_name: Seq<char>,
    /// The key of the partition.
    pub partition_key: Seq<char>,
}

/// What a partition's windows hold, as plain values.
pub struct PartitionModel {
    /// The merged window that is ready to be written out.
    pub persistable: Option<WindowModel>,
    /// Windows that take no more writes, oldest first.
    pub closed: Seq<WindowModel>,
    /// The window that takes writes.
    pub open: Option<WindowModel>,
    pub late_arrival_period: Duration,
    pub closed_window_period: Duration,
    /// The latest arrival time recorded.
    pub time_of_last_write: Time,
    /// For each sequencer, the highest position ever seen.
    pub max_sequence_numbers: Map<u32, u64>,
    /// A flush handle is out.
    pub frozen: bool,
    /// The table of the partition.
    pub table_name: Seq<char>,
    /// The key of the partition.
    pub partition_key: Seq<char>,
}

impl PartitionModel {
    /// All windows, oldest first: the persistable one, the closed ones, the open one.
    pub open spec fn windows(self) -> Seq<WindowModel> {
        opt_seq(self.persistable) + self.closed + opt_seq(self.open)
    }

    /// The closed window period is the late arrival period, capped at thirty seconds.
    pub open spec fn periods_agree(self) -> bool {
        self.closed_window_period.nanos == if self.late_arrival_period.nanos
            <= DEFAULT_CLOSED_WINDOW_NANOS {
            self.late_arrival_period.nanos
        } else {
            DEFAULT_CLOSED_WINDOW_NANOS as u64
        }
    }

    /// The invariant that every operation keeps.
    pub open spec fn wf(self) -> bool {
        &&& in_arrival_order(self.windows())
        &&& forall|i: int|
            0 <= i < self.windows().len() ==> #[trigger] seen_by(
                self.windows()[i],
                self.max_sequence_numbers,
                self.time_of_last_write,
            )
        &&& rows_of(self.windows()) <= usize::MAX
        &&& self.periods_agree()
    }

    pub open spec fn with_frozen(self, frozen: bool) -> PartitionModel {
        PartitionModel { frozen, ..self }
    }

    /// Moves the open window to the closed ones where it is old enough.
    pub open spec fn close_open(self, now: Time) -> PartitionModel {
        if self.open is Some && aged(
            self.open->0.time_of_first_write,
            now,
            self.closed_window_period,
        ) {
            PartitionModel { closed: self.closed.push(self.open->0), open: None, ..self }
        } else {
            self
        }
    }

    /// Rotation at `now`: the open window closes once old enough; then, with
    /// no flush handle out, the closed windows that are old enough are folded
    /// into the persistable one.
    pub open spec fn rotate(self, now: Time) -> PartitionModel {
        let s = self.close_open(now);
        if s.frozen {
            s
        } else {
            let f = fold_persistable(s.persistable, s.closed, now, s.late_arrival_period);
            PartitionModel { persistable: f.0, closed: f.1, ..s }
        }
    }

    /// Records a write that arrived at `now`: the clock is clamped to the
    /// latest arrival seen, and the sequencer's highest position is raised.
    pub open spec fn note_write(self, now: Time, sequence: Option<Sequence>) -> PartitionModel {
        PartitionModel {
            time_of_last_write: latest(self.time_of_last_write, now),
            max_sequence_numbers: match sequence {
                Some(s) => self.max_sequence_numbers.insert(s.id, s.number),
                None => self.max_sequence_numbers,
            },
            ..self
        }
    }

    /// Puts a write into the open window, opening one where there is none.
    pub open spec fn record(
        self,
        arrival: Time,
        sequence: Option<Sequence>,
        row_count: nat,
        min_time: Time,
        max_time: Time,
    ) -> PartitionModel {
        PartitionModel {
            open: Some(
                match self.open {
                    Some(o) => o.with_write(sequence, row_count, min_time, max_time, arrival),
                    None => WindowModel::first_write(arrival, sequence, row_count, min_time, max_time),
                },
            ),
            ..self
        }
    }

    /// The inputs that `add_range` takes: rows, row times in order, a
    /// position above the sequencer's highest so far, and a total row count
    /// that fits in a `usize`.
    pub open spec fn add_range_allowed(
        self,
        sequence: Option<Sequence>,
        row_count: nat,
        min_time: Time,
        max_time: Time,
    ) -> bool {
        &&& row_count > 0
        &&& min_time.nanos <= max_time.nanos
        &&& sequence matches Some(s) ==> (self.max_sequence_numbers.contains_key(s.id)
            ==> self.max_sequence_numbers[s.id] < s.number)
        &&& rows_of(self.windows()) + row_count <= usize::MAX
    }

    /// A write of `row_count` rows with row times from `min_time` to
    /// `max_time`, observed when the clock read `now`.
    pub open spec fn add_range(
        self,
        now: Time,
        sequence: Option<Sequence>,
        row_count: nat,
        min_time: Time,
        max_time: Time,
    ) -> PartitionModel {
        self.note_write(now, sequence).rotate(now).record(
            latest(self.time_of_last_write, now),
            sequence,
            row_count,
            min_time,
            max_time,
        )
    }

    /// For each sequencer seen, the highest position seen and the lowest
    /// position still held in a window. With `skip_persistable`, the
    /// persistable window, and the windows whose rows all lie at or below
    /// its highest row time, are passed over.
    pub open spec fn sequencer_numbers(self, skip_persistable: bool) -> Map<
        u32,
        OptionalMinMaxSequence,
    > {
        Map::new(
            |id: u32| self.max_sequence_numbers.contains_key(id),
            |id: u32|
                OptionalMinMaxSequence {
                    min: first_min(
                        self.searched_windows(skip_persistable),
                        id,
                        self.search_cut(skip_persistable),
                    ),
                    max: self.max_sequence_numbers[id],
                },
        )
    }

    /// Whether the persistable window is passed over.
    pub open spec fn skips(self, skip_persistable: bool) -> bool {
        skip_persistable && self.persistable is Some
    }

    /// The windows that `sequencer_numbers` searches for lowest positions.
    pub open spec fn searched_windows(self, skip_persistable: bool) -> Seq<WindowModel> {
        if self.skips(skip_persistable) {
            self.closed + opt_seq(self.open)
        } else {
            self.windows()
        }
    }

    /// The row time at or below which `sequencer_numbers` passes windows over.
    pub open spec fn search_cut(self, skip_persistable: bool) -> Option<Time> {
        if self.skips(skip_persistable) {
            Some(self.persistable->0.max_time)
        } else {
            None
        }
    }

    /// Taking a flush handle with the clock at `now`: refused while another
    /// is out; else the open window closes, rotation runs, and a handle is
    /// handed out where a persistable window results.
    pub open spec fn acquire(self, now: Time) -> (PartitionModel, Option<FlushHandleModel>) {
        if self.frozen {
            (self, None)
        } else {
            let s1 = match self.open {
                Some(o) => PartitionModel { closed: self.closed.push(o), open: None, ..self },
                None => self,
            };
            let s2 = s1.rotate(now);
            match s2.persistable {
                Some(p) => (
                    PartitionModel { frozen: true, ..s2 },
                    Some(
                        FlushHandleModel {
                            closed_count: s2.closed.len(),
                            timestamp: p.max_time,
                            sequencer_numbers: s2.sequencer_numbers(true),
                            table_name: s2.table_name,
                            partition_key: s2.partition_key,
                        },
                    ),
                ),
                None => (s2, None),
            }
        }
    }

    /// The handle `h` belongs to the current persistable window, and no
    /// closed window it knew of is gone.
    pub open spec fn flush_allowed(self, h: FlushHandleModel) -> bool {
        &&& h.closed_count <= self.closed.len()
        &&& self.persistable matches Some(p) && p.max_time == h.timestamp
    }

    /// Completing the flush of `h`: the persistable window is gone, and the
    /// closed windows that `h` knew of lose the rows at or below its
    /// timestamp; with nothing above `Time::MAX`, every closed window goes.
    pub open spec fn flush(self, h: FlushHandleModel) -> PartitionModel {
        PartitionModel {
            persistable: None,
            closed: if h.timestamp.nanos == i64::MAX {
                Seq::empty()
            } else {
                retained(
                    self.closed.take(h.closed_count as int),
                    Time { nanos: (h.timestamp.nanos + 1) as i64 },
                ) + self.closed.skip(h.closed_count as int)
            },
            frozen: false,
            ..self
        }
    }

    /// The rows of the oldest windows, in a row, that are `late_arrival_period`
    /// old at `now`.
    pub open spec fn persistable_rows(self, now: Time) -> nat {
        rows_of(self.windows().take(leading_aged(self.windows(), now, self.late_arrival_period) as int))
    }

    /// The partition with a new late arrival period.
    pub open spec fn with_late_arrival_period(self, late_arrival_period: Duration) -> PartitionModel {
        PartitionModel {
            late_arrival_period,
            closed_window_period: Duration {
                nanos: if late_arrival_period.nanos <= DEFAULT_CLOSED_WINDOW_NANOS {
                    late_arrival_period.nanos
                } else {
                    DEFAULT_CLOSED_WINDOW_NANOS as u64
                },
            },
            ..self
        }
    }

    /// Raises the highest positions seen to those of a checkpoint.
    pub open spec fn mark_seen(self, c: Map<u32, OptionalMinMaxSequence>) -> PartitionModel {
        PartitionModel {
            max_sequence_numbers: raise_maxima(self.max_sequence_numbers, c),
            ..self
        }
    }
}

} // verus!
