//! What one more event changes in the figures of a window and in the rows that
//! tell three windows.

use vstd::prelude::*;
use crate::analysis::common::total;
use crate::laws::sums::lemma_total_insert;
use crate::trace::event::TraceEvent;
use crate::trace::meta::is_main_thread;
use crate::windowed::delta::{
    collect_hit,
    collect_time,
    delta_of,
    lasting_hit,
    lasting_time,
    metric_row,
    metric_rows,
    named_time,
    stats_of,
    window_scope,
    DeltaData,
    DeltaRow,
    Unit,
    WindowStats,
};
use crate::windowed::frames::{drops, is_drop};

verus! {

/// The sums of a window with one more event.
proof fn lemma_sums(
    events: Seq<TraceEvent>,
    k: int,
    e: TraceEvent,
    w: (i64, i64),
    tid: u64,
    limit: i64,
)
    requires
        0 <= k <= events.len(),
    ensures
        ({
            let run = named_time(w, tid, "RunTask"@);
            let js = named_time(w, tid, "FunctionCall"@);
            let more = events.insert(k, e);
            &&& total(more, run) == total(events, run)
                + run(e)
            &&& total(more, js) == total(events, js)
                + js(e)
            &&& total(more, collect_time(w))
                == total(events, collect_time(w)) + collect_time(w)(e)
            &&& total(more, collect_hit(w))
                == total(events, collect_hit(w)) + collect_hit(w)(e)
            &&& total(more, lasting_hit(w, tid, limit))
                == total(events, lasting_hit(w, tid, limit))
                + lasting_hit(w, tid, limit)(e)
            &&& total(more, lasting_time(w, tid, limit))
                == total(events, lasting_time(w, tid, limit))
                + lasting_time(w, tid, limit)(e)
        }),
{
    lemma_total_insert(events, k, e, named_time(w, tid, "RunTask"@));
    lemma_total_insert(events, k, e, named_time(w, tid, "FunctionCall"@));
    lemma_total_insert(events, k, e, collect_time(w));
    lemma_total_insert(events, k, e, collect_hit(w));
    lemma_total_insert(events, k, e, lasting_hit(w, tid, limit));
    lemma_total_insert(events, k, e, lasting_time(w, tid, limit));
}

/// What of two statistics comes from tasks, calls and collections is the same.
pub open spec fn same_sums(a: WindowStats, b: WindowStats) -> bool {
    &&& a.run == b.run
    &&& a.js == b.js
    &&& a.long == b.long
    &&& a.long_count == b.long_count
    &&& a.gc == b.gc
    &&& a.gc_count == b.gc_count
}

proof fn lemma_names_differ()
    ensures
        "RunTask"@ != "FunctionCall"@,
        "RunTask"@ != "MajorGC"@,
        "RunTask"@ != "MinorGC"@,
        "FunctionCall"@ != "MajorGC"@,
        "FunctionCall"@ != "MinorGC"@,
        "MajorGC"@ != "MinorGC"@,
        "DroppedFrame"@ != "RunTask"@,
        "DroppedFrame"@ != "FunctionCall"@,
        "DroppedFrame"@ != "MajorGC"@,
        "DroppedFrame"@ != "MinorGC"@,
{
    reveal_strlit("RunTask");
    reveal_strlit("FunctionCall");
    reveal_strlit("MajorGC");
    reveal_strlit("MinorGC");
    reveal_strlit("DroppedFrame");
    assert("RunTask"@[0] == 'R' && "FunctionCall"@[0] == 'F' && "MajorGC"@[0] == 'M'
        && "DroppedFrame"@[0] == 'D' && "MinorGC"@[0] == 'M');
    assert("MajorGC"@[1] == 'a' && "MinorGC"@[1] == 'i');
}

/// A task or call of a thread other than the main thread changes nothing.
pub proof fn lemma_other_thread(
    events: Seq<TraceEvent>,
    k: int,
    e: TraceEvent,
    w: (i64, i64),
    frame_event: Seq<char>,
    tid: u64,
    limit: i64,
    a: WindowStats,
    b: WindowStats,
)
    requires
        0 <= k <= events.len(),
        e.name@ == "RunTask"@ || e.name@ == "FunctionCall"@,
        e.tid != tid,
        stats_of(events, w, frame_event, tid, limit, a),
        stats_of(events.insert(k, e), w, frame_event, tid, limit, b),
    ensures
        same_sums(a, b),
{
    lemma_names_differ();
    lemma_sums(events, k, e, w, tid, limit);
}

/// A complete task of the main thread that starts in the window adds its
/// duration to the busy time, and is a long task where it lasts long enough.
/// It is no script and no collection.
pub proof fn lemma_main_task(
    events: Seq<TraceEvent>,
    k: int,
    e: TraceEvent,
    d: i64,
    w: (i64, i64),
    frame_event: Seq<char>,
    tid: u64,
    limit: i64,
    a: WindowStats,
    b: WindowStats,
)
    requires
        0 <= k <= events.len(),
        e.name@ == "RunTask"@,
        e.ph == 88,
        e.tid == tid,
        w.0 <= e.ts <= w.1,
        e.dur == Some(d),
        stats_of(events, w, frame_event, tid, limit, a),
        stats_of(events.insert(k, e), w, frame_event, tid, limit, b),
    ensures
        b.run == a.run + d,
        d >= limit ==> b.long_count == a.long_count + 1 && b.long == a.long + d,
        d < limit ==> b.long_count == a.long_count && b.long == a.long,
        b.js == a.js,
        b.gc == a.gc,
        b.gc_count == a.gc_count,
{
    lemma_names_differ();
    lemma_sums(events, k, e, w, tid, limit);
}

/// A complete call of the main thread that starts in the window adds its
/// duration to the script time, and to nothing else.
pub proof fn lemma_main_call(
    events: Seq<TraceEvent>,
    k: int,
    e: TraceEvent,
    d: i64,
    w: (i64, i64),
    frame_event: Seq<char>,
    tid: u64,
    limit: i64,
    a: WindowStats,
    b: WindowStats,
)
    requires
        0 <= k <= events.len(),
        e.name@ == "FunctionCall"@,
        e.ph == 88,
        e.tid == tid,
        w.0 <= e.ts <= w.1,
        e.dur == Some(d),
        stats_of(events, w, frame_event, tid, limit, a),
        stats_of(events.insert(k, e), w, frame_event, tid, limit, b),
    ensures
        b.js == a.js + d,
        b.run == a.run,
        b.long == a.long,
        b.long_count == a.long_count,
        b.gc == a.gc,
        b.gc_count == a.gc_count,
{
    lemma_names_differ();
    lemma_sums(events, k, e, w, tid, limit);
}

/// A major or minor collection of any thread that starts in the window counts
/// with its duration, and as nothing else.
pub proof fn lemma_collection(
    events: Seq<TraceEvent>,
    k: int,
    e: TraceEvent,
    d: i64,
    w: (i64, i64),
    frame_event: Seq<char>,
    tid: u64,
    limit: i64,
    a: WindowStats,
    b: WindowStats,
)
    requires
        0 <= k <= events.len(),
        e.name@ == "MajorGC"@ || e.name@ == "MinorGC"@,
        e.ph == 88,
        w.0 <= e.ts <= w.1,
        e.dur == Some(d),
        stats_of(events, w, frame_event, tid, limit, a),
        stats_of(events.insert(k, e), w, frame_event, tid, limit, b),
    ensures
        b.gc == a.gc + d,
        b.gc_count == a.gc_count + 1,
        b.run == a.run,
        b.js == a.js,
        b.long == a.long,
        b.long_count == a.long_count,
{
    lemma_names_differ();
    lemma_sums(events, k, e, w, tid, limit);
}

/// An event that starts outside the window, that is not complete, or that is
/// neither task nor call nor collection changes none of the sums.
pub proof fn lemma_not_counted(
    events: Seq<TraceEvent>,
    k: int,
    e: TraceEvent,
    w: (i64, i64),
    frame_event: Seq<char>,
    tid: u64,
    limit: i64,
    a: WindowStats,
    b: WindowStats,
)
    requires
        0 <= k <= events.len(),
        e.ts < w.0 || e.ts > w.1 || e.ph != 88 || (e.name@ != "RunTask"@ && e.name@
            != "FunctionCall"@ && e.name@ != "MajorGC"@ && e.name@ != "MinorGC"@),
        stats_of(events, w, frame_event, tid, limit, a),
        stats_of(events.insert(k, e), w, frame_event, tid, limit, b),
    ensures
        same_sums(a, b),
{
    lemma_sums(events, k, e, w, tid, limit);
}

/// Without events there is nothing.
pub proof fn lemma_nothing(
    w: (i64, i64),
    frame_event: Seq<char>,
    tid: u64,
    limit: i64,
    a: WindowStats,
)
    requires
        stats_of(Seq::empty(), w, frame_event, tid, limit, a),
    ensures
        a.run == 0,
        a.js == 0,
        a.long == 0,
        a.long_count == 0,
        a.gc == 0,
        a.gc_count == 0,
        a.dropped == 0,
        a.frames.count == 0,
{
}

proof fn lemma_drops_insert(events: Seq<TraceEvent>, k: int, e: TraceEvent, w: (i64, i64))
    requires
        0 <= k <= events.len(),
    ensures
        drops(events.insert(k, e), window_scope(w)) == drops(events, window_scope(w)) + if is_drop(
            e,
            window_scope(w),
        ) {
            1int
        } else {
            0int
        },
    decreases events.len(),
{
    let more = events.insert(k, e);
    if k == events.len() {
        assert(more.drop_last() =~= events);
        assert(more.last() == e);
    } else {
        lemma_drops_insert(events.drop_last(), k, e, w);
        assert(more.drop_last() =~= events.drop_last().insert(k, e));
        assert(more.last() == events.last());
    }
}

/// A dropped frame in the window counts one, on any thread and of any phase; no
/// other event does.
pub proof fn lemma_dropped_frame(
    events: Seq<TraceEvent>,
    k: int,
    e: TraceEvent,
    w: (i64, i64),
    frame_event: Seq<char>,
    tid: u64,
    limit: i64,
    a: WindowStats,
    b: WindowStats,
)
    requires
        0 <= k <= events.len(),
        stats_of(events, w, frame_event, tid, limit, a),
        stats_of(events.insert(k, e), w, frame_event, tid, limit, b),
    ensures
        e.name@ == "DroppedFrame"@ && w.0 <= e.ts <= w.1 ==> b.dropped == a.dropped + 1,
        e.name@ != "DroppedFrame"@ || e.ts < w.0 || w.1 < e.ts ==> b.dropped == a.dropped,
{
    lemma_drops_insert(events, k, e, w);
}

/// The row tells a time or a count, and the figures of the three windows.
pub open spec fn row_tells(r: DeltaRow, time: bool, a: int, b: int, c: int) -> bool {
    &&& r.unit == if time {
        Unit::Time
    } else {
        Unit::Count
    }
    &&& r.pre == a
    &&& r.shoot == b
    &&& r.post == c
}

/// Every row tells the figures that its metric names.
pub open spec fn rows_tell(
    rows: Seq<DeltaRow>,
    a: WindowStats,
    b: WindowStats,
    c: WindowStats,
) -> bool {
    &&& rows.len() == 13
    &&& rows[0].metric@ == "frames"@
    &&& row_tells(rows[0], false, a.frames.count as int, b.frames.count as int, c.frames.count as int)
    &&& rows[1].metric@ == "frame p50"@
    &&& row_tells(rows[1], true, a.frames.p50 as int, b.frames.p50 as int, c.frames.p50 as int)
    &&& rows[2].metric@ == "frame p90"@
    &&& row_tells(rows[2], true, a.frames.p90 as int, b.frames.p90 as int, c.frames.p90 as int)
    &&& rows[3].metric@ == "frame p99"@
    &&& row_tells(rows[3], true, a.frames.p99 as int, b.frames.p99 as int, c.frames.p99 as int)
    &&& rows[4].metric@ == "frame max"@
    &&& row_tells(rows[4], true, a.frames.max as int, b.frames.max as int, c.frames.max as int)
    &&& rows[5].metric@ == "dropped frames"@
    &&& row_tells(rows[5], false, a.dropped as int, b.dropped as int, c.dropped as int)
    &&& row_tells(rows[6], false, a.long_count as int, b.long_count as int, c.long_count as int)
    &&& rows[7].metric@ == "long task time"@
    &&& row_tells(rows[7], true, a.long as int, b.long as int, c.long as int)
    &&& rows[8].metric@ == "main busy (RunTask)"@
    &&& row_tells(rows[8], true, a.run as int, b.run as int, c.run as int)
    &&& rows[9].metric@ == "JS (FunctionCall)"@
    &&& row_tells(rows[9], true, a.js as int, b.js as int, c.js as int)
    &&& rows[10].metric@ == "GC (Major+Minor)"@
    &&& row_tells(rows[10], true, a.gc as int, b.gc as int, c.gc as int)
    &&& rows[11].metric@ == "GC count"@
    &&& row_tells(rows[11], false, a.gc_count as int, b.gc_count as int, c.gc_count as int)
    &&& rows[12].metric@ == "CPU samples"@
    &&& row_tells(rows[12], true, a.cpu as int, b.cpu as int, c.cpu as int)
}

/// The rows tell the figures of the windows before, at and after the anchor, in
/// this order, each under its name, and tasks are those of the main thread.
pub proof fn lemma_rows_tell(
    events: Seq<TraceEvent>,
    frame_event: Seq<char>,
    limit: i64,
    d: DeltaData,
)
    requires
        delta_of(events, frame_event, limit, d),
    ensures
        exists|tid: u64, a: WindowStats, b: WindowStats, c: WindowStats|
            {
                &&& #[trigger] is_main_thread(events, tid)
                &&& stats_of(events, d.pre, frame_event, tid, limit, a)
                &&& stats_of(events, d.shoot, frame_event, tid, limit, b)
                &&& stats_of(events, d.post, frame_event, tid, limit, c)
                &&& #[trigger] rows_tell(d.rows@, a, b, c)
            },
{
    let (tid, a, b, c) = choose|tid: u64, a: WindowStats, b: WindowStats, c: WindowStats|
        {
            &&& #[trigger] is_main_thread(events, tid)
            &&& stats_of(events, d.pre, frame_event, tid, limit, a)
            &&& stats_of(events, d.shoot, frame_event, tid, limit, b)
            &&& stats_of(events, d.post, frame_event, tid, limit, c)
            &&& #[trigger] metric_rows(limit, a, b, c, d.rows@)
            &&& d.top_cpu == (a.top_cpu, b.top_cpu, c.top_cpu)
        };
    assert forall|k: int| 0 <= k < 13 implies metric_row(k, limit, a, b, c, #[trigger] d.rows@[k]) by {
    }
    assert(rows_tell(d.rows@, a, b, c));
}

} // verus!
