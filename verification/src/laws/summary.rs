//! What one more event changes in a summary, and what its figures are of.

use vstd::prelude::*;
use crate::analysis::common::total;
use crate::analysis::summary::{
    first_ts,
    last_end,
    long_durs,
    longest,
    name_hit,
    name_time,
    occurring,
    stat_of,
    summary_of,
    target_index,
    target_name,
    task_time,
    SummaryResult,
};
use crate::laws::jank::unmarked;
use crate::laws::sums::{lemma_total_insert, lemma_total_same};
use crate::sort::{comes_before, holds, orders};
use crate::trace::event::TraceEvent;
use crate::trace::meta::is_metadata;

verus! {

proof fn lemma_task_unmarked(e: TraceEvent)
    requires
        e.name@ == "RunTask"@,
    ensures
        is_metadata(e) <==> !unmarked(e),
{
    reveal_strlit("RunTask");
    reveal_strlit("thread_name");
    reveal_strlit("process_name");
    reveal_strlit("thread_sort_index");
    reveal_strlit("process_sort_index");
    assert("RunTask"@[0] == 'R' && "thread_name"@[0] == 't' && "process_name"@[0] == 'p');
    assert("thread_sort_index"@[0] == 't' && "process_sort_index"@[0] == 'p');
}

proof fn lemma_long_insert(events: Seq<TraceEvent>, k: int, e: TraceEvent, tid: u64)
    requires
        0 <= k <= events.len(),
    ensures
        long_durs(events.insert(k, e), tid).len() == long_durs(events, tid).len() + long_durs(
            seq![e],
            tid,
        ).len(),
    decreases events.len(),
{
    let more = events.insert(k, e);
    assert(seq![e].drop_last() =~= Seq::<TraceEvent>::empty());
    assert(long_durs(seq![e].drop_last(), tid) =~= Seq::<i128>::empty());
    if k == events.len() {
        assert(more.drop_last() =~= events);
        assert(more.last() == e);
    } else {
        lemma_long_insert(events.drop_last(), k, e, tid);
        assert(more.drop_last() =~= events.drop_last().insert(k, e));
        assert(more.last() == events.last());
    }
}

/// A complete task of the main thread adds its duration to the busy time, and is
/// a long task where it takes more than fifty milliseconds.
pub proof fn lemma_main_task(
    events: Seq<TraceEvent>,
    k: int,
    e: TraceEvent,
    d: i64,
    tid: u64,
    a: SummaryResult,
    b: SummaryResult,
)
    requires
        0 <= k <= events.len(),
        e.name@ == "RunTask"@,
        e.ph == 88,
        e.tid == tid,
        e.dur == Some(d),
        unmarked(e),
        summary_of(events, tid, a),
        summary_of(events.insert(k, e), tid, b),
    ensures
        b.main_thread_busy == a.main_thread_busy + d,
        d > 50_000_000 ==> b.long_task_count == a.long_task_count + 1,
        d <= 50_000_000 ==> b.long_task_count == a.long_task_count,
{
    lemma_task_unmarked(e);
    lemma_total_insert(events, k, e, task_time(tid));
    lemma_long_insert(events, k, e, tid);
    assert(seq![e].drop_last() =~= Seq::<TraceEvent>::empty());
    assert(seq![e].last() == e);
    assert(long_durs(seq![e].drop_last(), tid) =~= Seq::<i128>::empty());
}

/// An event that is no task, is not of the main thread, is not complete or has
/// no duration changes neither the busy time nor the number of long tasks.
pub proof fn lemma_no_main_task(
    events: Seq<TraceEvent>,
    k: int,
    e: TraceEvent,
    tid: u64,
    a: SummaryResult,
    b: SummaryResult,
)
    requires
        0 <= k <= events.len(),
        e.name@ != "RunTask"@ || e.tid != tid || e.ph != 88 || e.dur is None,
        summary_of(events, tid, a),
        summary_of(events.insert(k, e), tid, b),
    ensures
        b.main_thread_busy == a.main_thread_busy,
        b.long_task_count == a.long_task_count,
{
    lemma_total_insert(events, k, e, task_time(tid));
    lemma_long_insert(events, k, e, tid);
    assert(seq![e].drop_last() =~= Seq::<TraceEvent>::empty());
    assert(seq![e].last() == e);
    assert(long_durs(seq![e].drop_last(), tid) =~= Seq::<i128>::empty());
}

/// The event tells of the session: neither its name nor its category marks it
/// as metadata.
pub open spec fn of_session(e: TraceEvent) -> bool {
    &&& unmarked(e)
    &&& e.name@ != "thread_name"@
    &&& e.name@ != "process_name"@
    &&& e.name@ != "thread_sort_index"@
    &&& e.name@ != "process_sort_index"@
}

/// When an event is over.
pub open spec fn over_at(e: TraceEvent) -> int {
    match e.dur {
        Some(d) => e.ts + d,
        None => e.ts as int,
    }
}

proof fn lemma_first(events: Seq<TraceEvent>)
    ensures
        forall|x: int|
            0 <= x < events.len() && of_session(#[trigger] events[x]) ==> (first_ts(events) matches Some(
                t,
            ) && t <= events[x].ts),
        first_ts(events) matches Some(t) ==> exists|x: int|
            0 <= x < events.len() && of_session(#[trigger] events[x]) && events[x].ts == t,
    decreases events.len(),
{
    if events.len() > 0 {
        let rest = events.drop_last();
        lemma_first(rest);
        assert forall|x: int| 0 <= x < events.len() && of_session(#[trigger] events[x]) implies (
        first_ts(events) matches Some(t) && t <= events[x].ts) by {
            if x < rest.len() {
                assert(rest[x] == events[x]);
            }
        }
        if let Some(t) = first_ts(events) {
            let e = events[events.len() - 1];
            if of_session(e) && e.ts == t {
            } else {
                let x = choose|x: int|
                    0 <= x < rest.len() && of_session(#[trigger] rest[x]) && rest[x].ts == t;
                assert(events[x] == rest[x]);
            }
        }
    }
}

proof fn lemma_last(events: Seq<TraceEvent>)
    ensures
        0 <= last_end(events),
        forall|x: int|
            0 <= x < events.len() && of_session(#[trigger] events[x]) ==> over_at(events[x]) <= last_end(
                events,
            ),
        last_end(events) > 0 ==> exists|x: int|
            0 <= x < events.len() && of_session(#[trigger] events[x]) && over_at(events[x])
                == last_end(events),
    decreases events.len(),
{
    if events.len() > 0 {
        let rest = events.drop_last();
        lemma_last(rest);
        assert forall|x: int| 0 <= x < events.len() && of_session(#[trigger] events[x]) implies over_at(
            events[x],
        ) <= last_end(events) by {
            if x < rest.len() {
                assert(rest[x] == events[x]);
            }
        }
        if last_end(events) > 0 {
            let e = events[events.len() - 1];
            if of_session(e) && over_at(e) > last_end(rest) {
            } else {
                let x = choose|x: int|
                    0 <= x < rest.len() && of_session(#[trigger] rest[x]) && over_at(rest[x]) == last_end(
                        rest,
                    );
                assert(events[x] == rest[x]);
            }
        }
    }
}

/// The duration of a trace spans every event of the session, from the start of
/// one to the end of another, and no more than that.
pub proof fn lemma_duration(events: Seq<TraceEvent>, tid: u64, r: SummaryResult)
    requires
        summary_of(events, tid, r),
    ensures
        forall|x: int, y: int|
            0 <= x < events.len() && 0 <= y < events.len() && of_session(#[trigger] events[x])
                && of_session(#[trigger] events[y]) ==> over_at(events[x]) - events[y].ts
                <= r.total_trace_duration,
        r.total_trace_duration > 0 ==> exists|y: int|
            0 <= y < events.len() && of_session(#[trigger] events[y]) && (events[y].ts
                == -r.total_trace_duration || exists|x: int|
                0 <= x < events.len() && of_session(#[trigger] events[x]) && over_at(events[x])
                    - events[y].ts == r.total_trace_duration),
        r.total_trace_duration >= 0,
{
    lemma_first(events);
    lemma_last(events);
    if r.total_trace_duration > 0 {
        let t = first_ts(events)->0;
        let y = choose|y: int|
            0 <= y < events.len() && of_session(#[trigger] events[y]) && events[y].ts == t;
        if last_end(events) > 0 {
            let x = choose|x: int|
                0 <= x < events.len() && of_session(#[trigger] events[x]) && over_at(events[x])
                    == last_end(events);
            assert(over_at(events[x]) - events[y].ts == r.total_trace_duration);
        }
        assert(of_session(events[y]));
    }
}

/// A complete event of the thread with the name and with a duration.
pub open spec fn of_name(e: TraceEvent, tid: u64, name: Seq<char>) -> bool {
    e.tid == tid && e.ph == 88 && e.dur is Some && e.name@ == name && unmarked(e)
}

pub open spec fn time_on(tid: u64, name: Seq<char>) -> spec_fn(TraceEvent) -> int {
    |e: TraceEvent|
        if of_name(e, tid, name) {
            e.dur->0 as int
        } else {
            0
        }
}

pub open spec fn hits_on(tid: u64, name: Seq<char>) -> spec_fn(TraceEvent) -> int {
    |e: TraceEvent|
        if of_name(e, tid, name) {
            1
        } else {
            0
        }
}

/// The names whose events are told.
pub open spec fn told(name: Seq<char>) -> bool {
    ||| name == "RunTask"@
    ||| name == "UpdateLayoutTree"@
    ||| name == "Layout"@
    ||| name == "Paint"@
    ||| name == "FunctionCall"@
    ||| name == "FireAnimationFrame"@
    ||| name == "Layerize"@
    ||| name == "Commit"@
    ||| name == "HitTest"@
    ||| name == "IntersectionObserverController::computeIntersections"@
    ||| name == "MajorGC"@
    ||| name == "MinorGC"@
    ||| name == "EvaluateScript"@
}

proof fn lemma_told(name: Seq<char>)
    requires
        told(name),
    ensures
        name != "thread_name"@,
        name != "process_name"@,
        name != "thread_sort_index"@,
        name != "process_sort_index"@,
{
    reveal_strlit("thread_name");
    reveal_strlit("process_name");
    reveal_strlit("thread_sort_index");
    reveal_strlit("process_sort_index");
    reveal_strlit("RunTask");
    reveal_strlit("UpdateLayoutTree");
    reveal_strlit("Layout");
    reveal_strlit("Paint");
    reveal_strlit("FunctionCall");
    reveal_strlit("FireAnimationFrame");
    reveal_strlit("Layerize");
    reveal_strlit("Commit");
    reveal_strlit("HitTest");
    reveal_strlit("IntersectionObserverController::computeIntersections");
    reveal_strlit("MajorGC");
    reveal_strlit("MinorGC");
    reveal_strlit("EvaluateScript");
    assert("thread_name"@[0] == 't' && "process_name"@[0] == 'p' && "thread_sort_index"@[0] == 't'
        && "process_sort_index"@[0] == 'p');
    assert(name[0] != 't' && name[0] != 'p');
}

proof fn lemma_index(name: Seq<char>, n: int)
    requires
        0 <= n <= 13,
    ensures
        target_index(name, n) matches Some(k) ==> 0 <= k < n && target_name(k) == name,
        forall|k: int| 0 <= k < n && #[trigger] target_name(k) == name ==> target_index(name, n) is Some,
    decreases n,
{
    if n > 0 {
        lemma_index(name, n - 1);
    }
}

proof fn lemma_index_told(name: Seq<char>)
    ensures
        target_index(name, 13) is Some <==> told(name),
{
    lemma_index(name, 13);
    if told(name) {
        if target_index(name, 13) is None {
            assert(target_name(0) != name && target_name(1) != name && target_name(2) != name
                && target_name(3) != name && target_name(4) != name && target_name(5) != name
                && target_name(6) != name && target_name(7) != name && target_name(8) != name
                && target_name(9) != name && target_name(10) != name && target_name(11) != name
                && target_name(12) != name);
        }
    }
}

/// What is counted for a name is what its events count.
proof fn lemma_name_sums(events: Seq<TraceEvent>, tid: u64, k: int, name: Seq<char>)
    requires
        target_index(name, 13) == Some(k),
    ensures
        total(events, name_time(tid, k)) == total(events, time_on(tid, name)),
        total(events, name_hit(tid, k)) == total(events, hits_on(tid, name)),
{
    lemma_index(name, 13);
    lemma_index_told(name);
    lemma_told(name);
    assert forall|i: int| 0 <= i < events.len() implies name_time(tid, k)(#[trigger] events[i])
        == time_on(tid, name)(events[i]) && name_hit(tid, k)(events[i]) == hits_on(tid, name)(
        events[i],
    ) by {
        let e = events[i];
        lemma_index(e.name@, 13);
    }
    lemma_total_same(events, name_time(tid, k), time_on(tid, name));
    lemma_total_same(events, name_hit(tid, k), hits_on(tid, name));
}

proof fn lemma_occurring(events: Seq<TraceEvent>, tid: u64, n: int)
    ensures
        forall|j: int|
            0 <= j < occurring(events, tid, n).len() ==> 0 <= #[trigger] occurring(events, tid, n)[j]
                < n && total(events, name_hit(tid, occurring(events, tid, n)[j])) > 0,
        forall|k: int|
            0 <= k < n && #[trigger] total(events, name_hit(tid, k)) > 0 ==> occurring(
                events,
                tid,
                n,
            ).contains(k),
    decreases n,
{
    if n > 0 {
        lemma_occurring(events, tid, n - 1);
        let before = occurring(events, tid, n - 1);
        let all = occurring(events, tid, n);
        assert forall|j: int| 0 <= j < all.len() implies 0 <= #[trigger] all[j] < n && total(
            events,
            name_hit(tid, all[j]),
        ) > 0 by {
            if j < before.len() {
                assert(all[j] == before[j]);
            }
        }
        assert forall|k: int| 0 <= k < n && #[trigger] total(events, name_hit(tid, k)) > 0 implies all.contains(
            k,
        ) by {
            if k < n - 1 {
                let j = choose|j: int| 0 <= j < before.len() && before[j] == k;
                assert(all[j] == k);
            } else {
                assert(all[all.len() - 1] == k);
            }
        }
    }
}

/// Every row of the breakdown is that of a name which is told: its time and its
/// number are those of the complete main-thread events of that name, and its
/// average is the one over the other. The rows come with most time first.
pub proof fn lemma_breakdown(events: Seq<TraceEvent>, tid: u64, r: SummaryResult, i: int)
    requires
        summary_of(events, tid, r),
        0 <= i < r.event_stats@.len(),
    ensures
        ({
            let s = r.event_stats@[i];
            &&& told(s.name@)
            &&& s.total_time == total(events, time_on(tid, s.name@))
            &&& s.count == total(events, hits_on(tid, s.name@))
            &&& s.count > 0
            &&& s.avg_time.num == s.total_time
            &&& s.avg_time.den == s.count
            &&& s.share_of_trace.num == s.total_time
            &&& s.share_of_trace.den == r.total_trace_duration
        }),
        i + 1 < r.event_stats@.len() ==> r.event_stats@[i].total_time
            >= r.event_stats@[i + 1].total_time,
{
    let names = occurring(events, tid, 13);
    let times = names.map_values(|k: int| total(events, name_time(tid, k)) as i128);
    let stats = r.event_stats@;
    let p = choose|p: Seq<usize>|
        {
            &&& #[trigger] orders(times, true, p)
            &&& stats.len() == p.len()
            &&& forall|i: int|
                0 <= i < stats.len() ==> stat_of(events, tid, names[p[i] as int], #[trigger] stats[i])
        };
    lemma_occurring(events, tid, 13);
    let k = names[p[i] as int];
    let s = stats[i];
    assert(stat_of(events, tid, k, s));
    lemma_first_index(k);
    lemma_index_told(s.name@);
    lemma_name_sums(events, tid, k, s.name@);
    if i + 1 < stats.len() {
        assert(stat_of(events, tid, names[p[i + 1] as int], stats[i + 1]));
        assert(comes_before(times, true, p[i] as int, p[i + 1] as int));
        assert(times[p[i] as int] == total(events, name_time(tid, k)) as i128);
        assert(times[p[i + 1] as int] == total(events, name_time(tid, names[p[i + 1] as int])) as i128);
    }
}

/// Each name stands at one place.
proof fn lemma_first_index(k: int)
    requires
        0 <= k < 13,
    ensures
        target_index(target_name(k), 13) == Some(k),
{
    reveal_strlit("RunTask");
    reveal_strlit("UpdateLayoutTree");
    reveal_strlit("Layout");
    reveal_strlit("Paint");
    reveal_strlit("FunctionCall");
    reveal_strlit("FireAnimationFrame");
    reveal_strlit("Layerize");
    reveal_strlit("Commit");
    reveal_strlit("HitTest");
    reveal_strlit("IntersectionObserverController::computeIntersections");
    reveal_strlit("MajorGC");
    reveal_strlit("MinorGC");
    reveal_strlit("EvaluateScript");
    assert("RunTask"@.len() == 7 && "UpdateLayoutTree"@.len() == 16 && "Layout"@.len() == 6
        && "Paint"@.len() == 5 && "FunctionCall"@.len() == 12 && "FireAnimationFrame"@.len() == 18
        && "Layerize"@.len() == 8 && "Commit"@.len() == 6 && "HitTest"@.len() == 7
        && "IntersectionObserverController::computeIntersections"@.len() == 52 && "MajorGC"@.len()
        == 7 && "MinorGC"@.len() == 7 && "EvaluateScript"@.len() == 14);
    assert("RunTask"@[0] == 'R' && "HitTest"@[0] == 'H' && "MajorGC"@[0] == 'M' && "MinorGC"@[0]
        == 'M' && "MajorGC"@[1] == 'a' && "MinorGC"@[1] == 'i' && "Layout"@[0] == 'L' && "Commit"@[0]
        == 'C');
    lemma_index(target_name(k), 13);
    let j = target_index(target_name(k), 13)->0;
    assert(target_name(j) == target_name(k));
}

/// Every name that is told and occurs on the main thread has a row.
pub proof fn lemma_breakdown_complete(events: Seq<TraceEvent>, tid: u64, r: SummaryResult, x: int)
    requires
        summary_of(events, tid, r),
        0 <= x < events.len(),
        told(events[x].name@),
        of_name(events[x], tid, events[x].name@),
    ensures
        exists|i: int|
            0 <= i < r.event_stats@.len() && (#[trigger] r.event_stats@[i]).name@ == events[x].name@,
{
    let name = events[x].name@;
    let names = occurring(events, tid, 13);
    let times = names.map_values(|k: int| total(events, name_time(tid, k)) as i128);
    let stats = r.event_stats@;
    let p = choose|p: Seq<usize>|
        {
            &&& #[trigger] orders(times, true, p)
            &&& stats.len() == p.len()
            &&& forall|i: int|
                0 <= i < stats.len() ==> stat_of(events, tid, names[p[i] as int], #[trigger] stats[i])
        };
    lemma_occurring(events, tid, 13);
    lemma_index_told(name);
    lemma_index(name, 13);
    let k = target_index(name, 13)->0;
    lemma_name_sums(events, tid, k, name);
    crate::laws::sums::lemma_total_least(events, hits_on(tid, name), x);
    assert(hits_on(tid, name)(events[x]) == 1);
    assert(names.contains(k));
    let j = choose|j: int| 0 <= j < names.len() && names[j] == k;
    assert(holds(p, j));
    let i = choose|i: int| 0 <= i < p.len() && #[trigger] p[i] == j;
    assert(stat_of(events, tid, names[p[i] as int], stats[i]));
}

proof fn lemma_long_listed(events: Seq<TraceEvent>, tid: u64, x: int, d: i64)
    requires
        0 <= x < events.len(),
        events[x].name@ == "RunTask"@,
        of_name(events[x], tid, "RunTask"@),
        events[x].dur == Some(d),
        d > 50_000_000,
    ensures
        long_durs(events, tid).contains(d as i128),
    decreases events.len(),
{
    let rest = events.drop_last();
    let all = long_durs(events, tid);
    let before = long_durs(rest, tid);
    if x < rest.len() {
        assert(rest[x] == events[x]);
        lemma_long_listed(rest, tid, x, d);
        let i = choose|i: int| 0 <= i < before.len() && before[i] == d as i128;
        assert(all[i] == d as i128);
    } else {
        lemma_task_unmarked(events[x]);
        assert(all[all.len() - 1] == d as i128);
    }
}

/// The longest of the long tasks comes first: no task of the main thread is
/// longer, and each that is listed is no shorter than the next.
pub proof fn lemma_longest_task(events: Seq<TraceEvent>, tid: u64, r: SummaryResult, x: int, d: i64)
    requires
        summary_of(events, tid, r),
        0 <= x < events.len(),
        events[x].name@ == "RunTask"@,
        of_name(events[x], tid, "RunTask"@),
        events[x].dur == Some(d),
        d > 50_000_000,
    ensures
        r.long_tasks_top@.len() > 0,
        r.long_tasks_top@[0] >= d,
        forall|i: int, j: int|
            0 <= i < j < r.long_tasks_top@.len() ==> (#[trigger] r.long_tasks_top@[i]) >= (
            #[trigger] r.long_tasks_top@[j]),
        r.long_task_count <= 10 ==> r.long_tasks_top@.len() == r.long_task_count,
        r.long_task_count > 10 ==> r.long_tasks_top@.len() == 10,
{
    let durs = long_durs(events, tid);
    let top = r.long_tasks_top@;
    lemma_long_listed(events, tid, x, d);
    let w = choose|w: int| 0 <= w < durs.len() && durs[w] == d as i128;
    let p = choose|p: Seq<usize>|
        {
            &&& #[trigger] orders(durs, true, p)
            &&& top.len() == if p.len() < 10 {
                p.len()
            } else {
                10
            }
            &&& forall|i: int| 0 <= i < top.len() ==> #[trigger] top[i] == durs[p[i] as int]
        };
    assert(holds(p, w));
    let v = choose|v: int| 0 <= v < p.len() && #[trigger] p[v] == w;
    if v > 0 {
        assert(comes_before(durs, true, p[0] as int, p[v] as int));
    }
    assert(top[0] == durs[p[0] as int]);
    assert forall|i: int, j: int| 0 <= i < j < top.len() implies (#[trigger] top[i]) >= (
    #[trigger] top[j]) by {
        assert(comes_before(durs, true, p[i] as int, p[j] as int));
    }
}

} // verus!
