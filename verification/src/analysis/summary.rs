//! Whole-trace summary: duration, long tasks, main-thread busy time and a
//! per-event-name breakdown.

use vstd::prelude::*;
use crate::analysis::common::{
    dur_of,
    end_of,
    end_time,
    lemma_total_bound,
    on_thread,
    ticks_valued,
    total,
    Ratio,
    TICK_BOUND,
};
use crate::sort::{order, orders};
use crate::text::same;
use crate::trace::event::TraceEvent;
use crate::trace::meta::{is_metadata, is_metadata_event, PH_COMPLETE};

verus! {

/// Share of one event name. The average is per event; the share is that of
/// the trace's duration.
pub struct EventTypeStat {
    pub name: &'static str,
    pub total_time: i128,
    pub count: usize,
    pub avg_time: Ratio,
    pub share_of_trace: Ratio,
}

/// Summary of a trace; times in nanoseconds.
pub struct SummaryResult {
    pub long_task_count: usize,
    pub long_tasks_top: Vec<i64>,
    pub total_trace_duration: i128,
    pub main_thread_busy: i128,
    pub event_stats: Vec<EventTypeStat>,
}

/// Number of event names that are tracked.
pub const TRACKED: usize = 13;

/// The tracked event names.
pub open spec fn target_name(k: int) -> Seq<char> {
    if k == 0 {
        "RunTask"@
    } else if k == 1 {
        "UpdateLayoutTree"@
    } else if k == 2 {
        "Layout"@
    } else if k == 3 {
        "Paint"@
    } else if k == 4 {
        "FunctionCall"@
    } else if k == 5 {
        "FireAnimationFrame"@
    } else if k == 6 {
        "Layerize"@
    } else if k == 7 {
        "Commit"@
    } else if k == 8 {
        "HitTest"@
    } else if k == 9 {
        "IntersectionObserverController::computeIntersections"@
    } else if k == 10 {
        "MajorGC"@
    } else if k == 11 {
        "MinorGC"@
    } else {
        "EvaluateScript"@
    }
}

fn target(k: usize) -> (r: &'static str)
    requires
        k < TRACKED,
    ensures
        r@ == target_name(k as int),
{
    if k == 0 {
        "RunTask"
    } else if k == 1 {
        "UpdateLayoutTree"
    } else if k == 2 {
        "Layout"
    } else if k == 3 {
        "Paint"
    } else if k == 4 {
        "FunctionCall"
    } else if k == 5 {
        "FireAnimationFrame"
    } else if k == 6 {
        "Layerize"
    } else if k == 7 {
        "Commit"
    } else if k == 8 {
        "HitTest"
    } else if k == 9 {
        "IntersectionObserverController::computeIntersections"
    } else if k == 10 {
        "MajorGC"
    } else if k == 11 {
        "MinorGC"
    } else {
        "EvaluateScript"
    }
}

/// The tracked name equal to `name`, among the first `n`.
pub open spec fn target_index(name: Seq<char>, n: int) -> Option<int>
    decreases n,
{
    if n <= 0 {
        None
    } else if target_index(name, n - 1) is Some {
        target_index(name, n - 1)
    } else if target_name(n - 1) == name {
        Some(n - 1)
    } else {
        None
    }
}

fn index_of(name: &str) -> (r: Option<usize>)
    ensures
        match r {
            Some(k) => target_index(name@, TRACKED as int) == Some(k as int) && k < TRACKED
                && target_name(k as int) == name@,
            None => target_index(name@, TRACKED as int) is None,
        },
{
    let mut k: usize = 0;
    let mut found: Option<usize> = None;
    while k < TRACKED
        invariant
            k <= TRACKED,
            match found {
                Some(f) => target_index(name@, k as int) == Some(f as int) && f < k && target_name(
                    f as int,
                ) == name@,
                None => target_index(name@, k as int) is None,
            },
        decreases TRACKED - k,
    {
        if found.is_none() && same(target(k), name) {
            found = Some(k);
        }
        k = k + 1;
    }
    found
}

/// Map an event name to its tracked name; `None` when it is not tracked.
pub fn target_key(name: &str) -> (r: Option<&'static str>)
    ensures
        match r {
            Some(key) => key@ == name@ && target_index(name@, TRACKED as int) is Some,
            None => target_index(name@, TRACKED as int) is None,
        },
{
    match index_of(name) {
        Some(k) => Some(target(k)),
        None => None,
    }
}

/// An event that the per-thread figures count.
pub open spec fn counted(e: TraceEvent, main_tid: u64) -> bool {
    !is_metadata(e) && on_thread(e, main_tid) && e.dur is Some
}

/// The earliest start among the events that are no metadata.
pub open spec fn first_ts(events: Seq<TraceEvent>) -> Option<int>
    decreases events.len(),
{
    if events.len() == 0 {
        None
    } else {
        let e = events.last();
        let before = first_ts(events.drop_last());
        if is_metadata(e) {
            before
        } else {
            match before {
                Some(t) => Some(
                    if e.ts < t {
                        e.ts as int
                    } else {
                        t
                    },
                ),
                None => Some(e.ts as int),
            }
        }
    }
}

/// The latest end among the events that are no metadata, at least zero.
pub open spec fn last_end(events: Seq<TraceEvent>) -> int
    decreases events.len(),
{
    if events.len() == 0 {
        0
    } else {
        let e = events.last();
        let before = last_end(events.drop_last());
        if !is_metadata(e) && end_of(e) > before {
            end_of(e)
        } else {
            before
        }
    }
}

/// The duration of a trace: from the earliest start to the latest end.
pub open spec fn trace_duration(events: Seq<TraceEvent>) -> int {
    match first_ts(events) {
        Some(t) => if last_end(events) > t {
            last_end(events) - t
        } else {
            0
        },
        None => 0,
    }
}

/// Time of a main-thread task.
pub open spec fn task_time(main_tid: u64) -> spec_fn(TraceEvent) -> int {
    |e: TraceEvent|
        if counted(e, main_tid) && e.name@ == "RunTask"@ {
            dur_of(e)
        } else {
            0
        }
}

/// The event counts for tracked name `k`.
pub open spec fn counts_for(e: TraceEvent, main_tid: u64, k: int) -> bool {
    counted(e, main_tid) && target_index(e.name@, TRACKED as int) == Some(k)
}

/// Time of an event of tracked name `k`.
pub open spec fn name_time(main_tid: u64, k: int) -> spec_fn(TraceEvent) -> int {
    |e: TraceEvent|
        if counts_for(e, main_tid, k) {
            dur_of(e)
        } else {
            0
        }
}

/// One for each event of tracked name `k`.
pub open spec fn name_hit(main_tid: u64, k: int) -> spec_fn(TraceEvent) -> int {
    |e: TraceEvent|
        if counts_for(e, main_tid, k) {
            1
        } else {
            0
        }
}

/// A long task takes more than fifty milliseconds.
pub const LONG: i64 = 50_000_000;

/// Durations of the long tasks, in the order of the trace.
pub open spec fn long_durs(events: Seq<TraceEvent>, main_tid: u64) -> Seq<i128>
    decreases events.len(),
{
    if events.len() == 0 {
        Seq::empty()
    } else {
        let e = events.last();
        let before = long_durs(events.drop_last(), main_tid);
        if counted(e, main_tid) && e.name@ == "RunTask"@ && dur_of(e) > LONG {
            before.push(dur_of(e) as i128)
        } else {
            before
        }
    }
}

/// The first `n` of the durations, longest first.
pub open spec fn longest(durs: Seq<i128>, top: Seq<i64>, n: nat) -> bool {
    exists|p: Seq<usize>|
        {
            &&& #[trigger] orders(durs, true, p)
            &&& top.len() == if p.len() < n {
                p.len()
            } else {
                n
            }
            &&& forall|i: int| 0 <= i < top.len() ==> #[trigger] top[i] == durs[p[i] as int]
        }
}

/// The figures of tracked name `k`.
pub open spec fn stat_of(events: Seq<TraceEvent>, main_tid: u64, k: int, s: EventTypeStat) -> bool {
    let time = total(events, name_time(main_tid, k));
    &&& s.name@ == target_name(k)
    &&& s.total_time == time
    &&& s.count == total(events, name_hit(main_tid, k))
    &&& s.avg_time.num == time
    &&& s.avg_time.den == s.count
    &&& s.share_of_trace.num == time
    &&& s.share_of_trace.den == trace_duration(events)
}

/// The tracked names that occur, up to `n`.
pub open spec fn occurring(events: Seq<TraceEvent>, main_tid: u64, n: int) -> Seq<int>
    decreases n,
{
    if n <= 0 {
        Seq::empty()
    } else {
        let before = occurring(events, main_tid, n - 1);
        if total(events, name_hit(main_tid, n - 1)) > 0 {
            before.push(n - 1)
        } else {
            before
        }
    }
}

/// `stats` gives the figures of each tracked name that occurs, the largest
/// total first.
pub open spec fn stats_of(events: Seq<TraceEvent>, main_tid: u64, stats: Seq<EventTypeStat>) -> bool {
    let names = occurring(events, main_tid, TRACKED as int);
    let times = names.map_values(|k: int| total(events, name_time(main_tid, k)) as i128);
    exists|p: Seq<usize>|
        {
            &&& #[trigger] orders(times, true, p)
            &&& stats.len() == p.len()
            &&& forall|i: int|
                0 <= i < stats.len() ==> stat_of(
                    events,
                    main_tid,
                    names[p[i] as int],
                    #[trigger] stats[i],
                )
        }
}

/// What each field of a summary says.
pub open spec fn summary_of(events: Seq<TraceEvent>, main_tid: u64, r: SummaryResult) -> bool {
    let durs = long_durs(events, main_tid);
    &&& r.long_task_count == durs.len()
    &&& longest(durs, r.long_tasks_top@, 10)
    &&& r.total_trace_duration == trace_duration(events)
    &&& r.main_thread_busy == total(events, task_time(main_tid))
    &&& stats_of(events, main_tid, r.event_stats@)
}

proof fn lemma_times_valued(main_tid: u64, k: int)
    ensures
        ticks_valued(task_time(main_tid)),
        ticks_valued(name_time(main_tid, k)),
        ticks_valued(name_hit(main_tid, k)),
{
}

proof fn lemma_hits(events: Seq<TraceEvent>, main_tid: u64, k: int)
    ensures
        0 <= total(events, name_hit(main_tid, k)) <= events.len(),
    decreases events.len(),
{
    if events.len() > 0 {
        lemma_hits(events.drop_last(), main_tid, k);
    }
}

proof fn lemma_durs_len(events: Seq<TraceEvent>, main_tid: u64)
    ensures
        long_durs(events, main_tid).len() <= events.len(),
        forall|i: int|
            0 <= i < long_durs(events, main_tid).len() ==> 0 < #[trigger] long_durs(events, main_tid)[i]
                <= i64::MAX,
    decreases events.len(),
{
    if events.len() > 0 {
        lemma_durs_len(events.drop_last(), main_tid);
        let a = long_durs(events, main_tid);
        let b = long_durs(events.drop_last(), main_tid);
        assert forall|i: int| 0 <= i < a.len() implies 0 < #[trigger] a[i] <= i64::MAX by {
            if i < b.len() {
                assert(a[i] == b[i]);
            }
        }
    }
}

/// Sums and counts of the tracked names over the whole list.
struct Tally {
    busy: i128,
    times: Vec<i128>,
    hits: Vec<usize>,
    durs: Vec<i128>,
}

spec fn tally_of(t: Tally, events: Seq<TraceEvent>, main_tid: u64) -> bool {
    &&& t.busy == total(events, task_time(main_tid))
    &&& t.times@.len() == TRACKED
    &&& t.hits@.len() == TRACKED
    &&& t.durs@ == long_durs(events, main_tid)
    &&& forall|k: int|
        0 <= k < TRACKED ==> (#[trigger] t.times@[k]) == total(events, name_time(main_tid, k))
    &&& forall|k: int|
        0 <= k < TRACKED ==> (#[trigger] t.hits@[k]) == total(events, name_hit(main_tid, k))
}

fn tally(events: &[TraceEvent], main_tid: u64) -> (t: Tally)
    ensures
        tally_of(t, events@, main_tid),
{
    let n = events.len();
    let mut t = Tally {
        busy: 0,
        times: vec![0i128; TRACKED],
        hits: vec![0usize; TRACKED],
        durs: Vec::new(),
    };
    let mut i: usize = 0;
    assert(events@.take(0) =~= Seq::<TraceEvent>::empty());
    while i < n
        invariant
            n == events@.len(),
            i <= n,
            tally_of(t, events@.take(i as int), main_tid),
        decreases n - i,
    {
        let e = &events[i];
        let ghost seen = events@.take(i as int);
        let ghost more = events@.take(i + 1);
        let ghost before = t;
        proof {
            assert(more.drop_last() =~= seen);
            assert(more.last() == *e);
            assert forall|k: int| 0 <= k < TRACKED implies -TICK_BOUND * i <= (
            #[trigger] t.times@[k]) <= TICK_BOUND * i && t.hits@[k] <= i by {
                lemma_times_valued(main_tid, k);
                lemma_total_bound(seen, name_time(main_tid, k));
                lemma_hits(seen, main_tid, k);
                let h = t.hits@[k];
            }
            lemma_times_valued(main_tid, 0);
            lemma_total_bound(seen, task_time(main_tid));
        }
        if !is_metadata_event(e) && e.tid == main_tid && e.ph == PH_COMPLETE {
            if let Some(d) = e.dur {
                if same(e.name.as_str(), "RunTask") {
                    t.busy = t.busy + d as i128;
                    if d > LONG {
                        t.durs.push(d as i128);
                    }
                }
                if let Some(k) = index_of(e.name.as_str()) {
                    let time: i128 = t.times[k];
                    let hit: usize = t.hits[k];
                    assert(before.times@[k as int] == time);
                    assert(hit <= i);
                    t.times.set(k, time + d as i128);
                    t.hits.set(k, hit + 1);
                }
            }
        }
        proof {
            assert forall|k: int| 0 <= k < TRACKED implies (#[trigger] t.times@[k]) == total(
                more,
                name_time(main_tid, k),
            ) by {
                assert(before.times@[k] == total(seen, name_time(main_tid, k)));
            }
            assert forall|k: int| 0 <= k < TRACKED implies (#[trigger] t.hits@[k]) == total(
                more,
                name_hit(main_tid, k),
            ) by {
                assert(before.hits@[k] == total(seen, name_hit(main_tid, k)));
            }
        }
        i = i + 1;
    }
    assert(events@.take(n as int) =~= events@);
    t
}

/// The duration of a trace.
pub fn duration(events: &[TraceEvent]) -> (r: i128)
    ensures
        r == trace_duration(events@),
{
    let n = events.len();
    let mut first: Option<i64> = None;
    let mut last: i128 = 0;
    let mut i: usize = 0;
    assert(events@.take(0) =~= Seq::<TraceEvent>::empty());
    while i < n
        invariant
            n == events@.len(),
            i <= n,
            last == last_end(events@.take(i as int)),
            0 <= last <= 2 * TICK_BOUND,
            match first {
                Some(t) => first_ts(events@.take(i as int)) == Some(t as int),
                None => first_ts(events@.take(i as int)) is None,
            },
        decreases n - i,
    {
        let e = &events[i];
        assert(events@.take(i + 1).drop_last() =~= events@.take(i as int));
        if !is_metadata_event(e) {
            let end = end_time(e);
            first = match first {
                Some(t) => if e.ts < t {
                    Some(e.ts)
                } else {
                    Some(t)
                },
                None => Some(e.ts),
            };
            if end > last {
                last = end;
            }
        }
        i = i + 1;
    }
    assert(events@.take(n as int) =~= events@);
    match first {
        Some(t) => if last > t as i128 {
            last - t as i128
        } else {
            0
        },
        None => 0,
    }
}

fn build_stats(t: &Tally, events: &[TraceEvent], main_tid: u64, dur: i128) -> (r: Vec<EventTypeStat>)
    requires
        tally_of(*t, events@, main_tid),
        dur == trace_duration(events@),
    ensures
        stats_of(events@, main_tid, r@),
{
    let ghost names = occurring(events@, main_tid, TRACKED as int);
    let ghost time = |k: int| total(events@, name_time(main_tid, k)) as i128;
    let mut idx: Vec<usize> = Vec::new();
    let mut keys: Vec<i128> = Vec::new();
    let mut k: usize = 0;
    while k < TRACKED
        invariant
            k <= TRACKED,
            tally_of(*t, events@, main_tid),
            idx@.map_values(|x: usize| x as int) =~= occurring(events@, main_tid, k as int),
            forall|j: int| 0 <= j < idx@.len() ==> (#[trigger] idx@[j]) < TRACKED,
            keys@.len() == idx@.len(),
            forall|j: int|
                0 <= j < idx@.len() ==> (#[trigger] keys@[j]) == total(
                    events@,
                    name_time(main_tid, idx@[j] as int),
                ),
        decreases TRACKED - k,
    {
        let ghost x = t.times@[k as int];
        let ghost y = t.hits@[k as int];
        if t.hits[k] > 0 {
            let ghost before = idx@;
            idx.push(k);
            keys.push(t.times[k]);
            assert(idx@.map_values(|x: usize| x as int) =~= before.map_values(|x: usize| x as int).push(
                k as int,
            ));
        }
        k = k + 1;
    }
    assert(keys@ =~= names.map_values(time)) by {
        assert forall|j: int| 0 <= j < keys@.len() implies keys@[j] == names.map_values(time)[j] by {
            assert(idx@.map_values(|x: usize| x as int)[j] == names[j]);
            let z = keys@[j];
        }
    }
    let p = order(&keys, true);
    let mut out: Vec<EventTypeStat> = Vec::new();
    let mut i: usize = 0;
    while i < p.len()
        invariant
            i <= p@.len(),
            tally_of(*t, events@, main_tid),
            dur == trace_duration(events@),
            orders(keys@, true, p@),
            keys@.len() == idx@.len(),
            idx@.map_values(|x: usize| x as int) == names,
            forall|j: int| 0 <= j < idx@.len() ==> (#[trigger] idx@[j]) < TRACKED,
            out@.len() == i,
            forall|j: int|
                0 <= j < i ==> stat_of(events@, main_tid, names[p@[j] as int], #[trigger] out@[j]),
        decreases p@.len() - i,
    {
        let slot = p[i];
        let k = idx[slot];
        assert(names[slot as int] == idx@.map_values(|x: usize| x as int)[slot as int]);
        let time: i128 = t.times[k];
        let count: usize = t.hits[k];
        out.push(
            EventTypeStat {
                name: target(k),
                total_time: time,
                count,
                avg_time: Ratio { num: time, den: count as i128 },
                share_of_trace: Ratio { num: time, den: dur },
            },
        );
        i = i + 1;
    }
    out
}

/// Summarize a trace: duration, long tasks, busy time, tracked names.
pub fn analyze_summary(events: &[TraceEvent], main_tid: u64) -> (r: SummaryResult)
    ensures
        summary_of(events@, main_tid, r),
{
    let t = tally(events, main_tid);
    let dur = duration(events);
    let stats = build_stats(&t, events, main_tid, dur);
    let p = order(&t.durs, true);
    let mut top: Vec<i64> = Vec::new();
    let ghost durs = long_durs(events@, main_tid);
    proof {
        lemma_durs_len(events@, main_tid);
    }
    let mut i: usize = 0;
    while i < p.len() && i < 10
        invariant
            i <= p@.len(),
            i <= 10,
            t.durs@ == durs,
            forall|j: int| 0 <= j < durs.len() ==> 0 < #[trigger] durs[j] <= i64::MAX,
            orders(durs, true, p@),
            top@.len() == i,
            forall|j: int| 0 <= j < i ==> #[trigger] top@[j] == durs[p@[j] as int],
        decreases p@.len() - i,
    {
        let slot = p[i];
        top.push(t.durs[slot] as i64);
        i = i + 1;
    }
    SummaryResult {
        long_task_count: t.durs.len(),
        long_tasks_top: top,
        total_trace_duration: dur,
        main_thread_busy: t.busy,
        event_stats: stats,
    }
}

/// Metadata events do not move the time base: a trace has the duration that
/// it has without them.
pub proof fn lemma_metadata_keeps_duration(events: Seq<TraceEvent>, e: TraceEvent)
    requires
        is_metadata(e),
    ensures
        trace_duration(events.push(e)) == trace_duration(events),
{
    assert(events.push(e).drop_last() =~= events);
}

} // verus!
