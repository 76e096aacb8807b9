//! What has to be found as jank, said of the events and of the clusters that
//! come out.

use vstd::prelude::*;
use crate::analysis::common::total;
use crate::analysis::jank::{
    acc_of,
    bucket_in_window,
    bucket_of,
    cluster_of,
    clustered,
    clusters_of,
    falls,
    grid_of,
    is_hot,
    jank_of,
    largest,
    latest_end,
    measure,
    ranks_before,
    ranks_first,
    runs_of,
    Acc,
    Grid,
    JankCluster,
    JankResult,
    DROP,
    FAF,
    GPU,
    RUN,
};
use crate::analysis::summary::first_ts;
use crate::laws::sums::{lemma_largest, lemma_total_least, lemma_total_same};
use crate::trace::event::TraceEvent;
use crate::trace::meta::is_metadata;

verus! {

/// All events lie within some thirty years of the time's zero, and none lasts
/// less than nothing.
pub open spec fn times_sane(events: Seq<TraceEvent>) -> bool {
    forall|i: int|
        0 <= i < events.len() ==> {
            &&& -0x0800_0000_0000_0000 <= (#[trigger] events[i]).ts <= 0x0800_0000_0000_0000
            &&& events[i].dur matches Some(d) ==> 0 <= d <= 0x0800_0000_0000_0000
        }
}

/// The time lies between the ends of the cluster.
pub open spec fn covers(c: JankCluster, ts: int) -> bool {
    c.start.num <= ts * c.start.den && ts * c.end.den <= c.end.num
}

/// The time lies inside the window, if there is one.
pub open spec fn inside(window: Option<(i64, i64)>, ts: int) -> bool {
    window matches Some((lo, hi)) ==> lo < ts < hi
}

/// The cluster has dropped frames, or a task, animation frame or GPU task that
/// takes at least `d`.
pub open spec fn as_bad(c: JankCluster, d: int) -> bool {
    c.dropped_frames > 0 || c.max_run >= d || c.max_faf >= d || c.max_gpu >= d
}

/// A spike: a complete GPU task on any thread, or a complete task or animation
/// frame of the main thread, that takes `d`.
pub open spec fn spike(e: TraceEvent, tid: u64, d: i64) -> bool {
    &&& e.dur == Some(d)
    &&& e.ph == 88
    &&& e.name@ == "GPUTask"@ || e.tid == tid && (e.name@ == "RunTask"@ || e.name@
        == "FireAnimationFrame"@)
}

proof fn lemma_first(events: Seq<TraceEvent>, x: int)
    requires
        0 <= x < events.len(),
        !is_metadata(events[x]),
    ensures
        first_ts(events) matches Some(t) && t <= events[x].ts,
    decreases events.len(),
{
    if x < events.len() - 1 {
        lemma_first(events.drop_last(), x);
        assert(events.drop_last()[x] == events[x]);
    }
}

proof fn lemma_first_bound(events: Seq<TraceEvent>)
    requires
        times_sane(events),
    ensures
        first_ts(events) matches Some(t) ==> -0x0800_0000_0000_0000 <= t <= 0x0800_0000_0000_0000,
    decreases events.len(),
{
    if events.len() > 0 {
        let rest = events.drop_last();
        assert(times_sane(rest)) by {
            assert forall|i: int| 0 <= i < rest.len() implies {
                &&& -0x0800_0000_0000_0000 <= (#[trigger] rest[i]).ts <= 0x0800_0000_0000_0000
                &&& rest[i].dur matches Some(d) ==> 0 <= d <= 0x0800_0000_0000_0000
            } by {
                assert(rest[i] == events[i]);
            }
        }
        lemma_first_bound(rest);
        let e = events[events.len() - 1];
    }
}

proof fn lemma_last(events: Seq<TraceEvent>, x: int)
    requires
        0 <= x < events.len(),
        times_sane(events),
    ensures
        events[x].ts <= latest_end(events),
        latest_end(events) <= 0x1000_0000_0000_0000,
    decreases events.len(),
{
    let rest = events.drop_last();
    let e = events[events.len() - 1];
    assert(times_sane(rest)) by {
        assert forall|i: int| 0 <= i < rest.len() implies {
            &&& -0x0800_0000_0000_0000 <= (#[trigger] rest[i]).ts <= 0x0800_0000_0000_0000
            &&& rest[i].dur matches Some(d) ==> 0 <= d <= 0x0800_0000_0000_0000
        } by {
            assert(rest[i] == events[i]);
        }
    }
    if rest.len() > 0 {
        if x < rest.len() {
            lemma_last(rest, x);
            assert(rest[x] == events[x]);
        } else {
            lemma_last(rest, 0);
        }
    }
}

/// The bucket of a time lies around it.
pub proof fn lemma_bucket(events: Seq<TraceEvent>, g: Grid, x: int)
    requires
        grid_of(events, g),
        times_sane(events),
        0 <= x < events.len(),
        !is_metadata(events[x]),
    ensures
        g.some,
        g.min <= events[x].ts <= g.max,
        g.num > 0,
        g.den > 0,
        ({
            let b = bucket_of(g, events[x].ts as int);
            &&& 0 <= b < g.n
            &&& g.min * g.den + b * g.num <= events[x].ts * g.den
            &&& events[x].ts * g.den <= g.min * g.den + (b + 1) * g.num
        }),
{
    let ts = events[x].ts as int;
    lemma_first(events, x);
    lemma_first_bound(events);
    lemma_last(events, x);
    let (num, den, min) = (g.num as int, g.den as int, g.min as int);
    let span = crate::analysis::jank::span_of(events);
    assert(1000 <= span <= 0x2000_0000_0000_0000);
    assert(num >= 50_000_000 && 1 <= den <= 2000);
    let whole = (span * den + num - 1) / num;
    assert(span * den <= num * 0xffff_ffff) by {
        if den == 1 {
        } else {
            assert(num == span);
            assert(span * den <= span * 2000) by (nonlinear_arith)
                requires
                    span >= 0,
                    den <= 2000,
            ;
        }
    }
    assert(whole * num >= span * den && (whole - 1) * num < span * den && 1 <= whole <= 0xffff_ffff)
        by (nonlinear_arith)
        requires
            whole == (span * den + num - 1) / num,
            num >= 50_000_000,
            1 <= span * den <= num * 0xffff_ffff,
    ;
    assert(g.n == whole);
    let y = (ts - min) * den;
    let raw = y / num;
    assert(0 <= y <= span * den) by (nonlinear_arith)
        requires
            y == (ts - min) * den,
            0 <= ts - min <= span,
            den >= 1,
    ;
    assert(raw * num <= y < (raw + 1) * num && raw >= 0) by (nonlinear_arith)
        requires
            raw == y / num,
            num > 0,
            y >= 0,
    ;
    assert((ts - min) * den == ts * den - min * den) by (nonlinear_arith);
    if raw >= whole {
        assert(raw * num >= whole * num) by (nonlinear_arith)
            requires
                raw >= whole,
                num > 0,
        ;
        assert((whole - 1) * num <= y);
    }
}

/// The event is not marked as metadata.
pub open spec fn unmarked(e: TraceEvent) -> bool {
    e.cat matches Some(c) ==> c@ != "__metadata"@
}

pub proof fn lemma_unmarked(e: TraceEvent)
    requires
        unmarked(e),
        e.name@ == "DroppedFrame"@ || e.name@ == "GPUTask"@ || e.name@ == "RunTask"@ || e.name@
            == "FireAnimationFrame"@,
    ensures
        !is_metadata(e),
{
    reveal_strlit("DroppedFrame");
    reveal_strlit("GPUTask");
    reveal_strlit("RunTask");
    reveal_strlit("FireAnimationFrame");
    reveal_strlit("thread_name");
    reveal_strlit("process_name");
    reveal_strlit("thread_sort_index");
    reveal_strlit("process_sort_index");
    assert("DroppedFrame"@[0] == 'D' && "GPUTask"@[0] == 'G' && "RunTask"@[0] == 'R'
        && "FireAnimationFrame"@[0] == 'F');
    assert("thread_name"@[0] == 't' && "process_name"@[0] == 'p' && "thread_sort_index"@[0] == 't'
        && "process_sort_index"@[0] == 'p');
}

proof fn lemma_spike_names()
    ensures
        "DroppedFrame"@ != "GPUTask"@,
        "DroppedFrame"@ != "RunTask"@,
        "DroppedFrame"@ != "FireAnimationFrame"@,
        "GPUTask"@ != "RunTask"@,
        "GPUTask"@ != "FireAnimationFrame"@,
        "RunTask"@ != "FireAnimationFrame"@,
{
    reveal_strlit("DroppedFrame");
    reveal_strlit("GPUTask");
    reveal_strlit("RunTask");
    reveal_strlit("FireAnimationFrame");
    assert("DroppedFrame"@[0] == 'D' && "GPUTask"@[0] == 'G' && "RunTask"@[0] == 'R'
        && "FireAnimationFrame"@[0] == 'F');
}

/// What the buckets that hold an event measure of it.
proof fn lemma_measured(
    events: Seq<TraceEvent>,
    g: Grid,
    window: Option<(i64, i64)>,
    tid: u64,
    x: int,
    a: int,
    b: int,
)
    requires
        0 <= x < events.len(),
        falls(g, window, events[x], a, b),
    ensures
        events[x].name@ == "DroppedFrame"@ ==> total(events, measure(g, window, tid, DROP, a, b))
            >= 1,
        forall|d: i64|
            #![trigger spike(events[x], tid, d)]
            spike(events[x], tid, d) ==> largest(events, measure(g, window, tid, RUN, a, b)) >= d
                || largest(events, measure(g, window, tid, FAF, a, b)) >= d || largest(
                events,
                measure(g, window, tid, GPU, a, b),
            ) >= d,
{
    lemma_spike_names();
    let drop = measure(g, window, tid, DROP, a, b);
    if events[x].name@ == "DroppedFrame"@ {
        lemma_total_least(events, drop, x);
        assert(drop(events[x]) == 1);
    }
    lemma_largest(events, measure(g, window, tid, RUN, a, b));
    lemma_largest(events, measure(g, window, tid, FAF, a, b));
    lemma_largest(events, measure(g, window, tid, GPU, a, b));
    let r = measure(g, window, tid, RUN, a, b)(events[x]);
    let f = measure(g, window, tid, FAF, a, b)(events[x]);
    let u = measure(g, window, tid, GPU, a, b)(events[x]);
}

/// The bucket of an event inside the window overlaps the window.
proof fn lemma_overlaps(g: Grid, window: Option<(i64, i64)>, ts: int, b: int)
    requires
        inside(window, ts),
        g.den > 0,
        g.min * g.den + b * g.num <= ts * g.den,
        ts * g.den <= g.min * g.den + (b + 1) * g.num,
    ensures
        bucket_in_window(g, window, b),
{
    if let Some((lo, hi)) = window {
        let (l, h, min, den) = (lo as int, hi as int, g.min as int, g.den as int);
        assert((min - l) * den == min * den - l * den) by (nonlinear_arith);
        assert((min - h) * den == min * den - h * den) by (nonlinear_arith);
        assert(l * den < ts * den && ts * den < h * den) by (nonlinear_arith)
            requires
                l < ts < h,
                den > 0,
        ;
    }
}

/// A dropped frame or a spike over the frame budget is covered by a cluster,
/// unless eight clusters are at least as bad.
proof fn lemma_found(
    events: Seq<TraceEvent>,
    tid: u64,
    window: Option<(i64, i64)>,
    r: JankResult,
    x: int,
    d: i64,
)
    requires
        jank_of(events, tid, window, r),
        times_sane(events),
        0 <= x < events.len(),
        unmarked(events[x]),
        inside(window, events[x].ts as int),
        events[x].name@ == "DroppedFrame"@ || spike(events[x], tid, d) && d >= 16_667_000,
    ensures
        ({
            ||| exists|k: int|
                0 <= k < r.clusters@.len() && covers(
                    #[trigger] r.clusters@[k],
                    events[x].ts as int,
                )
            ||| r.clusters@.len() == 8 && forall|k: int|
                0 <= k < 8 ==> if events[x].name@ == "DroppedFrame"@ {
                    (#[trigger] r.clusters@[k]).dropped_frames > 0
                } else {
                    as_bad(r.clusters@[k], d as int)
                }
        }),
{
    let e = events[x];
    let ts = e.ts as int;
    lemma_spike_names();
    lemma_unmarked(e);
    let g = choose|g: Grid|
        {
            &&& #[trigger] grid_of(events, g)
            &&& r.bucket.num == g.num
            &&& r.bucket.den == g.den
            &&& r.total_dropped == total(events, measure(g, window, tid, DROP, 0, g.n - 1))
            &&& clusters_of(events, g, window, tid, r.clusters@)
        };
    let (accs, top) = choose|accs: Seq<Acc>, top: Seq<usize>|
        {
            &&& #[trigger] runs_of(events, g, window, tid, g.n as int, accs)
            &&& #[trigger] ranks_first(accs, top)
            &&& r.clusters@.len() == top.len()
            &&& forall|k: int|
                0 <= k < top.len() ==> cluster_of(
                    events,
                    g,
                    window,
                    accs[top[k] as int],
                    #[trigger] r.clusters@[k],
                )
        };
    lemma_bucket(events, g, x);
    let b = bucket_of(g, ts);
    assert(falls(g, window, e, b, b));
    lemma_measured(events, g, window, tid, x, b, b);
    lemma_overlaps(g, window, ts, b);
    assert(spike(e, tid, d) ==> spike(events[x], tid, d));
    assert(is_hot(events, g, window, tid, b));
    assert(clustered(events, g, window, tid, b));
    let i = choose|i: int| 0 <= i < accs.len() && (#[trigger] accs[i]).start <= b <= accs[i].end;
    let a = accs[i];
    assert(acc_of(events, g, window, tid, a));
    assert(falls(g, window, e, a.start as int, a.end as int));
    lemma_measured(events, g, window, tid, x, a.start as int, a.end as int);
    if crate::sort::holds(top, i) {
        let k = choose|k: int| 0 <= k < top.len() && #[trigger] top[k] == i;
        let c = r.clusters@[k];
        assert(cluster_of(events, g, window, accs[top[k] as int], c));
        let (s, f, num) = (a.start as int, a.end as int, g.num as int);
        assert(s * num <= b * num && (b + 1) * num <= (f + 1) * num) by (nonlinear_arith)
            requires
                s <= b <= f,
                num > 0,
        ;
        assert(covers(c, ts));
    } else {
        assert(top.len() == 8) by {
            if accs.len() < 8 {
                lemma_all_held(accs, top, i);
            }
        }
        assert forall|k: int| 0 <= k < 8 implies if e.name@ == "DroppedFrame"@ {
            (#[trigger] r.clusters@[k]).dropped_frames > 0
        } else {
            as_bad(r.clusters@[k], d as int)
        } by {
            assert(cluster_of(events, g, window, accs[top[k] as int], r.clusters@[k]));
            assert(ranks_before(accs, top[k] as int, i));
        }
    }
}

/// Where fewer runs there are than clusters are kept, all are kept.
proof fn lemma_all_held(accs: Seq<Acc>, top: Seq<usize>, i: int)
    requires
        ranks_first(accs, top),
        accs.len() < 8,
        0 <= i < accs.len(),
    ensures
        crate::sort::holds(top, i),
{
    assert(top.len() == accs.len());
    assert(top.no_duplicates()) by {
        assert forall|j: int, k: int| 0 <= j < k < top.len() implies top[j] != top[k] by {
            assert(ranks_before(accs, top[j] as int, top[k] as int));
        }
    }
    let places = top.map_values(|x: usize| x as int);
    assert(places.no_duplicates());
    let range = vstd::set_lib::set_int_range(0, accs.len() as int);
    vstd::set_lib::lemma_int_range(0, accs.len() as int);
    places.unique_seq_to_set();
    assert forall|x: int| #[trigger] places.to_set().contains(x) implies range.contains(x) by {
        let j = choose|j: int| 0 <= j < places.len() && places[j] == x;
        assert(top[j] < accs.len());
    }
    vstd::set_lib::lemma_subset_equality(places.to_set(), range);
    assert(places.to_set().contains(i));
    let j = choose|j: int| 0 <= j < places.len() && places[j] == i;
    assert(top[j] == i);
}

/// The grid of the result, the runs of its clusters, and which of them are kept.
pub proof fn lemma_open(events: Seq<TraceEvent>, tid: u64, window: Option<(i64, i64)>, r: JankResult) -> (x: (
    Grid,
    Seq<Acc>,
    Seq<usize>,
))
    requires
        jank_of(events, tid, window, r),
    ensures
        grid_of(events, x.0),
        r.total_dropped == total(events, measure(x.0, window, tid, DROP, 0, x.0.n - 1)),
        runs_of(events, x.0, window, tid, x.0.n as int, x.1),
        ranks_first(x.1, x.2),
        r.clusters@.len() == x.2.len(),
        forall|k: int|
            0 <= k < x.2.len() ==> cluster_of(
                events,
                x.0,
                window,
                x.1[x.2[k] as int],
                #[trigger] r.clusters@[k],
            ),
{
    let g = choose|g: Grid|
        {
            &&& #[trigger] grid_of(events, g)
            &&& r.bucket.num == g.num
            &&& r.bucket.den == g.den
            &&& r.total_dropped == total(events, measure(g, window, tid, DROP, 0, g.n - 1))
            &&& clusters_of(events, g, window, tid, r.clusters@)
        };
    let (accs, top) = choose|accs: Seq<Acc>, top: Seq<usize>|
        {
            &&& #[trigger] runs_of(events, g, window, tid, g.n as int, accs)
            &&& #[trigger] ranks_first(accs, top)
            &&& r.clusters@.len() == top.len()
            &&& forall|k: int|
                0 <= k < top.len() ==> cluster_of(
                    events,
                    g,
                    window,
                    accs[top[k] as int],
                    #[trigger] r.clusters@[k],
                )
        };
    (g, accs, top)
}

/// A complete event of the given name that takes `d`, starts between the ends of
/// the cluster and in the window, and is on the thread, where one is given.
pub open spec fn spike_in(
    c: JankCluster,
    e: TraceEvent,
    window: Option<(i64, i64)>,
    tid: Option<u64>,
    name: Seq<char>,
    d: int,
) -> bool {
    &&& e.name@ == name
    &&& e.ph == 88
    &&& tid matches Some(t) ==> e.tid == t
    &&& e.dur matches Some(x) && x == d
    &&& covers(c, e.ts as int)
    &&& window matches Some((lo, hi)) ==> lo <= e.ts <= hi
}

/// What falls into the run of a cluster starts between its ends.
pub proof fn lemma_falls_covers(
    events: Seq<TraceEvent>,
    g: Grid,
    window: Option<(i64, i64)>,
    a: Acc,
    c: JankCluster,
    x: int,
)
    requires
        grid_of(events, g),
        times_sane(events),
        cluster_of(events, g, window, a, c),
        0 <= x < events.len(),
        !is_metadata(events[x]),
        falls(g, window, events[x], a.start as int, a.end as int),
    ensures
        covers(c, events[x].ts as int),
{
    lemma_bucket(events, g, x);
    let b = bucket_of(g, events[x].ts as int);
    let (s, f, num) = (a.start as int, a.end as int, g.num as int);
    assert(s * num <= b * num && (b + 1) * num <= (f + 1) * num) by (nonlinear_arith)
        requires
            s <= b <= f,
            num > 0,
    ;
}

/// No event of a trace is marked as metadata unless by its name.
pub open spec fn all_unmarked(events: Seq<TraceEvent>) -> bool {
    forall|i: int| 0 <= i < events.len() ==> unmarked(#[trigger] events[i])
}

proof fn lemma_largest_in(
    events: Seq<TraceEvent>,
    g: Grid,
    window: Option<(i64, i64)>,
    tid: u64,
    a: Acc,
    c: JankCluster,
    what: u8,
)
    requires
        grid_of(events, g),
        times_sane(events),
        all_unmarked(events),
        cluster_of(events, g, window, a, c),
        what == RUN || what == FAF || what == GPU,
        largest(events, measure(g, window, tid, what, a.start as int, a.end as int)) > 0,
    ensures
        exists|x: int|
            0 <= x < events.len() && spike_in(
                c,
                #[trigger] events[x],
                window,
                if what == GPU {
                    None
                } else {
                    Some(tid)
                },
                if what == RUN {
                    "RunTask"@
                } else if what == FAF {
                    "FireAnimationFrame"@
                } else {
                    "GPUTask"@
                },
                largest(events, measure(g, window, tid, what, a.start as int, a.end as int)),
            ),
{
    let f = measure(g, window, tid, what, a.start as int, a.end as int);
    lemma_largest(events, f);
    let x = choose|x: int| 0 <= x < events.len() && f(#[trigger] events[x]) == largest(events, f);
    assert(unmarked(events[x]));
    lemma_unmarked(events[x]);
    lemma_falls_covers(events, g, window, a, c, x);
    assert(spike_in(
        c,
        events[x],
        window,
        if what == GPU {
            None
        } else {
            Some(tid)
        },
        if what == RUN {
            "RunTask"@
        } else if what == FAF {
            "FireAnimationFrame"@
        } else {
            "GPUTask"@
        },
        largest(events, f),
    ));
}

/// The longest task, animation frame and GPU task of a cluster are those of
/// events that start in it and in the window, tasks and animation frames those
/// of the main thread.
pub proof fn lemma_spikes_real(
    events: Seq<TraceEvent>,
    tid: u64,
    window: Option<(i64, i64)>,
    r: JankResult,
    k: int,
)
    requires
        jank_of(events, tid, window, r),
        times_sane(events),
        all_unmarked(events),
        0 <= k < r.clusters@.len(),
    ensures
        ({
            let c = r.clusters@[k];
            &&& c.max_run > 0 ==> exists|x: int|
                0 <= x < events.len() && spike_in(
                    c,
                    #[trigger] events[x],
                    window,
                    Some(tid),
                    "RunTask"@,
                    c.max_run as int,
                )
            &&& c.max_faf > 0 ==> exists|x: int|
                0 <= x < events.len() && spike_in(
                    c,
                    #[trigger] events[x],
                    window,
                    Some(tid),
                    "FireAnimationFrame"@,
                    c.max_faf as int,
                )
            &&& c.max_gpu > 0 ==> exists|x: int|
                0 <= x < events.len() && spike_in(
                    c,
                    #[trigger] events[x],
                    window,
                    None,
                    "GPUTask"@,
                    c.max_gpu as int,
                )
        }),
{
    let (g, accs, top) = lemma_open(events, tid, window, r);
    let a = accs[top[k] as int];
    let c = r.clusters@[k];
    assert(cluster_of(events, g, window, a, c));
    assert(acc_of(events, g, window, tid, a));
    if c.max_run > 0 {
        lemma_largest_in(events, g, window, tid, a, c, RUN);
    }
    if c.max_faf > 0 {
        lemma_largest_in(events, g, window, tid, a, c, FAF);
    }
    if c.max_gpu > 0 {
        lemma_largest_in(events, g, window, tid, a, c, GPU);
    }
}

/// A cluster has a reason: dropped frames, a spike over the frame budget, or
/// fifty milliseconds of main-thread work.
pub proof fn lemma_cluster_reason(
    events: Seq<TraceEvent>,
    tid: u64,
    window: Option<(i64, i64)>,
    r: JankResult,
    k: int,
)
    requires
        jank_of(events, tid, window, r),
        times_sane(events),
        0 <= k < r.clusters@.len(),
    ensures
        r.clusters@[k].dropped_frames > 0 || r.clusters@[k].max_run >= 16_667_000
            || r.clusters@[k].max_faf >= 16_667_000 || r.clusters@[k].max_gpu >= 16_667_000
            || r.clusters@[k].busy >= 50_000_000,
{
    let (g, accs, top) = lemma_open(events, tid, window, r);
    let a = accs[top[k] as int];
    assert(cluster_of(events, g, window, a, r.clusters@[k]));
    assert(acc_of(events, g, window, tid, a));
    let s = a.start as int;
    let e = a.end as int;
    assert(clustered(events, g, window, tid, s));
    lemma_wider_total(events, g, window, tid, DROP, s, e);
    lemma_wider_total(events, g, window, tid, RUN, s, e);
    lemma_wider_largest(events, g, window, tid, RUN, s, e);
    lemma_wider_largest(events, g, window, tid, FAF, s, e);
    lemma_wider_largest(events, g, window, tid, GPU, s, e);
}

proof fn lemma_wider_total(
    events: Seq<TraceEvent>,
    g: Grid,
    window: Option<(i64, i64)>,
    tid: u64,
    what: u8,
    s: int,
    e: int,
)
    requires
        times_sane(events),
        s <= e,
        what == RUN || what == DROP,
    ensures
        total(events, measure(g, window, tid, what, s, s)) <= total(
            events,
            measure(g, window, tid, what, s, e),
        ),
    decreases events.len(),
{
    if events.len() > 0 {
        let rest = events.drop_last();
        lemma_rest_sane(events);
        lemma_wider_total(rest, g, window, tid, what, s, e);
        let last = events[events.len() - 1];
    }
}

proof fn lemma_wider_largest(
    events: Seq<TraceEvent>,
    g: Grid,
    window: Option<(i64, i64)>,
    tid: u64,
    what: u8,
    s: int,
    e: int,
)
    requires
        times_sane(events),
        s <= e,
    ensures
        largest(events, measure(g, window, tid, what, s, s)) <= largest(
            events,
            measure(g, window, tid, what, s, e),
        ),
    decreases events.len(),
{
    if events.len() > 0 {
        lemma_rest_sane(events);
        lemma_wider_largest(events.drop_last(), g, window, tid, what, s, e);
        let last = events[events.len() - 1];
    }
}

proof fn lemma_rest_sane(events: Seq<TraceEvent>)
    requires
        times_sane(events),
        events.len() > 0,
    ensures
        times_sane(events.drop_last()),
{
    let rest = events.drop_last();
    assert forall|i: int| 0 <= i < rest.len() implies {
        &&& -0x0800_0000_0000_0000 <= (#[trigger] rest[i]).ts <= 0x0800_0000_0000_0000
        &&& rest[i].dur matches Some(d) ==> 0 <= d <= 0x0800_0000_0000_0000
    } by {
        assert(rest[i] == events[i]);
    }
}

/// One for a dropped frame in the window.
pub open spec fn drop_in(window: Option<(i64, i64)>) -> spec_fn(TraceEvent) -> int {
    |e: TraceEvent|
        if e.name@ == "DroppedFrame"@ && (window matches Some((lo, hi)) ==> lo <= e.ts <= hi) {
            1
        } else {
            0
        }
}

/// The number of dropped frames is that of the events in the window.
pub proof fn lemma_drops_counted(
    events: Seq<TraceEvent>,
    tid: u64,
    window: Option<(i64, i64)>,
    r: JankResult,
)
    requires
        jank_of(events, tid, window, r),
        times_sane(events),
        all_unmarked(events),
    ensures
        r.total_dropped == total(events, drop_in(window)),
{
    let (g, accs, top) = lemma_open(events, tid, window, r);
    let f = measure(g, window, tid, DROP, 0, g.n - 1);
    assert forall|i: int| 0 <= i < events.len() implies f(#[trigger] events[i]) == drop_in(window)(
        events[i],
    ) by {
        if events[i].name@ == "DroppedFrame"@ {
            assert(unmarked(events[i]));
            lemma_unmarked(events[i]);
            lemma_bucket(events, g, i);
        }
    }
    lemma_total_same(events, f, drop_in(window));
}

/// A dropped frame inside the window lies in a cluster, unless there are eight
/// others with dropped frames.
pub proof fn lemma_drops_found(
    events: Seq<TraceEvent>,
    tid: u64,
    window: Option<(i64, i64)>,
    r: JankResult,
    x: int,
)
    requires
        jank_of(events, tid, window, r),
        times_sane(events),
        0 <= x < events.len(),
        unmarked(events[x]),
        inside(window, events[x].ts as int),
        events[x].name@ == "DroppedFrame"@,
    ensures
        ({
            ||| exists|k: int|
                0 <= k < r.clusters@.len() && covers(
                    #[trigger] r.clusters@[k],
                    events[x].ts as int,
                )
            ||| r.clusters@.len() == 8 && forall|k: int|
                0 <= k < 8 ==> (#[trigger] r.clusters@[k]).dropped_frames > 0
        }),
{
    lemma_found(events, tid, window, r, x, 0);
}

/// A GPU task of any thread, or a task or animation frame of the main thread,
/// that takes sixteen and two thirds milliseconds or more inside the window
/// lies in a cluster, unless there are eight others with dropped frames or a
/// spike as long.
pub proof fn lemma_spikes_found(
    events: Seq<TraceEvent>,
    tid: u64,
    window: Option<(i64, i64)>,
    r: JankResult,
    x: int,
    d: i64,
)
    requires
        jank_of(events, tid, window, r),
        times_sane(events),
        0 <= x < events.len(),
        unmarked(events[x]),
        inside(window, events[x].ts as int),
        spike(events[x], tid, d),
        d >= 16_667_000,
    ensures
        ({
            ||| exists|k: int|
                0 <= k < r.clusters@.len() && covers(
                    #[trigger] r.clusters@[k],
                    events[x].ts as int,
                )
            ||| r.clusters@.len() == 8 && forall|k: int|
                0 <= k < 8 ==> as_bad(#[trigger] r.clusters@[k], d as int)
        }),
{
    lemma_spike_names();
    lemma_found(events, tid, window, r, x, d);
}

} // verus!
