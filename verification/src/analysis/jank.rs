//! Jank clusters: spikes below the long-task threshold.

use vstd::prelude::*;
use crate::analysis::common::{
    dur_of,
    end_of,
    end_time,
    lemma_total_bound,
    lemma_total_step,
    on_thread,
    ticks_valued,
    total,
    Ratio,
    TICK_BOUND,
};
use crate::analysis::summary::{first_ts, LONG};
use crate::json::{get_opt, member_opt, str_opt};
use crate::scope::time_in;
use crate::sort::{holds, lemma_held_push, lemma_removed, order, orders};
use crate::text::same;
use crate::trace::event::TraceEvent;
use crate::trace::meta::{is_metadata_event, PH_COMPLETE};

verus! {

/// A run of hot buckets. Start and end are times in nanoseconds.
pub struct JankCluster {
    pub start: Ratio,
    pub end: Ratio,
    pub busy: i128,
    pub max_run: i128,
    pub max_faf: i128,
    pub max_gpu: i128,
    pub dropped_frames: usize,
    /// Called functions with the most time in the window.
    pub top_calls: Vec<(String, i128)>,
}

/// The worst clusters of a trace.
pub struct JankResult {
    pub clusters: Vec<JankCluster>,
    pub total_dropped: usize,
    /// Width of a bucket.
    pub bucket: Ratio,
}

/// Frame budget at sixty frames a second, in nanoseconds.
pub const FRAME_BUDGET: i128 = 16_667_000;

/// Shortest and longest bucket, in nanoseconds, and how many buckets a trace is
/// cut into between the two.
pub const BUCKET_MIN: i128 = 50_000_000;

pub const BUCKET_MAX: i128 = 1_000_000_000;

pub const BUCKETS: i128 = 2000;

/// The buckets of a trace: the first time, the last one, the width of a bucket
/// as a quotient, and their number.
#[derive(Clone, Copy)]
pub struct Grid {
    pub some: bool,
    pub min: i64,
    pub max: i128,
    pub num: i128,
    pub den: i128,
    pub n: usize,
}

/// The latest end among all events, at least zero.
pub open spec fn latest_end(events: Seq<TraceEvent>) -> int
    decreases events.len(),
{
    if events.len() == 0 {
        0
    } else {
        let before = latest_end(events.drop_last());
        let end = end_of(events.last());
        if end > before {
            end
        } else {
            before
        }
    }
}

/// The time that the buckets cover, at least a microsecond.
pub open spec fn span_of(events: Seq<TraceEvent>) -> int {
    match first_ts(events) {
        Some(t) => if latest_end(events) - t > 1000 {
            latest_end(events) - t
        } else {
            1000
        },
        None => 1000,
    }
}

/// The grid of a trace: its span cut into two thousand buckets, each no shorter
/// than fifty milliseconds and no longer than a second.
pub open spec fn grid_of(events: Seq<TraceEvent>, g: Grid) -> bool {
    let span = span_of(events);
    &&& g.some == first_ts(events) is Some
    &&& g.min == match first_ts(events) {
        Some(t) => t,
        None => 0,
    }
    &&& g.max == latest_end(events)
    &&& g.num == if span < BUCKETS * BUCKET_MIN {
        BUCKET_MIN as int
    } else if span > BUCKETS * BUCKET_MAX {
        BUCKET_MAX as int
    } else {
        span
    }
    &&& g.den == if BUCKETS * BUCKET_MIN <= span <= BUCKETS * BUCKET_MAX {
        BUCKETS as int
    } else {
        1
    }
    &&& g.n == {
        let n = (span * g.den + g.num - 1) / g.num as int;
        if n <= usize::MAX {
            n
        } else {
            usize::MAX as int
        }
    }
}

/// The bucket of a time.
pub open spec fn bucket_of(g: Grid, ts: int) -> int {
    let raw = (ts - g.min) * g.den / g.num as int;
    if ts < g.min {
        0
    } else if raw < g.n {
        raw
    } else {
        g.n - 1
    }
}

/// The event falls into one of the buckets from `a` to `b`.
pub open spec fn falls(g: Grid, window: Option<(i64, i64)>, e: TraceEvent, a: int, b: int) -> bool {
    &&& g.some
    &&& g.min <= e.ts <= g.max
    &&& time_in(window, e.ts as int)
    &&& a <= bucket_of(g, e.ts as int) <= b
}

/// What is measured in a bucket.
pub const RUN: u8 = 0;

pub const FAF: u8 = 1;

pub const GPU: u8 = 2;

pub const DROP: u8 = 3;

/// What an event measures: its duration where it is a task or animation frame
/// of the main thread or a GPU task, one where it is a dropped frame.
pub open spec fn measured(e: TraceEvent, main_tid: u64, what: u8) -> int {
    if what == RUN {
        if e.name@ == "RunTask"@ && on_thread(e, main_tid) {
            dur_of(e)
        } else {
            0
        }
    } else if what == FAF {
        if e.name@ == "FireAnimationFrame"@ && on_thread(e, main_tid) {
            dur_of(e)
        } else {
            0
        }
    } else if what == GPU {
        if e.name@ == "GPUTask"@ && e.ph == PH_COMPLETE {
            dur_of(e)
        } else {
            0
        }
    } else if e.name@ == "DroppedFrame"@ {
        1
    } else {
        0
    }
}

/// What is measured in the buckets from `a` to `b`.
pub open spec fn measure(
    g: Grid,
    window: Option<(i64, i64)>,
    main_tid: u64,
    what: u8,
    a: int,
    b: int,
) -> spec_fn(TraceEvent) -> int {
    |e: TraceEvent|
        if falls(g, window, e, a, b) {
            measured(e, main_tid, what)
        } else {
            0
        }
}

/// The largest value of `f` over a list, at least zero.
pub open spec fn largest(events: Seq<TraceEvent>, f: spec_fn(TraceEvent) -> int) -> int
    decreases events.len(),
{
    if events.len() == 0 {
        0
    } else {
        let before = largest(events.drop_last(), f);
        let v = f(events.last());
        if v > before {
            v
        } else {
            before
        }
    }
}

/// Figures of a run of buckets.
#[derive(Clone, Copy)]
pub struct Acc {
    pub start: usize,
    pub end: usize,
    pub busy: i128,
    pub max_run: i128,
    pub max_faf: i128,
    pub max_gpu: i128,
    pub dropped: usize,
}

/// What the figures of a run of buckets say.
pub open spec fn acc_of(
    events: Seq<TraceEvent>,
    g: Grid,
    window: Option<(i64, i64)>,
    main_tid: u64,
    a: Acc,
) -> bool {
    let s = a.start as int;
    let e = a.end as int;
    &&& a.busy == total(events, measure(g, window, main_tid, RUN, s, e))
    &&& a.max_run == largest(events, measure(g, window, main_tid, RUN, s, e))
    &&& a.max_faf == largest(events, measure(g, window, main_tid, FAF, s, e))
    &&& a.max_gpu == largest(events, measure(g, window, main_tid, GPU, s, e))
    &&& a.dropped == total(events, measure(g, window, main_tid, DROP, s, e))
}

/// A bucket with these figures is hot.
pub open spec fn hot_acc(a: Acc) -> bool {
    a.dropped > 0 || a.max_run >= FRAME_BUDGET || a.max_faf >= FRAME_BUDGET || a.max_gpu
        >= FRAME_BUDGET || a.busy >= LONG
}

/// Whether a bucket with these figures is hot: it has dropped frames, a spike
/// over the frame budget, or much main-thread work.
pub fn bucket_hot(busy: i128, max_run: i128, max_faf: i128, max_gpu: i128, dropped: usize) -> (r: bool)
    ensures
        r == hot_acc(Acc { start: 0, end: 0, busy, max_run, max_faf, max_gpu, dropped }),
{
    dropped > 0 || max_run >= FRAME_BUDGET || max_faf >= FRAME_BUDGET || max_gpu >= FRAME_BUDGET
        || busy >= LONG as i128
}

/// The bucket is hot.
pub open spec fn is_hot(
    events: Seq<TraceEvent>,
    g: Grid,
    window: Option<(i64, i64)>,
    main_tid: u64,
    b: int,
) -> bool {
    ||| total(events, measure(g, window, main_tid, DROP, b, b)) > 0
    ||| largest(events, measure(g, window, main_tid, RUN, b, b)) >= FRAME_BUDGET
    ||| largest(events, measure(g, window, main_tid, FAF, b, b)) >= FRAME_BUDGET
    ||| largest(events, measure(g, window, main_tid, GPU, b, b)) >= FRAME_BUDGET
    ||| total(events, measure(g, window, main_tid, RUN, b, b)) >= LONG
}

/// The bucket overlaps the window, if there is one.
pub open spec fn bucket_in_window(g: Grid, window: Option<(i64, i64)>, b: int) -> bool {
    match window {
        Some((lo, hi)) => (g.min - lo) * g.den + (b + 1) * g.num > 0 && (g.min - hi) * g.den + b
            * g.num < 0,
        None => true,
    }
}

/// The bucket belongs to a cluster.
pub open spec fn clustered(
    events: Seq<TraceEvent>,
    g: Grid,
    window: Option<(i64, i64)>,
    main_tid: u64,
    b: int,
) -> bool {
    is_hot(events, g, window, main_tid, b) && bucket_in_window(g, window, b)
}

/// `accs` are the maximal runs of clustered buckets among the first `n`, in
/// order, with their figures.
pub open spec fn runs_of(
    events: Seq<TraceEvent>,
    g: Grid,
    window: Option<(i64, i64)>,
    main_tid: u64,
    n: int,
    accs: Seq<Acc>,
) -> bool {
    &&& forall|i: int|
        0 <= i < accs.len() ==> {
            &&& (#[trigger] accs[i]).start <= accs[i].end < n
            &&& acc_of(events, g, window, main_tid, accs[i])
            &&& forall|b: int|
                accs[i].start <= b <= accs[i].end ==> clustered(events, g, window, main_tid, b)
        }
    &&& forall|i: int, j: int|
        0 <= i < j < accs.len() ==> (#[trigger] accs[i]).end + 1 < (#[trigger] accs[j]).start
    &&& forall|b: int|
        0 <= b < n && #[trigger] clustered(events, g, window, main_tid, b) ==> exists|i: int|
            0 <= i < accs.len() && (#[trigger] accs[i]).start <= b <= accs[i].end
}

/// The worst spike of a run: the longest task, animation frame or GPU task.
pub open spec fn worst_spike(a: Acc) -> i128 {
    if a.max_run >= a.max_faf && a.max_run >= a.max_gpu {
        a.max_run
    } else if a.max_faf >= a.max_gpu {
        a.max_faf
    } else {
        a.max_gpu
    }
}

/// Run `i` ranks before run `j`: by dropped frames, then by the worst spike,
/// then by busy time, then by place.
pub open spec fn ranks_before(accs: Seq<Acc>, i: int, j: int) -> bool {
    let a = accs[i];
    let b = accs[j];
    if a.dropped != b.dropped {
        a.dropped > b.dropped
    } else if worst_spike(a) != worst_spike(b) {
        worst_spike(a) > worst_spike(b)
    } else if a.busy != b.busy {
        a.busy > b.busy
    } else {
        i < j
    }
}

/// How many clusters are kept.
pub const TOP_CLUSTERS: usize = 8;

/// `top` holds the positions of the runs that rank first, in rank order.
pub open spec fn ranks_first(accs: Seq<Acc>, top: Seq<usize>) -> bool {
    &&& top.len() == if accs.len() < TOP_CLUSTERS {
        accs.len()
    } else {
        TOP_CLUSTERS as nat
    }
    &&& forall|i: int| 0 <= i < top.len() ==> (#[trigger] top[i]) < accs.len()
    &&& forall|i: int, j: int|
        0 <= i < j < top.len() ==> ranks_before(accs, #[trigger] top[i] as int, #[trigger] top[j] as int)
    &&& forall|i: int, x: int|
        0 <= i < top.len() && 0 <= x < accs.len() && !holds(top, x) ==> #[trigger] ranks_before(
            accs,
            top[i] as int,
            x,
        )
}

/// The function that a call event names, when its name is not empty.
pub open spec fn called(e: TraceEvent) -> Option<Seq<char>> {
    match str_opt(member_opt(member_opt(e@.said(), "data"@), "functionName"@)) {
        Some(name) => if name.len() > 0 {
            Some(name)
        } else {
            None
        },
        None => None,
    }
}

/// A function call in the buckets from `a` to `b`.
pub open spec fn call_in(g: Grid, window: Option<(i64, i64)>, e: TraceEvent, a: int, b: int) -> bool {
    &&& e.name@ == "FunctionCall"@
    &&& e.ph == PH_COMPLETE
    &&& e.dur is Some
    &&& time_in(window, e.ts as int)
    &&& a <= bucket_of(g, e.ts as int) <= b
    &&& called(e) is Some
}

/// The called functions, in the order of their first call.
pub open spec fn call_names(
    events: Seq<TraceEvent>,
    g: Grid,
    window: Option<(i64, i64)>,
    a: int,
    b: int,
) -> Seq<Seq<char>>
    decreases events.len(),
{
    if events.len() == 0 {
        Seq::empty()
    } else {
        let before = call_names(events.drop_last(), g, window, a, b);
        let e = events.last();
        if call_in(g, window, e, a, b) && !before.contains(called(e)->0) {
            before.push(called(e)->0)
        } else {
            before
        }
    }
}

/// The time of a call of the function `name`.
pub open spec fn call_time(
    g: Grid,
    window: Option<(i64, i64)>,
    a: int,
    b: int,
    name: Seq<char>,
) -> spec_fn(TraceEvent) -> int {
    |e: TraceEvent|
        if call_in(g, window, e, a, b) && called(e) == Some(name) {
            dur_of(e)
        } else {
            0
        }
}

pub open spec fn call_times(
    events: Seq<TraceEvent>,
    g: Grid,
    window: Option<(i64, i64)>,
    a: int,
    b: int,
) -> Seq<i128> {
    call_names(events, g, window, a, b).map_values(
        |name: Seq<char>| total(events, call_time(g, window, a, b, name)) as i128,
    )
}

/// How many called functions are kept.
pub const TOP_CALLS: usize = 5;

/// `calls` gives the functions with the most time, the most first.
pub open spec fn top_calls_of(
    events: Seq<TraceEvent>,
    g: Grid,
    window: Option<(i64, i64)>,
    a: int,
    b: int,
    calls: Seq<(String, i128)>,
) -> bool {
    let names = call_names(events, g, window, a, b);
    let times = call_times(events, g, window, a, b);
    exists|q: Seq<usize>|
        {
            &&& #[trigger] orders(times, true, q)
            &&& calls.len() == if q.len() < TOP_CALLS {
                q.len()
            } else {
                TOP_CALLS as nat
            }
            &&& forall|i: int|
                0 <= i < calls.len() ==> (#[trigger] calls[i]).0@ == names[q[i] as int] && calls[i].1
                    == times[q[i] as int]
        }
}

/// The cluster of a run.
pub open spec fn cluster_of(
    events: Seq<TraceEvent>,
    g: Grid,
    window: Option<(i64, i64)>,
    a: Acc,
    c: JankCluster,
) -> bool {
    &&& c.start.num == g.min * g.den + a.start * g.num
    &&& c.start.den == g.den
    &&& c.end.num == g.min * g.den + (a.end + 1) * g.num
    &&& c.end.den == g.den
    &&& c.busy == a.busy
    &&& c.max_run == a.max_run
    &&& c.max_faf == a.max_faf
    &&& c.max_gpu == a.max_gpu
    &&& c.dropped_frames == a.dropped
    &&& top_calls_of(events, g, window, a.start as int, a.end as int, c.top_calls@)
}

/// The clusters kept are those of the runs that rank first.
pub open spec fn clusters_of(
    events: Seq<TraceEvent>,
    g: Grid,
    window: Option<(i64, i64)>,
    main_tid: u64,
    clusters: Seq<JankCluster>,
) -> bool {
    exists|accs: Seq<Acc>, top: Seq<usize>|
        {
            &&& #[trigger] runs_of(events, g, window, main_tid, g.n as int, accs)
            &&& #[trigger] ranks_first(accs, top)
            &&& clusters.len() == top.len()
            &&& forall|i: int|
                0 <= i < top.len() ==> cluster_of(
                    events,
                    g,
                    window,
                    accs[top[i] as int],
                    #[trigger] clusters[i],
                )
        }
}

/// What each field of the result says.
pub open spec fn jank_of(
    events: Seq<TraceEvent>,
    main_tid: u64,
    window: Option<(i64, i64)>,
    r: JankResult,
) -> bool {
    exists|g: Grid|
        {
            &&& #[trigger] grid_of(events, g)
            &&& r.bucket.num == g.num
            &&& r.bucket.den == g.den
            &&& r.total_dropped == total(
                events,
                measure(g, window, main_tid, DROP, 0, g.n - 1),
            )
            &&& clusters_of(events, g, window, main_tid, r.clusters@)
        }
}

/// Bounds of the numbers of a grid.
spec fn grid_bounds(g: Grid) -> bool {
    &&& 1 <= g.n
    &&& 1 <= g.den <= BUCKETS
    &&& 1000 <= g.num <= 4 * TICK_BOUND
    &&& g.n * g.num <= 4 * TICK_BOUND * BUCKETS + g.num
}

/// Find the grid of a trace.
fn find_grid(events: &[TraceEvent]) -> (g: Grid)
    ensures
        grid_of(events@, g),
        grid_bounds(g),
{
    let n = events.len();
    let mut first: Option<i64> = None;
    let mut last: i128 = 0;
    let mut i: usize = 0;
    assert(events@.take(0) =~= Seq::<TraceEvent>::empty());
    while i < n
        invariant
            n == events@.len(),
            i <= n,
            last == latest_end(events@.take(i as int)),
            0 <= last <= 2 * TICK_BOUND,
            match first {
                Some(t) => first_ts(events@.take(i as int)) == Some(t as int),
                None => first_ts(events@.take(i as int)) is None,
            },
        decreases n - i,
    {
        let e = &events[i];
        assert(events@.take(i + 1).drop_last() =~= events@.take(i as int));
        if !is_metadata_event(e) {
            first = match first {
                Some(t) => if e.ts < t {
                    Some(e.ts)
                } else {
                    Some(t)
                },
                None => Some(e.ts),
            };
        }
        let end = end_time(e);
        if end > last {
            last = end;
        }
        i = i + 1;
    }
    assert(events@.take(n as int) =~= events@);
    let span: i128 = match first {
        Some(t) => if last - t as i128 > 1000 {
            last - t as i128
        } else {
            1000
        },
        None => 1000,
    };
    let (num, den): (i128, i128) = if span < BUCKETS * BUCKET_MIN {
        (BUCKET_MIN, 1)
    } else if span > BUCKETS * BUCKET_MAX {
        (BUCKET_MAX, 1)
    } else {
        (span, BUCKETS)
    };
    proof {
        assert(span * den <= 4 * TICK_BOUND * BUCKETS) by (nonlinear_arith)
            requires
                0 <= span <= 4 * TICK_BOUND,
                1 <= den <= BUCKETS,
        ;
        assert(span * den >= 1) by (nonlinear_arith)
            requires
                span >= 1000,
                den >= 1,
        ;
    }
    let x: i128 = span * den + num - 1;
    let raw: i128 = x / num;
    proof {
        vstd::arithmetic::div_mod::lemma_fundamental_div_mod(x as int, num as int);
        assert(x % num >= 0);
        assert(num * raw <= x);
        assert(raw * num == num * raw) by (nonlinear_arith);
        assert(raw >= 1) by (nonlinear_arith)
            requires
                x >= num,
                num > 0,
                x == num * raw + x % num,
                x % num < num,
        ;
    }
    let count: usize = if raw <= usize::MAX as i128 {
        raw as usize
    } else {
        usize::MAX
    };
    proof {
        assert(count * num <= raw * num) by (nonlinear_arith)
            requires
                count <= raw,
                num >= 0,
        ;
    }
    Grid {
        some: first.is_some(),
        min: match first {
            Some(t) => t,
            None => 0,
        },
        max: last,
        num,
        den,
        n: count,
    }
}

/// The bucket of a time.
fn bucket_index(g: &Grid, ts: i64) -> (b: usize)
    requires
        grid_bounds(*g),
    ensures
        b == bucket_of(*g, ts as int),
        b < g.n,
{
    if ts < g.min {
        return 0;
    }
    let d: i128 = ts as i128 - g.min as i128;
    proof {
        assert(0 <= d * g.den <= 2 * TICK_BOUND * BUCKETS) by (nonlinear_arith)
            requires
                0 <= d <= 2 * TICK_BOUND,
                1 <= g.den <= BUCKETS,
        ;
    }
    let x: i128 = d * g.den;
    let raw: i128 = x / g.num;
    proof {
        assert(raw >= 0) by {
            vstd::arithmetic::div_mod::lemma_div_pos_is_pos(x as int, g.num as int);
        }
    }
    if raw < g.n as i128 {
        raw as usize
    } else {
        g.n - 1
    }
}

fn in_window_at(window: Option<(i64, i64)>, ts: i64) -> (r: bool)
    ensures
        r == time_in(window, ts as int),
{
    match window {
        Some((lo, hi)) => lo <= ts && ts <= hi,
        None => true,
    }
}

fn measure_event(e: &TraceEvent, main_tid: u64, what: u8) -> (r: i64)
    ensures
        r == measured(*e, main_tid, what),
{
    let name = e.name.as_str();
    let counts = if what == RUN {
        e.ph == PH_COMPLETE && e.tid == main_tid && same(name, "RunTask")
    } else if what == FAF {
        e.ph == PH_COMPLETE && e.tid == main_tid && same(name, "FireAnimationFrame")
    } else if what == GPU {
        e.ph == PH_COMPLETE && same(name, "GPUTask")
    } else {
        same(name, "DroppedFrame")
    };
    if !counts {
        0
    } else if what == RUN || what == FAF || what == GPU {
        match e.dur {
            Some(d) => d,
            None => 0,
        }
    } else {
        1
    }
}

/// Whether the event falls into a bucket at all, and into which.
fn landing(g: &Grid, window: Option<(i64, i64)>, e: &TraceEvent) -> (r: Option<usize>)
    requires
        grid_bounds(*g),
    ensures
        match r {
            Some(b) => b < g.n && forall|k: int, l: int|
                falls(*g, window, *e, k, l) == (k <= b <= l),
            None => forall|k: int, l: int| !falls(*g, window, *e, k, l),
        },
{
    if g.some && g.min <= e.ts && e.ts as i128 <= g.max && in_window_at(window, e.ts) {
        Some(bucket_index(g, e.ts))
    } else {
        None
    }
}

/// The sum of what is measured, for each bucket.
fn fill_total(
    events: &[TraceEvent],
    g: &Grid,
    window: Option<(i64, i64)>,
    main_tid: u64,
    what: u8,
) -> (r: Vec<i128>)
    requires
        grid_bounds(*g),
    ensures
        r@.len() == g.n,
        forall|b: int|
            0 <= b < g.n ==> (#[trigger] r@[b]) == total(
                events@,
                measure(*g, window, main_tid, what, b, b),
            ),
{
    let n = events.len();
    let mut sums: Vec<i128> = vec![0i128; g.n];
    let mut i: usize = 0;
    assert(events@.take(0) =~= Seq::<TraceEvent>::empty());
    while i < n
        invariant
            n == events@.len(),
            i <= n,
            grid_bounds(*g),
            sums@.len() == g.n,
            forall|b: int|
                0 <= b < g.n ==> (#[trigger] sums@[b]) == total(
                    events@.take(i as int),
                    measure(*g, window, main_tid, what, b, b),
                ),
        decreases n - i,
    {
        let e = &events[i];
        let ghost before = sums@;
        let at = landing(g, window, e);
        if let Some(b) = at {
            proof {
                let f = measure(*g, window, main_tid, what, b as int, b as int);
                assert(ticks_valued(f));
                lemma_total_bound(events@.take(i as int), f);
            }
            let v: i128 = sums[b];
            let m = measure_event(e, main_tid, what);
            sums.set(b, v + m as i128);
        }
        proof {
            assert forall|b: int| 0 <= b < g.n implies (#[trigger] sums@[b]) == total(
                events@.take(i + 1),
                measure(*g, window, main_tid, what, b, b),
            ) by {
                lemma_total_step(events@, measure(*g, window, main_tid, what, b, b), i as int);
                assert(before[b] == total(
                    events@.take(i as int),
                    measure(*g, window, main_tid, what, b, b),
                ));
            }
        }
        i = i + 1;
    }
    assert(events@.take(n as int) =~= events@);
    sums
}

/// The largest value that is measured, for each bucket.
fn fill_largest(
    events: &[TraceEvent],
    g: &Grid,
    window: Option<(i64, i64)>,
    main_tid: u64,
    what: u8,
) -> (r: Vec<i128>)
    requires
        grid_bounds(*g),
    ensures
        r@.len() == g.n,
        forall|b: int|
            0 <= b < g.n ==> (#[trigger] r@[b]) == largest(
                events@,
                measure(*g, window, main_tid, what, b, b),
            ),
{
    let n = events.len();
    let mut tops: Vec<i128> = vec![0i128; g.n];
    let mut i: usize = 0;
    assert(events@.take(0) =~= Seq::<TraceEvent>::empty());
    while i < n
        invariant
            n == events@.len(),
            i <= n,
            grid_bounds(*g),
            tops@.len() == g.n,
            forall|b: int|
                0 <= b < g.n ==> 0 <= (#[trigger] tops@[b]) == largest(
                    events@.take(i as int),
                    measure(*g, window, main_tid, what, b, b),
                ),
        decreases n - i,
    {
        let e = &events[i];
        let ghost before = tops@;
        let at = landing(g, window, e);
        if let Some(b) = at {
            let m = measure_event(e, main_tid, what);
            if m as i128 > tops[b] {
                tops.set(b, m as i128);
            }
        }
        proof {
            assert forall|b: int| 0 <= b < g.n implies 0 <= (#[trigger] tops@[b]) == largest(
                events@.take(i + 1),
                measure(*g, window, main_tid, what, b, b),
            ) by {
                assert(events@.take(i + 1).drop_last() =~= events@.take(i as int));
                assert(0 <= before[b] == largest(
                    events@.take(i as int),
                    measure(*g, window, main_tid, what, b, b),
                ));
            }
        }
        i = i + 1;
    }
    assert(events@.take(n as int) =~= events@);
    tops
}

/// Adjacent runs of buckets measure together what the whole run measures.
proof fn lemma_extend(
    events: Seq<TraceEvent>,
    g: Grid,
    window: Option<(i64, i64)>,
    main_tid: u64,
    what: u8,
    s: int,
    e: int,
)
    requires
        s <= e + 1,
    ensures
        total(events, measure(g, window, main_tid, what, s, e + 1)) == total(
            events,
            measure(g, window, main_tid, what, s, e),
        ) + total(events, measure(g, window, main_tid, what, e + 1, e + 1)),
        largest(events, measure(g, window, main_tid, what, s, e + 1)) == {
            let a = largest(events, measure(g, window, main_tid, what, s, e));
            let b = largest(events, measure(g, window, main_tid, what, e + 1, e + 1));
            if a >= b {
                a
            } else {
                b
            }
        },
    decreases events.len(),
{
    if events.len() > 0 {
        lemma_extend(events.drop_last(), g, window, main_tid, what, s, e);
        lemma_largest_pos(events.drop_last(), measure(g, window, main_tid, what, s, e));
        lemma_largest_pos(events.drop_last(), measure(g, window, main_tid, what, e + 1, e + 1));
    }
}

pub(crate) proof fn lemma_largest_pos(events: Seq<TraceEvent>, f: spec_fn(TraceEvent) -> int)
    ensures
        largest(events, f) >= 0,
    decreases events.len(),
{
    if events.len() > 0 {
        lemma_largest_pos(events.drop_last(), f);
    }
}

/// Dropped frames are counted, each once.
proof fn lemma_drops(
    events: Seq<TraceEvent>,
    g: Grid,
    window: Option<(i64, i64)>,
    main_tid: u64,
    a: int,
    b: int,
)
    ensures
        0 <= total(events, measure(g, window, main_tid, DROP, a, b)) <= events.len(),
    decreases events.len(),
{
    if events.len() > 0 {
        lemma_drops(events.drop_last(), g, window, main_tid, a, b);
    }
}

/// The figures of every bucket.
struct Fields {
    busy: Vec<i128>,
    max_run: Vec<i128>,
    max_faf: Vec<i128>,
    max_gpu: Vec<i128>,
    dropped: Vec<i128>,
}

spec fn single(f: Fields, b: int) -> Acc {
    Acc {
        start: b as usize,
        end: b as usize,
        busy: f.busy@[b],
        max_run: f.max_run@[b],
        max_faf: f.max_faf@[b],
        max_gpu: f.max_gpu@[b],
        dropped: f.dropped@[b] as usize,
    }
}

spec fn fields_of(
    events: Seq<TraceEvent>,
    g: Grid,
    window: Option<(i64, i64)>,
    main_tid: u64,
    f: Fields,
) -> bool {
    &&& f.busy@.len() == g.n
    &&& f.max_run@.len() == g.n
    &&& f.max_faf@.len() == g.n
    &&& f.max_gpu@.len() == g.n
    &&& f.dropped@.len() == g.n
    &&& forall|b: int| 0 <= b < g.n ==> #[trigger] field_of(events, g, window, main_tid, f, b)
}

spec fn field_of(
    events: Seq<TraceEvent>,
    g: Grid,
    window: Option<(i64, i64)>,
    main_tid: u64,
    f: Fields,
    b: int,
) -> bool {
    &&& acc_of(events, g, window, main_tid, single(f, b))
    &&& f.dropped@[b] == total(events, measure(g, window, main_tid, DROP, b, b))
    &&& 0 <= f.dropped@[b] <= usize::MAX
}

fn fill_fields(events: &[TraceEvent], g: &Grid, window: Option<(i64, i64)>, main_tid: u64) -> (f:
    Fields)
    requires
        grid_bounds(*g),
    ensures
        fields_of(events@, *g, window, main_tid, f),
{
    let n = events.len();
    let f = Fields {
        busy: fill_total(events, g, window, main_tid, RUN),
        max_run: fill_largest(events, g, window, main_tid, RUN),
        max_faf: fill_largest(events, g, window, main_tid, FAF),
        max_gpu: fill_largest(events, g, window, main_tid, GPU),
        dropped: fill_total(events, g, window, main_tid, DROP),
    };
    proof {
        assert(n == events@.len());
        assert forall|b: int| 0 <= b < g.n implies #[trigger] field_of(
            events@,
            *g,
            window,
            main_tid,
            f,
            b,
        ) by {
            lemma_drops(events@, *g, window, main_tid, b, b);
            let x = f.busy@[b];
            let y = f.max_run@[b];
            let z = f.max_faf@[b];
            let u = f.max_gpu@[b];
            let v = f.dropped@[b];
        }
    }
    f
}

/// Whether the bucket overlaps the window.
fn overlaps(g: &Grid, window: Option<(i64, i64)>, b: usize) -> (r: bool)
    requires
        grid_bounds(*g),
        b < g.n,
    ensures
        r == bucket_in_window(*g, window, b as int),
{
    match window {
        Some((lo, hi)) => {
            proof {
                lemma_products(*g, b as int);
                let x = g.min - lo;
                let y = g.min - hi;
                assert(-2 * TICK_BOUND * BUCKETS <= x * g.den <= 2 * TICK_BOUND * BUCKETS)
                    by (nonlinear_arith)
                    requires
                        -2 * TICK_BOUND <= x <= 2 * TICK_BOUND,
                        1 <= g.den <= BUCKETS,
                ;
                assert(-2 * TICK_BOUND * BUCKETS <= y * g.den <= 2 * TICK_BOUND * BUCKETS)
                    by (nonlinear_arith)
                    requires
                        -2 * TICK_BOUND <= y <= 2 * TICK_BOUND,
                        1 <= g.den <= BUCKETS,
                ;
            }
            let min: i128 = g.min as i128;
            (min - lo as i128) * g.den + (b as i128 + 1) * g.num > 0 && (min - hi as i128) * g.den
                + b as i128 * g.num < 0
        },
        None => true,
    }
}

proof fn lemma_products(g: Grid, b: int)
    requires
        grid_bounds(g),
        0 <= b < g.n,
    ensures
        0 <= b * g.num <= 4 * TICK_BOUND * BUCKETS + 4 * TICK_BOUND,
        0 <= (b + 1) * g.num <= 4 * TICK_BOUND * BUCKETS + 4 * TICK_BOUND,
        -TICK_BOUND * BUCKETS <= g.min * g.den <= TICK_BOUND * BUCKETS,
{
    assert(0 <= b * g.num <= g.n * g.num) by (nonlinear_arith)
        requires
            0 <= b < g.n,
            g.num >= 0,
    ;
    assert(0 <= (b + 1) * g.num <= g.n * g.num) by (nonlinear_arith)
        requires
            0 <= b < g.n,
            g.num >= 0,
    ;
    assert(-TICK_BOUND * BUCKETS <= g.min * g.den <= TICK_BOUND * BUCKETS) by (nonlinear_arith)
        requires
            -TICK_BOUND <= g.min <= TICK_BOUND,
            1 <= g.den <= BUCKETS,
    ;
}

/// The run with one more bucket behind it.
proof fn lemma_acc_extend(
    events: Seq<TraceEvent>,
    g: Grid,
    window: Option<(i64, i64)>,
    main_tid: u64,
    a: Acc,
    one: Acc,
    longer: Acc,
)
    requires
        events.len() <= usize::MAX,
        acc_of(events, g, window, main_tid, a),
        acc_of(events, g, window, main_tid, one),
        a.start <= a.end,
        one.start == one.end == a.end + 1,
        longer.start == a.start,
        longer.end == a.end + 1,
        longer.max_run == if a.max_run >= one.max_run {
            a.max_run
        } else {
            one.max_run
        },
        longer.max_faf == if a.max_faf >= one.max_faf {
            a.max_faf
        } else {
            one.max_faf
        },
        longer.max_gpu == if a.max_gpu >= one.max_gpu {
            a.max_gpu
        } else {
            one.max_gpu
        },
        longer.busy == a.busy + one.busy,
        longer.dropped == a.dropped + one.dropped,
    ensures
        acc_of(events, g, window, main_tid, longer),
{
    let s = a.start as int;
    let e = a.end as int;
    lemma_extend(events, g, window, main_tid, RUN, s, e);
    lemma_extend(events, g, window, main_tid, FAF, s, e);
    lemma_extend(events, g, window, main_tid, GPU, s, e);
    lemma_extend(events, g, window, main_tid, DROP, s, e);
}

/// The sums of the longer run are within the bounds of a sum of times.
proof fn lemma_acc_room(
    events: Seq<TraceEvent>,
    g: Grid,
    window: Option<(i64, i64)>,
    main_tid: u64,
    a: Acc,
    one: Acc,
)
    requires
        events.len() <= usize::MAX,
        acc_of(events, g, window, main_tid, a),
        acc_of(events, g, window, main_tid, one),
        a.start <= a.end,
        one.start == one.end == a.end + 1,
    ensures
        i128::MIN <= a.busy + one.busy <= i128::MAX,
        a.dropped + one.dropped <= usize::MAX,
{
    let s = a.start as int;
    let e = a.end as int;
    lemma_extend(events, g, window, main_tid, RUN, s, e);
    lemma_extend(events, g, window, main_tid, DROP, s, e);
    lemma_drops(events, g, window, main_tid, s, e + 1);
    let f = measure(g, window, main_tid, RUN, s, e + 1);
    assert(ticks_valued(f));
    lemma_total_bound(events, f);
}

/// The list of runs with bucket `b` taken in: a new run, or the last one made
/// longer.
proof fn lemma_runs_grow(
    events: Seq<TraceEvent>,
    g: Grid,
    window: Option<(i64, i64)>,
    main_tid: u64,
    b: int,
    before: Seq<Acc>,
    after: Seq<Acc>,
)
    requires
        runs_of(events, g, window, main_tid, b, before),
        clustered(events, g, window, main_tid, b),
        after.len() > 0,
        acc_of(events, g, window, main_tid, after.last()),
        after.last().end == b,
        ({
            ||| {
                &&& after.len() == before.len() + 1
                &&& after.drop_last() == before
                &&& after.last().start == b
                &&& before.len() > 0 ==> before.last().end + 1 < b
            }
            ||| {
                &&& after.len() == before.len()
                &&& after.drop_last() == before.drop_last()
                &&& after.last().start == before.last().start
                &&& before.last().end + 1 == b
            }
        }),
    ensures
        runs_of(events, g, window, main_tid, b + 1, after),
{
    let n = after.len() - 1;
    assert forall|i: int| 0 <= i < n implies after[i] == before[i] by {
        assert(after.drop_last()[i] == after[i]);
        if after.len() == before.len() {
            assert(before.drop_last()[i] == before[i]);
        }
    }
    if after.len() == before.len() {
        let t = before[n];
    }
    assert forall|i: int| 0 <= i < after.len() implies {
        &&& (#[trigger] after[i]).start <= after[i].end < b + 1
        &&& acc_of(events, g, window, main_tid, after[i])
        &&& forall|k: int|
            after[i].start <= k <= after[i].end ==> clustered(events, g, window, main_tid, k)
    } by {
        if i < n {
            let t = before[i];
        } else if after.len() == before.len() {
            let t = before[n];
        }
    }
    assert forall|i: int, j: int| 0 <= i < j < after.len() implies (#[trigger] after[i]).end + 1 < (
    #[trigger] after[j]).start by {
        if j < n {
            assert(before[i].end + 1 < before[j].start);
        } else if after.len() == before.len() {
            assert(before[i].end + 1 < before[j].start);
        } else if i < before.len() - 1 {
            assert(before[i].end + 1 < before[before.len() - 1].start);
        }
    }
    assert forall|k: int|
        0 <= k < b + 1 && #[trigger] clustered(events, g, window, main_tid, k) implies exists|i: int|
        0 <= i < after.len() && (#[trigger] after[i]).start <= k <= after[i].end by {
        if k == b {
            assert(after[n].start <= k <= after[n].end);
        } else {
            let i = choose|i: int|
                0 <= i < before.len() && (#[trigger] before[i]).start <= k <= before[i].end;
            if i < n {
                assert(after[i].start <= k <= after[i].end);
            } else {
                assert(after[n].start <= k <= after[n].end);
            }
        }
    }
}

fn larger(a: i128, b: i128) -> (r: i128)
    ensures
        r == if a >= b {
            a
        } else {
            b
        },
{
    if a >= b {
        a
    } else {
        b
    }
}

/// Merge adjacent clustered buckets into runs.
fn merge_buckets(
    events: &[TraceEvent],
    g: &Grid,
    window: Option<(i64, i64)>,
    main_tid: u64,
    f: &Fields,
) -> (accs: Vec<Acc>)
    requires
        grid_bounds(*g),
        fields_of(events@, *g, window, main_tid, *f),
    ensures
        runs_of(events@, *g, window, main_tid, g.n as int, accs@),
{
    let len = events.len();
    let mut accs: Vec<Acc> = Vec::new();
    let mut b: usize = 0;
    while b < g.n
        invariant
            b <= g.n,
            len == events@.len(),
            grid_bounds(*g),
            fields_of(events@, *g, window, main_tid, *f),
            runs_of(events@, *g, window, main_tid, b as int, accs@),
        decreases g.n - b,
    {
        let ghost one_spec = single(*f, b as int);
        let one = Acc {
            start: b,
            end: b,
            busy: f.busy[b],
            max_run: f.max_run[b],
            max_faf: f.max_faf[b],
            max_gpu: f.max_gpu[b],
            dropped: f.dropped[b] as usize,
        };
        assert(field_of(events@, *g, window, main_tid, *f, b as int));
        assert(one == one_spec);
        let hot = bucket_hot(one.busy, one.max_run, one.max_faf, one.max_gpu, one.dropped);
        assert(hot == is_hot(events@, *g, window, main_tid, b as int));
        if hot && overlaps(g, window, b) {
            assert(clustered(events@, *g, window, main_tid, b as int));
            let ghost before = accs@;
            let n = accs.len();
            let joins = n > 0 && accs[n - 1].end + 1 == b;
            if joins {
                let a = accs[n - 1];
                proof {
                    let t = before[n - 1];
                    lemma_acc_room(events@, *g, window, main_tid, a, one);
                }
                let longer = Acc {
                    start: a.start,
                    end: b,
                    busy: a.busy + one.busy,
                    max_run: larger(a.max_run, one.max_run),
                    max_faf: larger(a.max_faf, one.max_faf),
                    max_gpu: larger(a.max_gpu, one.max_gpu),
                    dropped: a.dropped + one.dropped,
                };
                proof {
                    lemma_acc_extend(events@, *g, window, main_tid, a, one, longer);
                }
                accs.set(n - 1, longer);
                assert(accs@.drop_last() =~= before.drop_last());
                proof {
                    lemma_runs_grow(events@, *g, window, main_tid, b as int, before, accs@);
                }
            } else {
                accs.push(one);
                assert(accs@.drop_last() =~= before);
                proof {
                    if n > 0 {
                        let t = before[n - 1];
                    }
                    lemma_runs_grow(events@, *g, window, main_tid, b as int, before, accs@);
                }
            }
        } else {
            assert(!clustered(events@, *g, window, main_tid, b as int));
        }
        b = b + 1;
    }
    accs
}

fn find_spike(a: &Acc) -> (r: i128)
    ensures
        r == worst_spike(*a),
{
    if a.max_run >= a.max_faf && a.max_run >= a.max_gpu {
        a.max_run
    } else if a.max_faf >= a.max_gpu {
        a.max_faf
    } else {
        a.max_gpu
    }
}

fn ranks_first_of(accs: &Vec<Acc>, i: usize, j: usize) -> (r: bool)
    requires
        i < accs@.len(),
        j < accs@.len(),
    ensures
        r == ranks_before(accs@, i as int, j as int),
{
    let a = accs[i];
    let b = accs[j];
    let x = find_spike(&a);
    let y = find_spike(&b);
    if a.dropped != b.dropped {
        a.dropped > b.dropped
    } else if x != y {
        x > y
    } else if a.busy != b.busy {
        a.busy > b.busy
    } else {
        i < j
    }
}

/// Where in `rest` the run stands that ranks first of them.
fn best_of(accs: &Vec<Acc>, rest: &Vec<usize>) -> (r: usize)
    requires
        rest@.len() > 0,
        forall|i: int| 0 <= i < rest@.len() ==> (#[trigger] rest@[i]) < accs@.len(),
        forall|i: int, j: int| 0 <= i < j < rest@.len() ==> (#[trigger] rest@[i]) < (#[trigger] rest@[j]),
    ensures
        r < rest@.len(),
        forall|j: int|
            0 <= j < rest@.len() && j != r ==> ranks_before(
                accs@,
                rest@[r as int] as int,
                #[trigger] rest@[j] as int,
            ),
{
    let mut best: usize = 0;
    let mut k: usize = 1;
    while k < rest.len()
        invariant
            1 <= k <= rest@.len(),
            best < k,
            forall|i: int| 0 <= i < rest@.len() ==> (#[trigger] rest@[i]) < accs@.len(),
            forall|i: int, j: int|
                0 <= i < j < rest@.len() ==> (#[trigger] rest@[i]) < (#[trigger] rest@[j]),
            forall|j: int|
                0 <= j < k && j != best ==> ranks_before(
                    accs@,
                    rest@[best as int] as int,
                    #[trigger] rest@[j] as int,
                ),
        decreases rest@.len() - k,
    {
        if ranks_first_of(accs, rest[k], rest[best]) {
            assert forall|j: int| 0 <= j < k + 1 && j != k implies ranks_before(
                accs@,
                rest@[k as int] as int,
                #[trigger] rest@[j] as int,
            ) by {
                if j != best {
                    assert(ranks_before(accs@, rest@[best as int] as int, rest@[j] as int));
                }
            }
            best = k;
        } else {
            assert(rest@[best as int] < rest@[k as int]);
        }
        k = k + 1;
    }
    best
}

/// The runs that rank first.
fn rank(accs: &Vec<Acc>) -> (top: Vec<usize>)
    ensures
        ranks_first(accs@, top@),
{
    let n = accs.len();
    let mut rest: Vec<usize> = Vec::new();
    let mut i: usize = 0;
    while i < n
        invariant
            i <= n,
            rest@.len() == i,
            forall|k: int| 0 <= k < i ==> #[trigger] rest@[k] == k,
        decreases n - i,
    {
        rest.push(i);
        i = i + 1;
    }
    assert forall|x: int| 0 <= x < n implies #[trigger] holds(rest@, x) by {
        assert(rest@[x] == x);
    }
    let mut top: Vec<usize> = Vec::new();
    while rest.len() > 0 && top.len() < TOP_CLUSTERS
        invariant
            n == accs@.len(),
            rest@.len() + top@.len() == n,
            top@.len() <= TOP_CLUSTERS,
            forall|k: int| 0 <= k < rest@.len() ==> (#[trigger] rest@[k]) < n,
            forall|k: int, l: int|
                0 <= k < l < rest@.len() ==> (#[trigger] rest@[k]) < (#[trigger] rest@[l]),
            forall|k: int| 0 <= k < top@.len() ==> (#[trigger] top@[k]) < n,
            forall|x: int| 0 <= x < n ==> (#[trigger] holds(rest@, x) <==> !holds(top@, x)),
            forall|k: int, l: int|
                0 <= k < l < top@.len() ==> ranks_before(
                    accs@,
                    #[trigger] top@[k] as int,
                    #[trigger] top@[l] as int,
                ),
            forall|k: int, x: int|
                0 <= k < top@.len() && 0 <= x < n && !holds(top@, x) ==> #[trigger] ranks_before(
                    accs@,
                    top@[k] as int,
                    x,
                ),
        decreases rest@.len(),
    {
        let ghost top0 = top@;
        let ghost rest0 = rest@;
        let at = best_of(accs, &rest);
        let k = rest.remove(at);
        proof {
            lemma_removed(rest0, rest@, at as int);
            assert(holds(rest0, k as int)) by {
                assert(rest0[at as int] == k);
            }
        }
        top.push(k);
        proof {
            lemma_held_push(top0, k);
            assert forall|a: int, b: int| 0 <= a < b < top@.len() implies ranks_before(
                accs@,
                #[trigger] top@[a] as int,
                #[trigger] top@[b] as int,
            ) by {
                assert(top@[a] == top0[a]);
                if b < top0.len() {
                    assert(top@[b] == top0[b]);
                } else {
                    assert(!holds(top0, k as int));
                    assert(ranks_before(accs@, top0[a] as int, k as int));
                }
            }
            assert forall|a: int, x: int|
                0 <= a < top@.len() && 0 <= x < n && !holds(top@, x) implies #[trigger] ranks_before(
                accs@,
                top@[a] as int,
                x,
            ) by {
                assert(!holds(top0, x) && x != k);
                if a < top0.len() {
                    assert(ranks_before(accs@, top0[a] as int, x));
                } else {
                    assert(holds(rest0, x));
                    let w = choose|w: int| 0 <= w < rest0.len() && #[trigger] rest0[w] == x;
                    assert(ranks_before(accs@, rest0[at as int] as int, rest0[w] as int));
                }
            }
            assert forall|c: int| 0 <= c < rest@.len() implies (#[trigger] rest@[c]) < n by {
                assert(holds(rest@, rest@[c] as int));
                assert(holds(rest0, rest@[c] as int));
            }
        }
    }
    top
}

/// The position of `name` in `names`.
fn find_name(names: &Vec<String>, name: &str) -> (r: Option<usize>)
    ensures
        match r {
            Some(k) => k < names@.len() && names@[k as int]@ == name@,
            None => forall|k: int| 0 <= k < names@.len() ==> (#[trigger] names@[k])@ != name@,
        },
{
    let mut k: usize = 0;
    while k < names.len()
        invariant
            k <= names@.len(),
            forall|j: int| 0 <= j < k ==> (#[trigger] names@[j])@ != name@,
        decreases names@.len() - k,
    {
        if same(names[k].as_str(), name) {
            return Some(k);
        }
        k = k + 1;
    }
    None
}

pub open spec fn texts(names: Seq<String>) -> Seq<Seq<char>> {
    names.map_values(|s: String| s@)
}

/// The called functions of a run with their times.
fn collect_calls(
    events: &[TraceEvent],
    g: &Grid,
    window: Option<(i64, i64)>,
    a: usize,
    b: usize,
) -> (r: (Vec<String>, Vec<i128>))
    requires
        grid_bounds(*g),
    ensures
        texts(r.0@) == call_names(events@, *g, window, a as int, b as int),
        r.1@ == call_times(events@, *g, window, a as int, b as int),
{
    let n = events.len();
    let mut names: Vec<String> = Vec::new();
    let mut times: Vec<i128> = Vec::new();
    let ghost ga = a as int;
    let ghost gb = b as int;
    let mut i: usize = 0;
    assert(events@.take(0) =~= Seq::<TraceEvent>::empty());
    assert(texts(names@) =~= call_names(events@.take(0), *g, window, ga, gb));
    while i < n
        invariant
            n == events@.len(),
            i <= n,
            ga == a,
            gb == b,
            grid_bounds(*g),
            texts(names@) == call_names(events@.take(i as int), *g, window, ga, gb),
            times@.len() == names@.len(),
            forall|k: int|
                0 <= k < names@.len() ==> (#[trigger] times@[k]) == total(
                    events@.take(i as int),
                    call_time(*g, window, ga, gb, names@[k]@),
                ),
            forall|k: int, l: int|
                0 <= k < l < names@.len() ==> (#[trigger] names@[k])@ != (#[trigger] names@[l])@,
            forall|name: Seq<char>|
                !texts(names@).contains(name) ==> #[trigger] total(
                    events@.take(i as int),
                    call_time(*g, window, ga, gb, name),
                ) == 0,
        decreases n - i,
    {
        let e = &events[i];
        let ghost seen = events@.take(i as int);
        let ghost more = events@.take(i + 1);
        let ghost names0 = names@;
        let ghost times0 = times@;
        assert(more.drop_last() =~= seen);
        assert(more.last() == *e);
        let found = call_of(g, window, e, a, b);
        match found {
            Some(name) => {
                let d: i64 = match e.dur {
                    Some(d) => d,
                    None => 0,
                };
                let ghost mut place: int = names0.len() as int;
                match find_name(&names, name) {
                    Some(k) => {
                        proof {
                            place = k as int;
                            let f = call_time(*g, window, ga, gb, name@);
                            assert(ticks_valued(f));
                            lemma_total_bound(seen, f);
                            assert(texts(names0)[k as int] == name@);
                        }
                        let t: i128 = times[k];
                        times.set(k, t + d as i128);
                    },
                    None => {
                        proof {
                            assert(!texts(names0).contains(name@)) by {
                                if texts(names0).contains(name@) {
                                    let w = choose|w: int|
                                        0 <= w < texts(names0).len() && texts(names0)[w] == name@;
                                    assert(names0[w]@ == name@);
                                }
                            }
                            assert(total(seen, call_time(*g, window, ga, gb, name@)) == 0);
                        }
                        names.push(name.to_owned());
                        times.push(d as i128);
                        assert(texts(names@) =~= texts(names0).push(name@));
                    },
                }
                proof {
                    assert forall|k: int| 0 <= k < names@.len() implies (#[trigger] times@[k])
                        == total(more, call_time(*g, window, ga, gb, names@[k]@)) by {
                        if k < names0.len() {
                            assert(names@[k] == names0[k]);
                            assert(times0[k] == total(
                                seen,
                                call_time(*g, window, ga, gb, names0[k]@),
                            ));
                        }
                    }
                    assert forall|other: Seq<char>| !texts(names@).contains(other) implies #[trigger] total(
                        more,
                        call_time(*g, window, ga, gb, other),
                    ) == 0 by {
                        assert(total(seen, call_time(*g, window, ga, gb, other)) == 0) by {
                            if texts(names0).contains(other) {
                                let w = choose|w: int|
                                    0 <= w < texts(names0).len() && texts(names0)[w] == other;
                                assert(names@[w] == names0[w]);
                                assert(texts(names@)[w] == other);
                            }
                        }
                        if other == name@ {
                            assert(texts(names@)[place] == other);
                        }
                    }
                }
            },
            None => {
                proof {
                    assert forall|k: int| 0 <= k < names@.len() implies (#[trigger] times@[k])
                        == total(more, call_time(*g, window, ga, gb, names@[k]@)) by {
                        let t = times0[k];
                    }
                    assert forall|other: Seq<char>| !texts(names@).contains(other) implies #[trigger] total(
                        more,
                        call_time(*g, window, ga, gb, other),
                    ) == 0 by {
                        assert(total(seen, call_time(*g, window, ga, gb, other)) == 0);
                    }
                }
            },
        }
        i = i + 1;
    }
    assert(events@.take(n as int) =~= events@);
    proof {
        let ts = call_times(events@, *g, window, ga, gb);
        let ns = call_names(events@, *g, window, ga, gb);
        assert forall|k: int| 0 <= k < times@.len() implies times@[k] == ts[k] by {
            assert(texts(names@)[k] == ns[k]);
            let t = times@[k];
            let f = call_time(*g, window, ga, gb, names@[k]@);
            assert(ticks_valued(f));
            lemma_total_bound(events@, f);
        }
        assert(times@ =~= ts);
    }
    (names, times)
}

/// The function called by an event in the buckets from `a` to `b`.
fn call_of<'a>(g: &Grid, window: Option<(i64, i64)>, e: &'a TraceEvent, a: usize, b: usize) -> (r: Option<
    &'a str,
>)
    requires
        grid_bounds(*g),
    ensures
        match r {
            Some(name) => call_in(*g, window, *e, a as int, b as int) && called(*e) == Some(name@),
            None => !call_in(*g, window, *e, a as int, b as int),
        },
{
    if e.ph != PH_COMPLETE || e.dur.is_none() || !same(e.name.as_str(), "FunctionCall") {
        return None;
    }
    if !in_window_at(window, e.ts) {
        return None;
    }
    let at = bucket_index(g, e.ts);
    if at < a || at > b {
        return None;
    }
    let value = e.args_value();
    match get_opt(get_opt(value, "data"), "functionName") {
        Some(j) => match j.as_str() {
            Some(name) => if name.is_empty() {
                None
            } else {
                Some(name)
            },
            None => None,
        },
        None => None,
    }
}

/// The functions with the most time in a run.
fn find_top_calls(events: &[TraceEvent], g: &Grid, window: Option<(i64, i64)>, a: usize, b: usize) -> (r:
    Vec<(String, i128)>)
    requires
        grid_bounds(*g),
    ensures
        top_calls_of(events@, *g, window, a as int, b as int, r@),
{
    let (names, times) = collect_calls(events, g, window, a, b);
    let ghost ns = call_names(events@, *g, window, a as int, b as int);
    let q = order(&times, true);
    let mut out: Vec<(String, i128)> = Vec::new();
    let mut i: usize = 0;
    while i < q.len() && i < TOP_CALLS
        invariant
            i <= q@.len(),
            i <= TOP_CALLS,
            orders(times@, true, q@),
            texts(names@) == ns,
            times@.len() == names@.len(),
            out@.len() == i,
            forall|k: int|
                0 <= k < i ==> (#[trigger] out@[k]).0@ == ns[q@[k] as int] && out@[k].1
                    == times@[q@[k] as int],
        decreases q@.len() - i,
    {
        let slot = q[i];
        assert(texts(names@)[slot as int] == names@[slot as int]@);
        out.push((names[slot].clone(), times[slot]));
        i = i + 1;
    }
    out
}

/// The number of dropped frames in all buckets.
fn sum_dropped(
    events: &[TraceEvent],
    g: &Grid,
    window: Option<(i64, i64)>,
    main_tid: u64,
    f: &Fields,
) -> (r: usize)
    requires
        grid_bounds(*g),
        fields_of(events@, *g, window, main_tid, *f),
    ensures
        r == total(events@, measure(*g, window, main_tid, DROP, 0, g.n - 1)),
{
    let len = events.len();
    let mut sum: usize = 0;
    let mut b: usize = 0;
    proof {
        lemma_none(events@, *g, window, main_tid);
    }
    while b < g.n
        invariant
            b <= g.n,
            len == events@.len(),
            fields_of(events@, *g, window, main_tid, *f),
            sum == total(events@, measure(*g, window, main_tid, DROP, 0, b - 1)),
        decreases g.n - b,
    {
        assert(field_of(events@, *g, window, main_tid, *f, b as int));
        proof {
            lemma_extend(events@, *g, window, main_tid, DROP, 0, b - 1);
            lemma_drops(events@, *g, window, main_tid, 0, b as int);
        }
        sum = sum + f.dropped[b] as usize;
        b = b + 1;
    }
    sum
}

proof fn lemma_none(events: Seq<TraceEvent>, g: Grid, window: Option<(i64, i64)>, main_tid: u64)
    ensures
        total(events, measure(g, window, main_tid, DROP, 0, -1)) == 0,
    decreases events.len(),
{
    if events.len() > 0 {
        lemma_none(events.drop_last(), g, window, main_tid);
    }
}

/// Detect jank clusters: buckets with dropped frames, spikes over the frame
/// budget or much main-thread work; adjacent ones are merged and ranked by
/// dropped frames, worst spike and busy time. With a window, events outside it
/// do not count and runs do not reach past it.
pub fn analyze_jank(events: &[TraceEvent], main_tid: u64, window: Option<(i64, i64)>) -> (r: JankResult)
    ensures
        jank_of(events@, main_tid, window, r),
{
    let g = find_grid(events);
    let f = fill_fields(events, &g, window, main_tid);
    let total_dropped = sum_dropped(events, &g, window, main_tid, &f);
    let accs = merge_buckets(events, &g, window, main_tid, &f);
    let top = rank(&accs);
    let mut clusters: Vec<JankCluster> = Vec::new();
    let mut i: usize = 0;
    while i < top.len()
        invariant
            i <= top@.len(),
            grid_bounds(g),
            runs_of(events@, g, window, main_tid, g.n as int, accs@),
            ranks_first(accs@, top@),
            clusters@.len() == i,
            forall|k: int|
                0 <= k < i ==> cluster_of(
                    events@,
                    g,
                    window,
                    accs@[top@[k] as int],
                    #[trigger] clusters@[k],
                ),
        decreases top@.len() - i,
    {
        let k = top[i];
        let a = accs[k];
        proof {
            let t = accs@[k as int];
            lemma_products(g, a.start as int);
            lemma_products(g, a.end as int);
        }
        let base: i128 = g.min as i128 * g.den;
        let start: i128 = base + a.start as i128 * g.num;
        let end: i128 = base + (a.end as i128 + 1) * g.num;
        let top_calls = find_top_calls(events, &g, window, a.start, a.end);
        clusters.push(
            JankCluster {
                start: Ratio { num: start, den: g.den },
                end: Ratio { num: end, den: g.den },
                busy: a.busy,
                max_run: a.max_run,
                max_faf: a.max_faf,
                max_gpu: a.max_gpu,
                dropped_frames: a.dropped,
                top_calls,
            },
        );
        i = i + 1;
    }
    let r = JankResult { clusters, total_dropped, bucket: Ratio { num: g.num, den: g.den } };
    assert(clusters_of(events@, g, window, main_tid, r.clusters@));
    r
}

/// The runs of hot buckets share no bucket.
pub proof fn lemma_runs_disjoint(
    events: Seq<TraceEvent>,
    g: Grid,
    window: Option<(i64, i64)>,
    main_tid: u64,
    accs: Seq<Acc>,
    i: int,
    j: int,
    b: int,
)
    requires
        runs_of(events, g, window, main_tid, g.n as int, accs),
        0 <= i < accs.len(),
        0 <= j < accs.len(),
        accs[i].start <= b <= accs[i].end,
        accs[j].start <= b <= accs[j].end,
    ensures
        i == j,
{
}

/// A window hides nothing of what it holds: a bucket drops no more frames
/// under a window than without one.
pub proof fn lemma_window_drops(
    events: Seq<TraceEvent>,
    g: Grid,
    window: Option<(i64, i64)>,
    main_tid: u64,
    a: int,
    b: int,
)
    ensures
        total(events, measure(g, window, main_tid, DROP, a, b)) <= total(
            events,
            measure(g, None, main_tid, DROP, a, b),
        ),
    decreases events.len(),
{
    if events.len() > 0 {
        lemma_window_drops(events.drop_last(), g, window, main_tid, a, b);
    }
}

/// The worst spike of a cluster.
pub open spec fn cluster_spike(c: JankCluster) -> i128 {
    if c.max_run >= c.max_faf && c.max_run >= c.max_gpu {
        c.max_run
    } else if c.max_faf >= c.max_gpu {
        c.max_faf
    } else {
        c.max_gpu
    }
}

/// Clusters come with the most dropped frames first, of these the one with the
/// worst spike, and then the one with the most busy time.
pub proof fn lemma_clusters_ranked(
    events: Seq<TraceEvent>,
    main_tid: u64,
    window: Option<(i64, i64)>,
    r: JankResult,
    i: int,
    j: int,
)
    requires
        jank_of(events, main_tid, window, r),
        0 <= i < j < r.clusters@.len(),
    ensures
        ({
            let a = r.clusters@[i];
            let b = r.clusters@[j];
            ||| a.dropped_frames > b.dropped_frames
            ||| a.dropped_frames == b.dropped_frames && cluster_spike(a) > cluster_spike(b)
            ||| a.dropped_frames == b.dropped_frames && cluster_spike(a) == cluster_spike(b)
                && a.busy >= b.busy
        }),
{
    let g = choose|g: Grid|
        {
            &&& #[trigger] grid_of(events, g)
            &&& r.bucket.num == g.num
            &&& r.bucket.den == g.den
            &&& r.total_dropped == total(
                events,
                measure(g, window, main_tid, DROP, 0, g.n - 1),
            )
            &&& clusters_of(events, g, window, main_tid, r.clusters@)
        };
    let (accs, top) = choose|accs: Seq<Acc>, top: Seq<usize>|
        {
            &&& #[trigger] runs_of(events, g, window, main_tid, g.n as int, accs)
            &&& #[trigger] ranks_first(accs, top)
            &&& r.clusters@.len() == top.len()
            &&& forall|k: int|
                0 <= k < top.len() ==> cluster_of(
                    events,
                    g,
                    window,
                    accs[top[k] as int],
                    #[trigger] r.clusters@[k],
                )
        };
    let a = r.clusters@[i];
    let b = r.clusters@[j];
    assert(ranks_before(accs, top[i] as int, top[j] as int));
}

} // verus!
