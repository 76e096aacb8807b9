//! The figures of a stretch of jank, its most expensive functions, and the
//! order in which the stretches come.

use vstd::prelude::*;
use crate::analysis::common::total;
use crate::analysis::jank::{
    acc_of,
    bucket_of,
    call_in,
    call_names,
    call_time,
    call_times,
    called,
    cluster_of,
    falls,
    grid_of,
    jank_of,
    measure,
    ranks_before,
    top_calls_of,
    Acc,
    Grid,
    JankCluster,
    JankResult,
    DROP,
    RUN,
};
use crate::json::{member_opt, str_opt};
use crate::laws::jank::{
    all_unmarked,
    covers,
    lemma_bucket,
    lemma_falls_covers,
    lemma_open,
    lemma_unmarked,
    times_sane,
    unmarked,
};
use crate::laws::lists::lasted;
use crate::sort::{comes_before, holds, orders};
use crate::trace::event::TraceEvent;
use crate::trace::meta::is_metadata;

verus! {

/// The longest single piece of work of a stretch.
pub open spec fn worst(c: JankCluster) -> int {
    if c.max_run >= c.max_faf && c.max_run >= c.max_gpu {
        c.max_run as int
    } else if c.max_faf >= c.max_gpu {
        c.max_faf as int
    } else {
        c.max_gpu as int
    }
}

/// The stretches: no more than eight, apart from each other. Those with more
/// dropped frames come first, then those with the longer piece of work, then
/// the busier.
pub proof fn lemma_order(events: Seq<TraceEvent>, tid: u64, window: Option<(i64, i64)>, r: JankResult)
    requires
        jank_of(events, tid, window, r),
    ensures
        r.clusters@.len() <= 8,
        forall|i: int, j: int|
            0 <= i < j < r.clusters@.len() ==> {
                let (a, b) = (#[trigger] r.clusters@[i], #[trigger] r.clusters@[j]);
                ||| a.dropped_frames > b.dropped_frames
                ||| a.dropped_frames == b.dropped_frames && worst(a) > worst(b)
                ||| a.dropped_frames == b.dropped_frames && worst(a) == worst(b) && a.busy >= b.busy
            },
        forall|i: int, j: int|
            0 <= i < j < r.clusters@.len() ==> (#[trigger] r.clusters@[i]).end.num < (
            #[trigger] r.clusters@[j]).start.num || r.clusters@[j].end.num < r.clusters@[i].start.num,
{
    let (g, accs, top) = lemma_open(events, tid, window, r);
    assert forall|i: int, j: int| 0 <= i < j < r.clusters@.len() implies {
        let (a, b) = (#[trigger] r.clusters@[i], #[trigger] r.clusters@[j]);
        ||| a.dropped_frames > b.dropped_frames
        ||| a.dropped_frames == b.dropped_frames && worst(a) > worst(b)
        ||| a.dropped_frames == b.dropped_frames && worst(a) == worst(b) && a.busy >= b.busy
    } by {
        assert(ranks_before(accs, top[i] as int, top[j] as int));
    }
    assert forall|i: int, j: int| 0 <= i < j < r.clusters@.len() implies (#[trigger] r.clusters@[i]).end.num < (
    #[trigger] r.clusters@[j]).start.num || r.clusters@[j].end.num < r.clusters@[i].start.num by {
        assert(ranks_before(accs, top[i] as int, top[j] as int));
        let (x, y) = (top[i] as int, top[j] as int);
        let (a, b) = (accs[x], accs[y]);
        let num = g.num as int;
        let (s, e, u, v) = (a.start as int, a.end as int, b.start as int, b.end as int);
        assert(num > 0);
        if x < y {
            assert(e + 1 < u);
            assert((e + 1) * num < u * num) by (nonlinear_arith)
                requires
                    e + 1 < u,
                    num > 0,
            ;
        } else {
            assert(v + 1 < s);
            assert((v + 1) * num < s * num) by (nonlinear_arith)
                requires
                    v + 1 < s,
                    num > 0,
            ;
        }
    }
}

/// The grid that the stretches are cut from: fifty milliseconds at least and a
/// second at most, in between a two-thousandth of the trace.
pub proof fn lemma_width(events: Seq<TraceEvent>, tid: u64, window: Option<(i64, i64)>, r: JankResult)
    requires
        jank_of(events, tid, window, r),
    ensures
        50_000_000 * r.bucket.den <= r.bucket.num <= 1_000_000_000 * r.bucket.den,
        r.bucket.den == 1 || r.bucket.den == 2000,
{
}

/// The time lies within the stretch, not at its ends.
pub open spec fn well_inside(c: JankCluster, ts: int) -> bool {
    c.start.num < ts * c.start.den && ts * c.end.den < c.end.num
}

/// The event is in the window, if there is one.
pub open spec fn in_view(window: Option<(i64, i64)>, e: TraceEvent) -> bool {
    window matches Some((lo, hi)) ==> lo <= e.ts && e.ts <= hi
}

proof fn lemma_inside_falls(
    events: Seq<TraceEvent>,
    g: Grid,
    window: Option<(i64, i64)>,
    a: Acc,
    c: JankCluster,
    x: int,
)
    requires
        grid_of(events, g),
        times_sane(events),
        cluster_of(events, g, window, a, c),
        0 <= x < events.len(),
        !is_metadata(events[x]),
        in_view(window, events[x]),
        well_inside(c, events[x].ts as int),
    ensures
        falls(g, window, events[x], a.start as int, a.end as int),
        a.start <= bucket_of(g, events[x].ts as int) <= a.end,
{
    lemma_bucket(events, g, x);
    let b = bucket_of(g, events[x].ts as int);
    let (s, f, num) = (a.start as int, a.end as int, g.num as int);
    assert(s * num < (b + 1) * num && b * num < (f + 1) * num ==> s < b + 1 && b < f + 1) by (nonlinear_arith)
        requires
            num > 0,
    ;
}

proof fn lemma_total_between<T>(s: Seq<T>, f: spec_fn(T) -> int, g: spec_fn(T) -> int)
    requires
        forall|i: int| 0 <= i < s.len() ==> f(#[trigger] s[i]) <= g(s[i]),
    ensures
        total(s, f) <= total(s, g),
    decreases s.len(),
{
    if s.len() > 0 {
        let t = s.drop_last();
        assert forall|i: int| 0 <= i < t.len() implies f(#[trigger] t[i]) <= g(t[i]) by {
            assert(t[i] == s[i]);
        }
        lemma_total_between(t, f, g);
        assert(f(s[s.len() - 1]) <= g(s[s.len() - 1]));
    }
}

/// How long the main thread's tasks last that start within the stretch; those
/// that start at its very ends count where `ends` says so.
pub open spec fn work_in(c: JankCluster, window: Option<(i64, i64)>, tid: u64, ends: bool) -> spec_fn(
    TraceEvent,
) -> int {
    |e: TraceEvent|
        if e.name@ == "RunTask"@ && e.ph == 88 && e.tid == tid && in_view(window, e) && (well_inside(c, e.ts as int)
            || ends && covers(c, e.ts as int)) {
            lasted(e)
        } else {
            0
        }
}

/// The frames dropped within the stretch.
pub open spec fn drops_in(c: JankCluster, window: Option<(i64, i64)>, ends: bool) -> spec_fn(TraceEvent) -> int {
    |e: TraceEvent|
        if e.name@ == "DroppedFrame"@ && in_view(window, e) && (well_inside(c, e.ts as int) || ends && covers(
            c,
            e.ts as int,
        )) {
            1
        } else {
            0
        }
}

/// The busy time of a stretch is that of the main thread's tasks in it, and its
/// dropped frames are those in it; what starts at the very ends of the stretch
/// may count or not.
pub proof fn lemma_figures(events: Seq<TraceEvent>, tid: u64, window: Option<(i64, i64)>, r: JankResult, k: int)
    requires
        jank_of(events, tid, window, r),
        times_sane(events),
        all_unmarked(events),
        0 <= k < r.clusters@.len(),
    ensures
        total(events, work_in(r.clusters@[k], window, tid, false)) <= r.clusters@[k].busy <= total(
            events,
            work_in(r.clusters@[k], window, tid, true),
        ),
        total(events, drops_in(r.clusters@[k], window, false)) <= r.clusters@[k].dropped_frames <= total(
            events,
            drops_in(r.clusters@[k], window, true),
        ),
{
    let (g, accs, top) = lemma_open(events, tid, window, r);
    let c = r.clusters@[k];
    let a = accs[top[k] as int];
    assert(cluster_of(events, g, window, a, c));
    assert(acc_of(events, g, window, tid, a));
    let run = measure(g, window, tid, RUN, a.start as int, a.end as int);
    let drop = measure(g, window, tid, DROP, a.start as int, a.end as int);
    assert forall|x: int| 0 <= x < events.len() implies work_in(c, window, tid, false)(#[trigger] events[x]) <= run(
        events[x],
    ) <= work_in(c, window, tid, true)(events[x]) && drops_in(c, window, false)(events[x]) <= drop(events[x])
        <= drops_in(c, window, true)(events[x]) by {
        let e = events[x];
        assert(unmarked(e));
        if e.name@ == "RunTask"@ || e.name@ == "DroppedFrame"@ {
            lemma_unmarked(e);
            if falls(g, window, e, a.start as int, a.end as int) {
                lemma_falls_covers(events, g, window, a, c, x);
            }
            if in_view(window, e) && well_inside(c, e.ts as int) {
                lemma_inside_falls(events, g, window, a, c, x);
            }
        }
    }
    lemma_total_between(events, work_in(c, window, tid, false), run);
    lemma_total_between(events, run, work_in(c, window, tid, true));
    lemma_total_between(events, drops_in(c, window, false), drop);
    lemma_total_between(events, drop, drops_in(c, window, true));
}

/// A call of a function with a name, with a duration, in the window.
pub open spec fn call_of(e: TraceEvent, window: Option<(i64, i64)>, name: Seq<char>) -> bool {
    &&& e.name@ == "FunctionCall"@
    &&& e.ph == 88
    &&& e.dur is Some
    &&& in_view(window, e)
    &&& str_opt(member_opt(member_opt(e@.said(), "data"@), "functionName"@)) == Some(name)
}

/// How long the calls of a function last that start within the stretch.
pub open spec fn calls_in(c: JankCluster, window: Option<(i64, i64)>, name: Seq<char>, ends: bool) -> spec_fn(
    TraceEvent,
) -> int {
    |e: TraceEvent|
        if call_of(e, window, name) && (well_inside(c, e.ts as int) || ends && covers(c, e.ts as int)) {
            lasted(e)
        } else {
            0
        }
}

proof fn lemma_call_names(events: Seq<TraceEvent>, g: Grid, window: Option<(i64, i64)>, a: int, b: int)
    ensures
        forall|x: int|
            0 <= x < events.len() && call_in(g, window, #[trigger] events[x], a, b) ==> call_names(
                events,
                g,
                window,
                a,
                b,
            ).contains(called(events[x])->0),
        forall|i: int, j: int|
            0 <= i < j < call_names(events, g, window, a, b).len() ==> call_names(events, g, window, a, b)[i]
                != call_names(events, g, window, a, b)[j],
        forall|i: int|
            0 <= i < call_names(events, g, window, a, b).len() ==> (#[trigger] call_names(
                events,
                g,
                window,
                a,
                b,
            )[i]).len() > 0,
    decreases events.len(),
{
    if events.len() > 0 {
        let t = events.drop_last();
        let e = events.last();
        lemma_call_names(t, g, window, a, b);
        let before = call_names(t, g, window, a, b);
        let names = call_names(events, g, window, a, b);
        assert forall|x: int| 0 <= x < events.len() && call_in(g, window, #[trigger] events[x], a, b) implies names.contains(
            called(events[x])->0,
        ) by {
            if x < t.len() {
                assert(t[x] == events[x]);
                assert(before.contains(called(t[x])->0));
                let w = choose|w: int| 0 <= w < before.len() && before[w] == called(t[x])->0;
                assert(names[w] == before[w]);
            } else if !before.contains(called(e)->0) {
                assert(names[before.len() as int] == called(e)->0);
            }
        }
        assert forall|i: int, j: int| 0 <= i < j < names.len() implies names[i] != names[j] by {
            assert(names[i] == before[i]);
            if j < before.len() {
                assert(names[j] == before[j]);
            } else {
                assert(before.contains(before[i]));
            }
        }
        assert forall|i: int| 0 <= i < names.len() implies (#[trigger] names[i]).len() > 0 by {
            if i < before.len() {
                assert(names[i] == before[i]);
            }
        }
    }
}

/// The functions of a stretch: five at most, each once and with a name, with the
/// time of its calls in the stretch, the most first. Where there are fewer, no
/// function called well inside is left out.
pub proof fn lemma_calls(events: Seq<TraceEvent>, tid: u64, window: Option<(i64, i64)>, r: JankResult, k: int)
    requires
        jank_of(events, tid, window, r),
        events.len() <= 0xffff_ffff,
        times_sane(events),
        forall|i: int| 0 <= i < events.len() ==> !is_metadata(#[trigger] events[i]),
        0 <= k < r.clusters@.len(),
    ensures
        r.clusters@[k].top_calls@.len() <= 5,
        forall|i: int|
            0 <= i < r.clusters@[k].top_calls@.len() ==> call_right(
                events,
                r.clusters@[k],
                window,
                #[trigger] r.clusters@[k].top_calls@[i],
            ),
        forall|i: int, j: int|
            0 <= i < j < r.clusters@[k].top_calls@.len() ==> (#[trigger] r.clusters@[k].top_calls@[i]).0@ != (
            #[trigger] r.clusters@[k].top_calls@[j]).0@ && r.clusters@[k].top_calls@[i].1
                >= r.clusters@[k].top_calls@[j].1,
        r.clusters@[k].top_calls@.len() < 5 ==> forall|x: int, name: Seq<char>|
            0 <= x < events.len() && #[trigger] call_of(events[x], window, name) && name.len() > 0 && well_inside(
                r.clusters@[k],
                events[x].ts as int,
            ) ==> exists|i: int|
                0 <= i < r.clusters@[k].top_calls@.len() && (#[trigger] r.clusters@[k].top_calls@[i]).0@ == name,
{
    let (g, accs, top) = lemma_open(events, tid, window, r);
    let c = r.clusters@[k];
    let acc = accs[top[k] as int];
    let (a, b) = (acc.start as int, acc.end as int);
    assert(cluster_of(events, g, window, acc, c));
    let calls = c.top_calls@;
    let names = call_names(events, g, window, a, b);
    let times = call_times(events, g, window, a, b);
    assert(top_calls_of(events, g, window, a, b, calls));
    let q = choose|q: Seq<usize>|
        {
            &&& #[trigger] orders(times, true, q)
            &&& calls.len() == if q.len() < crate::analysis::jank::TOP_CALLS {
                q.len()
            } else {
                crate::analysis::jank::TOP_CALLS as nat
            }
            &&& forall|i: int|
                0 <= i < calls.len() ==> (#[trigger] calls[i]).0@ == names[q[i] as int] && calls[i].1
                    == times[q[i] as int]
        };
    lemma_call_names(events, g, window, a, b);
    assert(times.len() == names.len());
    assert forall|i: int| 0 <= i < calls.len() implies call_right(events, c, window, #[trigger] calls[i]) by {
        let name = calls[i].0@;
        assert(names[q[i] as int] == name);
        let f = call_time(g, window, a, b, name);
        assert forall|x: int| 0 <= x < events.len() implies calls_in(c, window, name, false)(#[trigger] events[x]) <= f(
            events[x],
        ) <= calls_in(c, window, name, true)(events[x]) by {
            let e = events[x];
            if call_of(e, window, name) {
                if well_inside(c, e.ts as int) {
                    lemma_inside_falls(events, g, window, acc, c, x);
                }
            }
            if call_in(g, window, e, a, b) && called(e) == Some(name) {
                lemma_bucket(events, g, x);
                assert(falls(g, window, e, a, b));
                lemma_falls_covers(events, g, window, acc, c, x);
            }
        }
        lemma_total_between(events, calls_in(c, window, name, false), f);
        lemma_total_between(events, f, calls_in(c, window, name, true));
        lemma_small(events, f);
        assert(calls[i].1 == total(events, f));
    }
    assert forall|i: int, j: int| 0 <= i < j < calls.len() implies (#[trigger] calls[i]).0@ != (#[trigger] calls[j]).0@
        && calls[i].1 >= calls[j].1 by {
        assert(comes_before(times, true, q[i] as int, q[j] as int));
        let (x, y) = (q[i] as int, q[j] as int);
        if x < y {
            assert(names[x] != names[y]);
        } else {
            assert(names[y] != names[x]);
        }
    }
    if calls.len() < 5 {
        assert forall|x: int, name: Seq<char>| 0 <= x < events.len() && #[trigger] call_of(events[x], window, name)
            && name.len() > 0 && well_inside(c, events[x].ts as int) implies exists|i: int|
            0 <= i < calls.len() && (#[trigger] calls[i]).0@ == name by {
            lemma_inside_falls(events, g, window, acc, c, x);
            assert(call_in(g, window, events[x], a, b));
            assert(names.contains(called(events[x])->0));
            let n = choose|n: int| 0 <= n < names.len() && names[n] == name;
            assert(holds(q, n));
            let i = choose|i: int| 0 <= i < q.len() && #[trigger] q[i] == n;
            assert(calls[i].0@ == name);
        }
    }
}

/// A function is told with the time of its calls.
pub open spec fn call_right(
    events: Seq<TraceEvent>,
    c: JankCluster,
    window: Option<(i64, i64)>,
    call: (String, i128),
) -> bool {
    &&& call.0@.len() > 0
    &&& total(events, calls_in(c, window, call.0@, false)) <= call.1
    &&& call.1 <= total(events, calls_in(c, window, call.0@, true))
}

proof fn lemma_small(events: Seq<TraceEvent>, f: spec_fn(TraceEvent) -> int)
    requires
        events.len() <= 0xffff_ffff,
        forall|e: TraceEvent| i64::MIN <= #[trigger] f(e) <= i64::MAX,
    ensures
        i128::MIN <= total(events, f) <= i128::MAX,
{
    crate::analysis::common::lemma_total_bound(events, f);
}

} // verus!
