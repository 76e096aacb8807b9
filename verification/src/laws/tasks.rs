//! What the lists of threads and tasks and the timeline tell of the events that
//! a scope holds.

use vstd::prelude::*;
use crate::analysis::common::total;
use crate::inspect::events::{shown_rows, sorted_events, Sort};
use crate::inspect::group::{named_at, names_at, positions};
use crate::inspect::task::{
    longest_call,
    task_in,
    task_row,
    task_rows,
    top_call_of,
    within,
    TaskRow,
};
use crate::inspect::threads::{
    most_frequent,
    run_keys,
    task_at,
    thread_at,
    thread_row,
    thread_rows,
    tids_at,
    ThreadRow,
};
use crate::inspect::timeline::{bucket_hit, bucket_run, in_bucket, timeline_of, trace_end, Timeline};
use crate::json::{member_opt, str_opt};
use crate::laws::gc::in_scope;
use crate::laws::lists::{
    count_of,
    lasted,
    lemma_all_sums,
    lemma_named_sums,
    lemma_names_all,
    lemma_picked_all,
    lemma_picked_push,
    lemma_positions_all,
    lemma_rows_right,
    lemma_sorted,
    lists_all,
    named,
    names_right,
    picked,
    time_of,
};
use crate::laws::sums::{lemma_total_places, lemma_total_same};
use crate::scope::Scope;
use crate::sort::{comes_before, holds, orders};
use crate::trace::event::TraceEvent;

verus! {

/// The events of a scope on one thread.
pub open spec fn on(scope: Scope, tid: u64) -> spec_fn(TraceEvent) -> bool {
    |e: TraceEvent| in_scope(scope, e) && e.tid == tid
}

/// The tasks of a scope on one thread.
pub open spec fn tasks_on(scope: Scope, tid: u64) -> spec_fn(TraceEvent) -> bool {
    |e: TraceEvent| in_scope(scope, e) && e.tid == tid && e.name@ == "RunTask"@
}

proof fn lemma_thread_picked(events: Seq<TraceEvent>, p: Seq<usize>, tid: u64)
    requires
        forall|i: int, j: int| 0 <= i < j < p.len() ==> (#[trigger] p[i]) < (#[trigger] p[j]),
    ensures
        picked(events, p, thread_at(events, p, tid), |e: TraceEvent| e.tid == tid),
    decreases p.len(),
{
    if p.len() > 0 {
        let t = p.drop_last();
        assert forall|i: int, j: int| 0 <= i < j < t.len() implies (#[trigger] t[i]) < (#[trigger] t[j]) by {
            assert(p[i] < p[j]);
        }
        lemma_thread_picked(events, t, tid);
        lemma_picked_push(events, p, thread_at(events, t, tid), |e: TraceEvent| e.tid == tid);
    }
}

proof fn lemma_tids(events: Seq<TraceEvent>, p: Seq<usize>)
    ensures
        forall|i: int| 0 <= i < p.len() ==> tids_at(events, p).contains(events[#[trigger] p[i] as int].tid),
        forall|i: int, j: int|
            0 <= i < j < tids_at(events, p).len() ==> tids_at(events, p)[i] != tids_at(events, p)[j],
    decreases p.len(),
{
    if p.len() > 0 {
        let t = p.drop_last();
        let before = tids_at(events, t);
        let tids = tids_at(events, p);
        lemma_tids(events, t);
        assert forall|i: int| 0 <= i < p.len() implies tids.contains(events[#[trigger] p[i] as int].tid) by {
            if i < t.len() {
                assert(t[i] == p[i]);
                assert(before.contains(events[t[i] as int].tid));
                let w = choose|w: int| 0 <= w < before.len() && before[w] == events[t[i] as int].tid;
                assert(tids[w] == before[w]);
            } else if !before.contains(events[p.last() as int].tid) {
                assert(tids[before.len() as int] == events[p[i] as int].tid);
            }
        }
        assert forall|i: int, j: int| 0 <= i < j < tids.len() implies tids[i] != tids[j] by {
            assert(tids[i] == before[i]);
            if j < before.len() {
                assert(tids[j] == before[j]);
            } else {
                assert(before.contains(before[i]));
            }
        }
    }
}

/// What a row on a thread tells: how many events of the scope are on it, how
/// long its tasks last together, and a name that no other name outnumbers
/// there.
pub open spec fn thread_right(events: Seq<TraceEvent>, scope: Scope, r: ThreadRow) -> bool {
    &&& r.events == count_of(events, on(scope, r.tid))
    &&& r.run == time_of(events, tasks_on(scope, r.tid))
    &&& count_of(events, named(on(scope, r.tid), r.top_event@)) > 0
    &&& forall|name: Seq<char>|
        #[trigger] count_of(events, named(on(scope, r.tid), name)) <= count_of(
            events,
            named(on(scope, r.tid), r.top_event@),
        )
}

/// The list of threads: each thread of an event in scope, once, those whose
/// tasks take the most time first.
pub proof fn lemma_threads(events: Seq<TraceEvent>, scope: Scope, rows: Seq<ThreadRow>)
    requires
        events.len() <= usize::MAX,
        thread_rows(events, positions(events, crate::inspect::names::in_scope(scope)), rows),
    ensures
        forall|k: int| 0 <= k < rows.len() ==> thread_right(events, scope, #[trigger] rows[k]),
        forall|x: int|
            0 <= x < events.len() && in_scope(scope, #[trigger] events[x]) ==> exists|k: int|
                0 <= k < rows.len() && (#[trigger] rows[k]).tid == events[x].tid,
        forall|i: int, j: int|
            0 <= i < j < rows.len() ==> (#[trigger] rows[i]).tid != (#[trigger] rows[j]).tid && rows[i].run
                >= rows[j].run,
{
    let f = crate::inspect::names::in_scope(scope);
    let kind = |e: TraceEvent| in_scope(scope, e);
    let p = positions(events, f);
    let tids = tids_at(events, p);
    lemma_positions_all(events, f);
    assert(lists_all(events, p, kind));
    lemma_tids(events, p);
    let o = choose|o: Seq<usize>|
        {
            &&& #[trigger] orders(run_keys(events, p), true, o)
            &&& rows.len() == o.len()
            &&& forall|k: int|
                0 <= k < rows.len() ==> thread_row(
                    events,
                    p,
                    tids_at(events, p)[o[k] as int],
                    #[trigger] rows[k],
                )
        };
    assert forall|k: int| 0 <= k < rows.len() implies thread_right(events, scope, #[trigger] rows[k]) by {
        let r = rows[k];
        let part = thread_at(events, p, r.tid);
        lemma_thread_picked(events, p, r.tid);
        lemma_picked_all(
            events,
            p,
            part,
            kind,
            |e: TraceEvent| e.tid == r.tid,
            on(scope, r.tid),
        );
        lemma_all_sums(events, part, on(scope, r.tid));
        lemma_run(events, part, scope, r.tid);
        lemma_frequent(events, part, on(scope, r.tid), r.top_event@);
    }
    assert forall|x: int| 0 <= x < events.len() && in_scope(scope, #[trigger] events[x]) implies exists|k: int|
        0 <= k < rows.len() && (#[trigger] rows[k]).tid == events[x].tid by {
        assert(kind(events[x]));
        assert(holds(p, x));
        let w = choose|w: int| 0 <= w < p.len() && #[trigger] p[w] == x;
        assert(tids.contains(events[p[w] as int].tid));
        let n = choose|n: int| 0 <= n < tids.len() && tids[n] == events[x].tid;
        assert(holds(o, n));
        let k = choose|k: int| 0 <= k < o.len() && #[trigger] o[k] == n;
        assert(rows[k].tid == events[x].tid);
    }
    assert forall|i: int, j: int| 0 <= i < j < rows.len() implies (#[trigger] rows[i]).tid != (
    #[trigger] rows[j]).tid && rows[i].run >= rows[j].run by {
        let keys = run_keys(events, p);
        assert(comes_before(keys, true, o[i] as int, o[j] as int));
        assert(tids[o[i] as int] != tids[o[j] as int]);
        assert(keys[o[i] as int] == rows[i].run);
        assert(keys[o[j] as int] == rows[j].run);
    }
}

proof fn lemma_run(events: Seq<TraceEvent>, part: Seq<usize>, scope: Scope, tid: u64)
    requires
        lists_all(events, part, on(scope, tid)),
    ensures
        total(part, task_at(events)) == time_of(events, tasks_on(scope, tid)),
{
    assert forall|i: int, j: int| 0 <= i < j < part.len() implies (#[trigger] part[i]) != (#[trigger] part[j]) by {}
    let kind = tasks_on(scope, tid);
    lemma_total_places(
        events,
        part,
        on(scope, tid),
        task_at(events),
        |e: TraceEvent|
            if kind(e) {
                lasted(e)
            } else {
                0
            },
    );
}

proof fn lemma_frequent(
    events: Seq<TraceEvent>,
    part: Seq<usize>,
    kind: spec_fn(TraceEvent) -> bool,
    top: Seq<char>,
)
    requires
        lists_all(events, part, kind),
        most_frequent(events, part, top),
    ensures
        count_of(events, named(kind, top)) > 0,
        forall|name: Seq<char>|
            #[trigger] count_of(events, named(kind, name)) <= count_of(events, named(kind, top)),
{
    let names = names_at(events, part);
    lemma_named_sums(events, part, kind, top);
    lemma_names_all(events, part);
    let k = choose|k: int|
        {
            &&& 0 <= k < names.len()
            &&& top == #[trigger] names[k]
            &&& forall|j: int|
                0 <= j < names.len() ==> named_at(events, part, #[trigger] names[j]).len() <= named_at(
                    events,
                    part,
                    top,
                ).len()
            &&& forall|j: int|
                0 <= j < k ==> named_at(events, part, #[trigger] names[j]).len() < named_at(
                    events,
                    part,
                    top,
                ).len()
        };
    crate::inspect::group::lemma_named_some(events, part, k);
    assert forall|name: Seq<char>| #[trigger] count_of(events, named(kind, name)) <= count_of(
        events,
        named(kind, top),
    ) by {
        lemma_named_sums(events, part, kind, name);
        let mine = named_at(events, part, name);
        if mine.len() > 0 {
            assert(named(kind, name)(events[mine[0] as int]));
            assert(kind(events[mine[0] as int]));
            assert(holds(part, mine[0] as int));
            let w = choose|w: int| 0 <= w < part.len() && #[trigger] part[w] == mine[0];
            assert(names.contains(events[part[w] as int].name@));
            let j = choose|j: int| 0 <= j < names.len() && names[j] == name;
            assert(named_at(events, part, names[j]).len() <= named_at(events, part, top).len());
        }
    }
}

/// A task that tells how long it takes, in scope.
pub open spec fn timed_task(scope: Scope) -> spec_fn(TraceEvent) -> bool {
    |e: TraceEvent| e.name@ == "RunTask"@ && e.ph == 88 && e.dur is Some && in_scope(scope, e)
}

/// What starts on the thread of a task and in its time, tasks left out.
pub open spec fn inside(task: TraceEvent) -> spec_fn(TraceEvent) -> bool {
    |e: TraceEvent|
        e.tid == task.tid && e.name@ != "RunTask"@ && task.ts <= e.ts && e.ts <= task.ts + lasted(task)
}

/// The call that a task's row names is one inside the task, no other there
/// takes longer, and only where there is none does the row name none.
pub open spec fn call_right(events: Seq<TraceEvent>, task: TraceEvent, r: Option<(String, i64)>) -> bool {
    match r {
        Some((name, d)) => {
            &&& exists|x: int|
                {
                    &&& 0 <= x < events.len()
                    &&& inside(task)(#[trigger] events[x])
                    &&& events[x].name@ == "FunctionCall"@
                    &&& lasted(events[x]) == d
                    &&& match str_opt(
                        member_opt(member_opt(events[x]@.said(), "data"@), "functionName"@),
                    ) {
                        Some(t) => name@ == t,
                        None => name@.len() == 0,
                    }
                }
            &&& forall|x: int|
                0 <= x < events.len() && inside(task)(#[trigger] events[x]) && events[x].name@
                    == "FunctionCall"@ ==> lasted(events[x]) <= d
        },
        None => forall|x: int|
            0 <= x < events.len() && inside(task)(#[trigger] events[x]) ==> events[x].name@
                != "FunctionCall"@,
    }
}

/// The list of tasks: the longest tasks of the scope, as many as asked for, with
/// what each consists of by name and its longest call.
pub proof fn lemma_tasks(events: Seq<TraceEvent>, scope: Scope, top: usize, rows: Seq<TaskRow>, all: usize)
    requires
        events.len() <= usize::MAX,
        task_rows(events, scope, top, rows, all),
    ensures
        all == count_of(events, timed_task(scope)),
        rows.len() == if top < all {
            top
        } else {
            all
        },
        forall|k: int|
            0 <= k < rows.len() ==> (#[trigger] rows[k]).at < events.len() && timed_task(scope)(
                events[rows[k].at as int],
            ) && names_right(events, inside(events[rows[k].at as int]), rows[k].children@) && call_right(
                events,
                events[rows[k].at as int],
                rows[k].top_call,
            ),
        forall|i: int, j: int|
            0 <= i < j < rows.len() ==> (#[trigger] rows[i]).at != (#[trigger] rows[j]).at && lasted(
                events[rows[i].at as int],
            ) >= lasted(events[rows[j].at as int]),
        forall|x: int, k: int|
            #![trigger events[x], rows[k]]
            0 <= x < events.len() && timed_task(scope)(events[x]) && 0 <= k < rows.len() && lasted(
                events[x],
            ) > lasted(events[rows[k].at as int]) ==> exists|j: int|
                0 <= j < k && (#[trigger] rows[j]).at == x,
{
    let p = positions(events, task_in(scope));
    let kind = timed_task(scope);
    lemma_positions_all(events, task_in(scope));
    assert(lists_all(events, p, kind));
    let q = choose|q: Seq<usize>|
        {
            &&& #[trigger] sorted_events(events, positions(events, task_in(scope)), Sort::Dur, q)
            &&& all == q.len()
            &&& rows.len() == shown_rows(top, q.len())
            &&& forall|k: int| 0 <= k < rows.len() ==> task_row(events, q[k], #[trigger] rows[k])
        };
    lemma_sorted(events, p, kind, Sort::Dur, q);
    assert forall|k: int| 0 <= k < rows.len() implies (#[trigger] rows[k]).at < events.len() && kind(
        events[rows[k].at as int],
    ) && names_right(events, inside(events[rows[k].at as int]), rows[k].children@) && call_right(
        events,
        events[rows[k].at as int],
        rows[k].top_call,
    ) by {
        assert(rows[k].at == q[k]);
        let task = events[q[k] as int];
        let inner = positions(events, within(task));
        lemma_positions_all(events, within(task));
        assert(lists_all(events, inner, inside(task)));
        lemma_rows_right(events, inner, inside(task), Sort::Dur, rows[k].children@);
        lemma_top_call(events, task, inner, rows[k].top_call);
    }
    assert forall|i: int, j: int| 0 <= i < j < rows.len() implies (#[trigger] rows[i]).at != (
    #[trigger] rows[j]).at && lasted(events[rows[i].at as int]) >= lasted(events[rows[j].at as int]) by {
        assert(q[i] != q[j]);
    }
    assert forall|x: int, k: int|
        #![trigger events[x], rows[k]]
        0 <= x < events.len() && kind(events[x]) && 0 <= k < rows.len() && lasted(events[x]) > lasted(
            events[rows[k].at as int],
        ) implies exists|j: int| 0 <= j < k && (#[trigger] rows[j]).at == x by {
        assert(holds(q, x));
        let w = choose|w: int| 0 <= w < q.len() && #[trigger] q[w] == x;
        if w > k {
            assert(q[k] != q[w]);
        }
        assert(w < k);
        assert(rows[w].at == x);
    }
}

proof fn lemma_top_call(events: Seq<TraceEvent>, task: TraceEvent, p: Seq<usize>, r: Option<(String, i64)>)
    requires
        lists_all(events, p, inside(task)),
        top_call_of(events, p, r),
    ensures
        call_right(events, task, r),
{
    match r {
        Some((name, d)) => {
            let k = choose|k: int| #[trigger]
                longest_call(events, p, k) && name@ == crate::analysis::cpu::or_text(
                    crate::windowed::anchor::function_name(events[p[k] as int]),
                    ""@,
                ) && d == crate::analysis::common::dur_of(events[p[k] as int]);
            reveal_strlit("");
            let x = p[k] as int;
            assert(inside(task)(events[x]));
            assert forall|y: int| 0 <= y < events.len() && inside(task)(#[trigger] events[y]) && events[y].name@
                == "FunctionCall"@ implies lasted(events[y]) <= d by {
                assert(holds(p, y));
                let w = choose|w: int| 0 <= w < p.len() && #[trigger] p[w] == y;
                assert(events[p[w] as int].name@ == "FunctionCall"@);
            }
        },
        None => {
            assert forall|y: int| 0 <= y < events.len() && inside(task)(#[trigger] events[y]) implies events[y].name@
                != "FunctionCall"@ by {
                assert(holds(p, y));
                let w = choose|w: int| 0 <= w < p.len() && #[trigger] p[w] == y;
                assert(events[p[w] as int].name@ != "FunctionCall"@);
            }
        },
    }
}

/// The last time that an event of a trace reaches.
pub proof fn lemma_trace_end(events: Seq<TraceEvent>)
    ensures
        0 <= trace_end(events),
        forall|i: int|
            0 <= i < events.len() ==> (#[trigger] events[i]).ts + lasted(events[i]) <= trace_end(events),
        trace_end(events) > 0 ==> exists|i: int|
            0 <= i < events.len() && (#[trigger] events[i]).ts + lasted(events[i]) == trace_end(events),
    decreases events.len(),
{
    if events.len() > 0 {
        let t = events.drop_last();
        lemma_trace_end(t);
        assert forall|i: int| 0 <= i < events.len() implies (#[trigger] events[i]).ts + lasted(events[i])
            <= trace_end(events) by {
            if i < t.len() {
                assert(t[i] == events[i]);
            }
        }
        if trace_end(events) > 0 {
            if trace_end(events) == trace_end(t) {
                let i = choose|i: int|
                    0 <= i < t.len() && (#[trigger] t[i]).ts + lasted(t[i]) == trace_end(t);
                assert(events[i].ts + lasted(events[i]) == trace_end(events));
            } else {
                let i = events.len() - 1;
                assert(events[i].ts + lasted(events[i]) == trace_end(events));
            }
        }
    }
}

/// The events of a scope in a stretch of time.
pub open spec fn between(scope: Scope, from: int, to: int) -> spec_fn(TraceEvent) -> bool {
    |e: TraceEvent| in_scope(scope, e) && from <= e.ts && e.ts < to
}

/// The tasks of a scope in a stretch of time.
pub open spec fn tasks_between(scope: Scope, from: int, to: int) -> spec_fn(TraceEvent) -> bool {
    |e: TraceEvent| in_scope(scope, e) && from <= e.ts && e.ts < to && e.name@ == "RunTask"@
}

/// The stretches of a timeline lie one after the other and take up the whole
/// range, which is the window or else the whole trace. Each is as long as asked
/// for, a microsecond at least, or else a fortieth of the range to the nearest
/// millisecond, no less than ten and no more than five hundred.
pub proof fn lemma_stretches(
    events: Seq<TraceEvent>,
    scope: Scope,
    asked: Option<i64>,
    min_ts: i64,
    t: Timeline,
)
    requires
        timeline_of(events, scope, asked, min_ts, t),
    ensures
        t.plan matches Some(p) ==> {
            &&& p.start < p.end
            &&& scope.window matches Some((lo, hi)) ==> p.start == lo && p.end == hi
            &&& scope.window is None ==> p.start == min_ts && forall|i: int|
                0 <= i < events.len() ==> (#[trigger] events[i]).ts + lasted(events[i]) <= p.end
            &&& t.rows@.len() > 0
            &&& p.start + (t.rows@.len() - 1) * p.bucket < p.end <= p.start + t.rows@.len() * p.bucket
            &&& asked matches Some(b) ==> p.told == b && p.bucket == if b < 1000 {
                1000
            } else {
                b as int
            }
            &&& asked is None ==> {
                &&& p.told == p.bucket && p.bucket % 1_000_000 == 0
                &&& 10_000_000 <= p.bucket <= 500_000_000
                &&& p.bucket > 10_000_000 ==> 40 * p.bucket - 20_000_000 <= p.end - p.start
                &&& p.bucket < 500_000_000 ==> p.end - p.start < 40 * p.bucket + 20_000_000
            }
        },
        t.plan is None ==> match scope.window {
            Some((lo, hi)) => hi <= lo,
            None => forall|i: int|
                0 <= i < events.len() ==> (#[trigger] events[i]).ts + lasted(events[i]) <= min_ts,
        },
{
    lemma_trace_end(events);
    match t.plan {
        Some(p) => {
            let span = p.end - p.start;
            let b = p.bucket as int;
            let n = (span + b - 1) / b;
            assert(b >= 1000);
            assert(n * b <= span + b - 1 < n * b + b) by (nonlinear_arith)
                requires
                    b > 0,
                    n == (span + b - 1) / b,
            ;
            assert((n - 1) * b == n * b - b) by (nonlinear_arith);
            assert(n > 0) by (nonlinear_arith)
                requires
                    span + b - 1 < n * b + b,
                    span > 0,
                    b > 0,
            ;
            assert(t.rows@.len() == n);
        },
        None => {},
    }
}

/// A stretch of a timeline counts the events of the scope that start in it, and
/// tells how long the tasks among them last.
pub proof fn lemma_stretch(
    events: Seq<TraceEvent>,
    scope: Scope,
    asked: Option<i64>,
    min_ts: i64,
    t: Timeline,
    i: int,
)
    requires
        timeline_of(events, scope, asked, min_ts, t),
        0 <= i < t.rows@.len(),
    ensures
        t.plan is Some,
        ({
            let p = t.plan->0;
            let from = p.start + i * p.bucket;
            let to = if p.start + (i + 1) * p.bucket < p.end + 1 {
                p.start + (i + 1) * p.bucket
            } else {
                p.end + 1
            };
            &&& t.rows@[i].events == count_of(events, between(scope, from, to))
            &&& t.rows@[i].run == time_of(events, tasks_between(scope, from, to))
        }),
{
    let p = t.plan->0;
    let b = p.bucket as int;
    let from = p.start + i * b;
    let to = if p.start + (i + 1) * b < p.end + 1 {
        p.start + (i + 1) * b
    } else {
        p.end + 1
    };
    assert(b >= 1000);
    assert forall|e: TraceEvent| #[trigger] in_bucket(e, scope, p, i) <==> in_scope(scope, e) && from <= e.ts
        && e.ts < to by {
        let d = e.ts - p.start;
        assert(d / b == i <==> i * b <= d < i * b + b) by (nonlinear_arith)
            requires
                b > 0,
        ;
        assert((i + 1) * b == i * b + b) by (nonlinear_arith);
        assert(i * b >= 0) by (nonlinear_arith)
            requires
                i >= 0,
                b > 0,
        ;
    }
    let kind = between(scope, from, to);
    let tasks = tasks_between(scope, from, to);
    assert forall|x: int| 0 <= x < events.len() implies bucket_hit(scope, p, i)(#[trigger] events[x]) == (if kind(
        events[x],
    ) {
        1int
    } else {
        0
    }) by {
        assert(in_bucket(events[x], scope, p, i) <==> kind(events[x]));
    }
    lemma_total_same(
        events,
        bucket_hit(scope, p, i),
        |e: TraceEvent|
            if kind(e) {
                1
            } else {
                0
            },
    );
    assert forall|x: int| 0 <= x < events.len() implies bucket_run(scope, p, i)(#[trigger] events[x]) == (if tasks(
        events[x],
    ) {
        lasted(events[x])
    } else {
        0
    }) by {
        assert(in_bucket(events[x], scope, p, i) <==> kind(events[x]));
    }
    lemma_total_same(
        events,
        bucket_run(scope, p, i),
        |e: TraceEvent|
            if tasks(e) {
                lasted(e)
            } else {
                0
            },
    );
}

} // verus!
