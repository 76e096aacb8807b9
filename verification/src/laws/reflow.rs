//! Which layouts are forced, and what is told of the tasks that hold them.

use vstd::prelude::*;
use crate::analysis::common::{earlier, end_of, in_time_order, total};
use crate::analysis::reflow::{
    first_label,
    frame_label,
    initiator_of,
    is_task,
    lays_out,
    reflow_counts,
    reflow_entry,
    reflow_time,
    reflows,
    reflows_of,
    reflows_over,
    runs_script,
    seen_of,
    seen_step,
    thrashing,
    ForcedReflowEntry,
    ForcedReflowResult,
};
use crate::analysis::scroll::starts_within;
use crate::json::{digits_number, items_opt, member, member_opt, JsonView};
use crate::laws::lists::lasted;
use crate::laws::sums::lemma_total_places;
use crate::sort::{comes_before, holds, orders};
use crate::text::{after_slash, decimal};
use crate::trace::event::{opt_chars, TraceEvent};

verus! {

/// A complete event of the thread that lies within the task.
pub open spec fn within_task(task: TraceEvent, tid: u64, e: TraceEvent) -> bool {
    &&& e.tid == tid && e.ph == 88
    &&& task.ts <= e.ts && e.ts <= task.ts + lasted(task)
    &&& e.ts + lasted(e) <= task.ts + lasted(task)
}

/// A script within task `t` that begins before event `x` and still runs then.
pub open spec fn still_runs(events: Seq<TraceEvent>, tid: u64, t: int, x: int, s: int) -> bool {
    let e = events[s];
    &&& 0 <= s < events.len()
    &&& within_task(events[t], tid, e)
    &&& e.name@ == "FunctionCall"@ || e.name@ == "EvaluateScript"@ || e.name@ == "v8.run"@ || e.name@
        == "v8.compile"@
    &&& e.ts < events[x].ts || e.ts == events[x].ts && s < x
    &&& events[x].ts < e.ts + lasted(e)
}

/// A layout or style pass within task `t` that a script forces: one still runs
/// then, or the event names who asked for it.
pub open spec fn forced(events: Seq<TraceEvent>, tid: u64, t: int, x: int) -> bool {
    let e = events[x];
    &&& within_task(events[t], tid, e)
    &&& e.name@ == "Layout"@ || e.name@ == "UpdateLayoutTree"@
    &&& initiator_of(e) is Some || exists|s: int| #[trigger] still_runs(events, tid, t, x, s)
}

/// The places of a trace.
pub open spec fn all_places(n: nat) -> Seq<usize> {
    Seq::new(n, |i: int| i as usize)
}

/// One for each forced layout of a task.
pub open spec fn forced_one(events: Seq<TraceEvent>, tid: u64, t: int) -> spec_fn(usize) -> int {
    |x: usize|
        if forced(events, tid, t, x as int) {
            1
        } else {
            0
        }
}

/// How long each forced layout of a task lasts.
pub open spec fn forced_time(events: Seq<TraceEvent>, tid: u64, t: int) -> spec_fn(usize) -> int {
    |x: usize|
        if forced(events, tid, t, x as int) {
            lasted(events[x as int])
        } else {
            0
        }
}

/// The number of forced layouts of a task.
pub open spec fn forced_count(events: Seq<TraceEvent>, tid: u64, t: int) -> int {
    total(all_places(events.len()), forced_one(events, tid, t))
}

/// The time of the forced layouts of a task.
pub open spec fn forced_total(events: Seq<TraceEvent>, tid: u64, t: int) -> int {
    total(all_places(events.len()), forced_time(events, tid, t))
}

/// A task of the thread that tells how long it takes.
pub open spec fn timed(events: Seq<TraceEvent>, tid: u64, t: int) -> bool {
    &&& 0 <= t < events.len()
    &&& events[t].tid == tid && events[t].ph == 88
    &&& events[t].name@ == "RunTask"@
    &&& events[t].dur is Some
}

proof fn lemma_kinds(name: Seq<char>)
    ensures
        runs_script(name) <==> (name == "FunctionCall"@ || name == "EvaluateScript"@ || name == "v8.run"@ || name
            == "v8.compile"@),
        lays_out(name) <==> (name == "Layout"@ || name == "UpdateLayoutTree"@),
        !(runs_script(name) && lays_out(name)),
{
    reveal_strlit("FunctionCall");
    reveal_strlit("EvaluateScript");
    reveal_strlit("v8.run");
    reveal_strlit("v8.compile");
    reveal_strlit("Layout");
    reveal_strlit("UpdateLayoutTree");
    assert("FunctionCall"@.len() == 12);
    assert("EvaluateScript"@.len() == 14);
    assert("v8.compile"@.len() == 10);
    assert("Layout"@.len() == 6 && "Layout"@[0] == 'L');
    assert("v8.run"@.len() == 6 && "v8.run"@[0] == 'v');
    assert("UpdateLayoutTree"@.len() == 16);
}

/// A script among the first `n` in time order ends after the time `y`.
spec fn script_past(events: Seq<TraceEvent>, p: Seq<usize>, t: int, n: int, y: int, j: int) -> bool {
    let e = events[p[j] as int];
    &&& 0 <= j < n
    &&& starts_within(events[t], e) && end_of(e) <= end_of(events[t])
    &&& runs_script(e.name@)
    &&& y < end_of(e)
}

proof fn lemma_script_end(events: Seq<TraceEvent>, p: Seq<usize>, t: int, n: int, y: int)
    requires
        0 <= n <= p.len(),
        y >= 0,
    ensures
        y < seen_of(events, p, t, n).script_end <==> exists|j: int| #[trigger] script_past(events, p, t, n, y, j),
    decreases n,
{
    if n > 0 {
        lemma_script_end(events, p, t, n - 1, y);
        lemma_kinds(events[p[n - 1] as int].name@);
        if y < seen_of(events, p, t, n).script_end {
            if y < seen_of(events, p, t, n - 1).script_end {
                let j = choose|j: int| #[trigger] script_past(events, p, t, n - 1, y, j);
                assert(script_past(events, p, t, n, y, j));
            } else {
                assert(script_past(events, p, t, n, y, n - 1));
            }
        }
        if exists|j: int| #[trigger] script_past(events, p, t, n, y, j) {
            let j = choose|j: int| #[trigger] script_past(events, p, t, n, y, j);
            if j < n - 1 {
                assert(script_past(events, p, t, n - 1, y, j));
            }
        }
    }
}

proof fn lemma_forced(events: Seq<TraceEvent>, tid: u64, p: Seq<usize>, t: int, n: int)
    requires
        in_time_order(events, tid, p),
        0 < n <= p.len(),
        events[p[n - 1] as int].ts >= 0,
    ensures
        ({
            let x = p[n - 1] as int;
            let e = events[x];
            forced(events, tid, t, x) <==> {
                &&& starts_within(events[t], e) && end_of(e) <= end_of(events[t])
                &&& lays_out(e.name@)
                &&& e.ts < seen_of(events, p, t, n - 1).script_end || initiator_of(e) is Some
            }
        }),
{
    let x = p[n - 1] as int;
    let e = events[x];
    lemma_kinds(e.name@);
    lemma_script_end(events, p, t, n - 1, e.ts as int);
    if exists|s: int| #[trigger] still_runs(events, tid, t, x, s) {
        let s = choose|s: int| #[trigger] still_runs(events, tid, t, x, s);
        assert(holds(p, s));
        let j = choose|j: int| 0 <= j < p.len() && #[trigger] p[j] == s;
        if j > n - 1 {
            assert(earlier(events, p[n - 1] as int, p[j] as int));
        }
        assert(j < n - 1);
        lemma_kinds(events[s].name@);
        assert(script_past(events, p, t, n - 1, e.ts as int, j));
    }
    if exists|j: int| #[trigger] script_past(events, p, t, n - 1, e.ts as int, j) {
        let j = choose|j: int| #[trigger] script_past(events, p, t, n - 1, e.ts as int, j);
        let s = p[j] as int;
        assert(earlier(events, p[j] as int, p[n - 1] as int));
        lemma_kinds(events[s].name@);
        assert(still_runs(events, tid, t, x, s));
    }
}

/// The forced layouts with an initiator, the earliest first.
spec fn asks(events: Seq<TraceEvent>, tid: u64, p: Seq<usize>, t: int, n: int, j: int) -> bool {
    &&& 0 <= j < n
    &&& forced(events, tid, t, p[j] as int)
    &&& initiator_of(events[p[j] as int]) is Some
}

proof fn lemma_seen(events: Seq<TraceEvent>, tid: u64, p: Seq<usize>, t: int, n: int)
    requires
        in_time_order(events, tid, p),
        0 <= n <= p.len(),
        forall|x: int| 0 <= x < events.len() ==> (#[trigger] events[x]).ts >= 0,
    ensures
        seen_of(events, p, t, n).count == total(p.take(n), forced_one(events, tid, t)),
        seen_of(events, p, t, n).time == total(p.take(n), forced_time(events, tid, t)),
        seen_of(events, p, t, n).init is None ==> forall|j: int| !#[trigger] asks(events, tid, p, t, n, j),
        seen_of(events, p, t, n).init is Some ==> exists|j: int|
            {
                &&& #[trigger] asks(events, tid, p, t, n, j)
                &&& seen_of(events, p, t, n).init == initiator_of(events[p[j] as int])
                &&& forall|i: int| 0 <= i < j ==> !#[trigger] asks(events, tid, p, t, n, i)
            },
    decreases n,
{
    if n > 0 {
        lemma_seen(events, tid, p, t, n - 1);
        let x = p[n - 1] as int;
        assert(x < events.len());
        lemma_forced(events, tid, p, t, n);
        lemma_kinds(events[x].name@);
        assert(p.take(n).drop_last() =~= p.take(n - 1));
        assert(p.take(n).last() == p[n - 1]);
        let was = seen_of(events, p, t, n - 1);
        let now = seen_of(events, p, t, n);
        assert(now == seen_step(events[t], events[x], was));
        assert forall|j: int| 0 <= j < n - 1 implies asks(events, tid, p, t, n - 1, j) == #[trigger] asks(
            events,
            tid,
            p,
            t,
            n,
            j,
        ) by {}
        if was.init is Some {
            let j = choose|j: int|
                {
                    &&& #[trigger] asks(events, tid, p, t, n - 1, j)
                    &&& was.init == initiator_of(events[p[j] as int])
                    &&& forall|i: int| 0 <= i < j ==> !#[trigger] asks(events, tid, p, t, n - 1, i)
                };
            assert(asks(events, tid, p, t, n, j));
            assert forall|i: int| 0 <= i < j implies !#[trigger] asks(events, tid, p, t, n, i) by {
                assert(!asks(events, tid, p, t, n - 1, i));
            }
        } else {
            assert forall|i: int| 0 <= i < n - 1 implies !#[trigger] asks(events, tid, p, t, n, i) by {
                assert(!asks(events, tid, p, t, n - 1, i));
            }
            if now.init is Some {
                assert(asks(events, tid, p, t, n, n - 1));
            } else {
                assert forall|j: int| !#[trigger] asks(events, tid, p, t, n, j) by {
                    if asks(events, tid, p, t, n, j) {
                        assert(j == n - 1);
                    }
                }
            }
        }
    }
}

/// The figures of a task, over all its forced layouts.
proof fn lemma_figures(events: Seq<TraceEvent>, tid: u64, p: Seq<usize>, t: int)
    requires
        events.len() <= usize::MAX,
        in_time_order(events, tid, p),
        forall|x: int| 0 <= x < events.len() ==> (#[trigger] events[x]).ts >= 0,
    ensures
        seen_of(events, p, t, p.len() as int).count == forced_count(events, tid, t),
        seen_of(events, p, t, p.len() as int).time == forced_total(events, tid, t),
{
    lemma_seen(events, tid, p, t, p.len() as int);
    assert(p.take(p.len() as int) =~= p);
    let all = all_places(events.len());
    let listed = |x: usize| holds(p, x as int);
    assert forall|i: int, j: int| 0 <= i < j < p.len() implies (#[trigger] p[i]) != (#[trigger] p[j]) by {
        assert(earlier(events, p[i] as int, p[j] as int));
    }
    assert forall|i: int| 0 <= i < p.len() implies (#[trigger] p[i]) < all.len() && listed(all[p[i] as int])
        && all[p[i] as int] == p[i] by {
        assert(holds(p, p[i] as int));
    }
    assert forall|x: int| 0 <= x < all.len() && !listed(#[trigger] all[x]) implies !forced(events, tid, t, x) by {
        if forced(events, tid, t, x) {
            assert(holds(p, x));
        }
    }
    lemma_total_places(all, p, listed, forced_one(events, tid, t), forced_one(events, tid, t));
    lemma_total_places(all, p, listed, forced_time(events, tid, t), forced_time(events, tid, t));
}

/// What an entry tells of a task: how long it takes, how many layouts are
/// forced in it, at least two, how long those last, and who asked for the
/// earliest of them that says so.
pub open spec fn entry_right(events: Seq<TraceEvent>, tid: u64, t: int, r: ForcedReflowEntry) -> bool {
    &&& timed(events, tid, t)
    &&& r.task_dur == lasted(events[t])
    &&& r.reflow_count == forced_count(events, tid, t)
    &&& r.reflow_count >= 2
    &&& r.layout_time == forced_total(events, tid, t)
    &&& r.initiator is None ==> forall|x: int|
        0 <= x < events.len() && #[trigger] forced(events, tid, t, x) ==> initiator_of(events[x]) is None
    &&& r.initiator is Some ==> exists|x: int|
        {
            &&& 0 <= x < events.len()
            &&& #[trigger] forced(events, tid, t, x)
            &&& opt_chars(r.initiator) == initiator_of(events[x])
            &&& forall|y: int|
                0 <= y < events.len() && #[trigger] forced(events, tid, t, y) && initiator_of(
                    events[y],
                ) is Some ==> events[x].ts <= events[y].ts
        }
}

/// The entry is that of a task.
pub open spec fn of_some_task(events: Seq<TraceEvent>, tid: u64, r: ForcedReflowEntry) -> bool {
    exists|t: int| #[trigger] entry_right(events, tid, t, r)
}

proof fn lemma_entry(events: Seq<TraceEvent>, tid: u64, p: Seq<usize>, t: int, r: ForcedReflowEntry)
    requires
        events.len() <= usize::MAX,
        in_time_order(events, tid, p),
        forall|x: int| 0 <= x < events.len() ==> (#[trigger] events[x]).ts >= 0,
        timed(events, tid, t),
        reflow_entry(events, p, t, r),
        r.reflow_count >= 2,
    ensures
        entry_right(events, tid, t, r),
{
    let n = p.len() as int;
    lemma_seen(events, tid, p, t, n);
    lemma_figures(events, tid, p, t);
    assert forall|y: int| 0 <= y < events.len() && #[trigger] forced(events, tid, t, y) && initiator_of(
        events[y],
    ) is Some implies exists|j: int| #[trigger] asks(events, tid, p, t, n, j) && p[j] == y by {
        assert(holds(p, y));
        let j = choose|j: int| 0 <= j < p.len() && #[trigger] p[j] == y;
        assert(asks(events, tid, p, t, n, j));
    }
    if r.initiator is Some {
        let j = choose|j: int|
            {
                &&& #[trigger] asks(events, tid, p, t, n, j)
                &&& seen_of(events, p, t, n).init == initiator_of(events[p[j] as int])
                &&& forall|i: int| 0 <= i < j ==> !#[trigger] asks(events, tid, p, t, n, i)
            };
        let x = p[j] as int;
        assert(forced(events, tid, t, x));
        assert forall|y: int| 0 <= y < events.len() && #[trigger] forced(events, tid, t, y) && initiator_of(
            events[y],
        ) is Some implies events[x].ts <= events[y].ts by {
            let i = choose|i: int| #[trigger] asks(events, tid, p, t, n, i) && p[i] == y;
            if i > j {
                assert(earlier(events, p[j] as int, p[i] as int));
            }
        }
    }
}

proof fn lemma_thrashing(events: Seq<TraceEvent>, tid: u64, p: Seq<usize>, n: int)
    requires
        in_time_order(events, tid, p),
        0 <= n <= p.len(),
    ensures
        forall|i: int|
            0 <= i < thrashing(events, p, n).len() ==> timed(
                events,
                tid,
                #[trigger] thrashing(events, p, n)[i] as int,
            ) && seen_of(events, p, thrashing(events, p, n)[i] as int, p.len() as int).count >= 2,
        forall|j: int|
            0 <= j < n && is_task(events, #[trigger] p[j] as int) && seen_of(
                events,
                p,
                p[j] as int,
                p.len() as int,
            ).count >= 2 ==> holds(thrashing(events, p, n), p[j] as int),
    decreases n,
{
    if n > 0 {
        lemma_thrashing(events, tid, p, n - 1);
        let before = thrashing(events, p, n - 1);
        let list = thrashing(events, p, n);
        let x = p[n - 1] as int;
        assert(x < events.len());
        assert forall|i: int| 0 <= i < list.len() implies timed(events, tid, #[trigger] list[i] as int) && seen_of(
            events,
            p,
            list[i] as int,
            p.len() as int,
        ).count >= 2 by {
            if i < before.len() {
                assert(list[i] == before[i]);
            }
        }
        assert forall|j: int| 0 <= j < n && is_task(events, #[trigger] p[j] as int) && seen_of(
            events,
            p,
            p[j] as int,
            p.len() as int,
        ).count >= 2 implies holds(list, p[j] as int) by {
            if j < n - 1 {
                assert(holds(before, p[j] as int));
                let w = choose|w: int| 0 <= w < before.len() && #[trigger] before[w] == p[j];
                assert(list[w] == p[j]);
            } else {
                assert(list[before.len() as int] == p[j]);
            }
        }
    }
}

/// The figures of every task, one after the other.
pub open spec fn task_forced(events: Seq<TraceEvent>, tid: u64) -> spec_fn(usize) -> int {
    |t: usize|
        if timed(events, tid, t as int) {
            forced_count(events, tid, t as int)
        } else {
            0
        }
}

/// The times of every task, one after the other.
pub open spec fn task_forced_time(events: Seq<TraceEvent>, tid: u64) -> spec_fn(usize) -> int {
    |t: usize|
        if timed(events, tid, t as int) {
            forced_total(events, tid, t as int)
        } else {
            0
        }
}

proof fn lemma_sums(events: Seq<TraceEvent>, tid: u64, p: Seq<usize>, n: int)
    requires
        events.len() <= usize::MAX,
        in_time_order(events, tid, p),
        0 <= n <= p.len(),
        forall|x: int| 0 <= x < events.len() ==> (#[trigger] events[x]).ts >= 0,
    ensures
        reflows(events, p, n) == total(p.take(n), task_forced(events, tid)),
        reflow_time(events, p, n) == total(p.take(n), task_forced_time(events, tid)),
    decreases n,
{
    if n > 0 {
        lemma_sums(events, tid, p, n - 1);
        let x = p[n - 1] as int;
        assert(x < events.len());
        lemma_figures(events, tid, p, x);
        assert(p.take(n).drop_last() =~= p.take(n - 1));
        assert(p.take(n).last() == p[n - 1]);
        assert(is_task(events, x) <==> timed(events, tid, x));
    }
}

/// The report on forced layouts: the totals are over all tasks of the thread,
/// every task with at least two has an entry, and the entries with the most come
/// first. Times are not below zero.
pub proof fn lemma_reflows(events: Seq<TraceEvent>, tid: u64, r: ForcedReflowResult)
    requires
        events.len() <= usize::MAX,
        forall|x: int| 0 <= x < events.len() ==> (#[trigger] events[x]).ts >= 0,
        reflows_of(events, tid, r),
    ensures
        r.total_reflows == total(all_places(events.len()), task_forced(events, tid)),
        r.total_layout_time == total(all_places(events.len()), task_forced_time(events, tid)),
        forall|k: int|
            0 <= k < r.entries@.len() ==> of_some_task(events, tid, #[trigger] r.entries@[k]),
        forall|t: int|
            timed(events, tid, t) && #[trigger] forced_count(events, tid, t) >= 2 ==> exists|k: int|
                0 <= k < r.entries@.len() && entry_right(events, tid, t, #[trigger] r.entries@[k]),
        forall|i: int, j: int|
            0 <= i < j < r.entries@.len() ==> (#[trigger] r.entries@[i]).reflow_count >= (
            #[trigger] r.entries@[j]).reflow_count,
{
    let p = choose|p: Seq<usize>| #[trigger] in_time_order(events, tid, p) && reflows_over(events, p, r);
    let n = p.len() as int;
    let list = thrashing(events, p, n);
    let keys = reflow_counts(events, p, list);
    let q = choose|q: Seq<usize>|
        {
            &&& #[trigger] orders(reflow_counts(events, p, list), true, q)
            &&& r.entries@.len() == q.len()
            &&& forall|i: int|
                0 <= i < q.len() ==> reflow_entry(
                    events,
                    p,
                    list[q[i] as int] as int,
                    #[trigger] r.entries@[i],
                )
        };
    lemma_thrashing(events, tid, p, n);
    lemma_sums(events, tid, p, n);
    assert(p.take(n) =~= p);
    let all = all_places(events.len());
    let listed = |x: usize| holds(p, x as int);
    assert forall|i: int, j: int| 0 <= i < j < p.len() implies (#[trigger] p[i]) != (#[trigger] p[j]) by {
        assert(earlier(events, p[i] as int, p[j] as int));
    }
    assert forall|i: int| 0 <= i < p.len() implies (#[trigger] p[i]) < all.len() && listed(all[p[i] as int])
        && all[p[i] as int] == p[i] by {
        assert(holds(p, p[i] as int));
    }
    assert forall|x: int| 0 <= x < all.len() && !listed(#[trigger] all[x]) implies !timed(events, tid, x) by {
        if timed(events, tid, x) {
            assert(holds(p, x));
        }
    }
    lemma_total_places(all, p, listed, task_forced(events, tid), task_forced(events, tid));
    lemma_total_places(all, p, listed, task_forced_time(events, tid), task_forced_time(events, tid));
    assert forall|k: int| 0 <= k < r.entries@.len() implies of_some_task(
        events,
        tid,
        #[trigger] r.entries@[k],
    ) by {
        let t = list[q[k] as int] as int;
        lemma_entry(events, tid, p, t, r.entries@[k]);
        assert(entry_right(events, tid, t, r.entries@[k]));
    }
    assert forall|t: int| timed(events, tid, t) && #[trigger] forced_count(events, tid, t) >= 2 implies exists|
        k: int,
    | 0 <= k < r.entries@.len() && entry_right(events, tid, t, #[trigger] r.entries@[k]) by {
        lemma_figures(events, tid, p, t);
        assert(holds(p, t));
        let j = choose|j: int| 0 <= j < p.len() && #[trigger] p[j] == t;
        assert(is_task(events, p[j] as int));
        assert(holds(list, t));
        let m = choose|m: int| 0 <= m < list.len() && #[trigger] list[m] == t;
        assert(holds(q, m));
        let k = choose|k: int| 0 <= k < q.len() && #[trigger] q[k] == m;
        lemma_entry(events, tid, p, t, r.entries@[k]);
        assert(entry_right(events, tid, t, r.entries@[k]));
    }
    assert forall|i: int, j: int| 0 <= i < j < r.entries@.len() implies (#[trigger] r.entries@[i]).reflow_count >= (
    #[trigger] r.entries@[j]).reflow_count by {
        assert(comes_before(keys, true, q[i] as int, q[j] as int));
        assert(keys[q[i] as int] == r.entries@[i].reflow_count);
        assert(keys[q[j] as int] == r.entries@[j].reflow_count);
    }
}

/// A frame of a stack that tells neither its function nor both file and line.
pub open spec fn says_nothing(frame: JsonView) -> bool {
    &&& forall|s: Seq<char>|
        member(frame, "functionName"@) == Some(JsonView::Str(s)) ==> #[trigger] s.len() == 0
    &&& forall|s: Seq<char>|
        member(frame, "url"@) == Some(JsonView::Str(s)) ==> #[trigger] after_slash(s).len() == 0
}

/// Who asked for a layout is the first frame of its stack that says so: the
/// function with file and line where there are both, or else what there is.
pub proof fn lemma_initiator(e: TraceEvent, frames: Seq<JsonView>, k: int, func: Seq<char>, url: Seq<char>, line: Seq<char>, l: u64)
    requires
        member_opt(member_opt(e@.said(), "beginData"@), "stackTrace"@) == Some(JsonView::Arr(frames)),
        0 <= k < frames.len(),
        forall|j: int| 0 <= j < k ==> says_nothing(#[trigger] frames[j]),
        func.len() > 0,
    ensures
        member(frames[k], "functionName"@) == Some(JsonView::Str(func)) && member(frames[k], "lineNumber"@) is None
            ==> initiator_of(e) == Some(func),
        after_slash(url).len() > 0 && digits_number(line) == Some(l) && member(frames[k], "url"@) == Some(
            JsonView::Str(url),
        ) && member(frames[k], "lineNumber"@) == Some(JsonView::Number(line)) ==> {
            &&& member(frames[k], "functionName"@) is None ==> initiator_of(e) == Some(
                after_slash(url) + ":"@ + decimal(l as nat),
            )
            &&& member(frames[k], "functionName"@) == Some(JsonView::Str(func)) ==> initiator_of(e) == Some(
                func + " ("@ + after_slash(url) + ":"@ + decimal(l as nat) + ")"@,
            )
        },
{
    assert(items_opt(member_opt(member_opt(e@.said(), "beginData"@), "stackTrace"@)) == Some(frames));
    lemma_first_label(frames, k);
}

proof fn lemma_first_label(frames: Seq<JsonView>, k: int)
    requires
        0 <= k < frames.len(),
        forall|j: int| 0 <= j < k ==> says_nothing(#[trigger] frames[j]),
    ensures
        frame_label(frames[k]) is Some ==> first_label(frames) == frame_label(frames[k]),
    decreases k,
{
    if k > 0 {
        let rest = frames.drop_first();
        assert(frame_label(frames[0]) is None) by {
            assert(says_nothing(frames[0]));
            match member(frames[0], "functionName"@) {
                Some(JsonView::Str(s)) => {
                    assert(s.len() == 0);
                },
                _ => {},
            }
            match member(frames[0], "url"@) {
                Some(JsonView::Str(s)) => {
                    assert(after_slash(s).len() == 0);
                },
                _ => {},
            }
        }
        assert forall|j: int| 0 <= j < k - 1 implies says_nothing(#[trigger] rest[j]) by {
            assert(rest[j] == frames[j + 1]);
        }
        lemma_first_label(rest, k - 1);
    }
}

} // verus!
