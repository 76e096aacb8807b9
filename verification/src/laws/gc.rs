//! What one more event changes in the reports on collections, long tasks and
//! frames, and which events a scope holds.

use vstd::prelude::*;
use crate::analysis::common::{lemma_percentiles_ascend, percentile, percentile_index, total};
use crate::laws::sums::{lemma_largest_insert, lemma_total_insert};
use crate::scope::{allows, Scope};
use crate::sort::{comes_before, holds, lemma_order_unique, orders};
use crate::text::{has_prefix, has_sub, lowercased};
use crate::trace::event::TraceEvent;
use crate::windowed::frames::{frames_of, last_open, pairing, spread_of, FrameStats, Spread};
use crate::windowed::gc::{
    group_figures,
    group_hit,
    group_time,
    long_list,
    long_time,
    report_over,
    GcGroup,
    GcReport,
};

verus! {

/// The event starts in the window and is of the thread, the process and the
/// category that are asked for, as far as any is.
pub open spec fn in_scope(s: Scope, e: TraceEvent) -> bool {
    &&& s.window matches Some((lo, hi)) ==> lo <= e.ts && e.ts <= hi
    &&& s.tid matches Some(t) ==> e.tid == t
    &&& s.pid matches Some(p) ==> e.pid == p
    &&& s.cat matches Some(c) ==> (e.cat matches Some(own) && has_sub(lowercased(own@), c@))
}

/// A scope holds an event exactly where window, thread, process and category
/// all do.
pub proof fn lemma_scope(s: Scope, e: TraceEvent)
    ensures
        allows(s, e) <==> in_scope(s, e),
{
}

/// One more event in a group.
pub open spec fn one_more(a: GcGroup, b: GcGroup, d: int) -> bool {
    &&& b.count == a.count + 1
    &&& b.total == a.total + d
    &&& b.max == if d > a.max {
        d
    } else {
        a.max as int
    }
}

/// The figures of a group are the same.
pub open spec fn no_more(a: GcGroup, b: GcGroup) -> bool {
    b.count == a.count && b.total == a.total && b.max == a.max
}

proof fn lemma_group(events: Seq<TraceEvent>, k: int, e: TraceEvent, scope: Scope, g: int, a: GcGroup, b: GcGroup)
    requires
        0 <= k <= events.len(),
        group_figures(events, scope, g, a),
        group_figures(events.insert(k, e), scope, g, b),
    ensures
        b.count == a.count + group_hit(scope, g)(e),
        b.total == a.total + group_time(scope, g)(e),
        b.max == if group_time(scope, g)(e) > a.max {
            group_time(scope, g)(e)
        } else {
            a.max as int
        },
        a.max >= 0,
{
    lemma_total_insert(events, k, e, group_hit(scope, g));
    lemma_total_insert(events, k, e, group_time(scope, g));
    lemma_largest_insert(events, k, e, group_time(scope, g));
    crate::laws::sums::lemma_largest(events, group_time(scope, g));
}

proof fn lemma_groups(
    events: Seq<TraceEvent>,
    k: int,
    e: TraceEvent,
    scope: Scope,
    tid: u64,
    limit: i64,
    a: GcReport,
    b: GcReport,
)
    requires
        0 <= k <= events.len(),
        report_over(events, scope, tid, limit, a),
        report_over(events.insert(k, e), scope, tid, limit, b),
    ensures
        forall|g: int|
            0 <= g < 3 ==> {
                &&& (#[trigger] b.groups@[g]).count == a.groups@[g].count + group_hit(scope, g)(e)
                &&& b.groups@[g].total == a.groups@[g].total + group_time(scope, g)(e)
                &&& b.groups@[g].max == if group_time(scope, g)(e) > a.groups@[g].max {
                    group_time(scope, g)(e)
                } else {
                    a.groups@[g].max as int
                }
                &&& a.groups@[g].max >= 0
            },
        a.groups@.len() == 3,
        b.groups@.len() == 3,
        b.long_total == a.long_total + long_time(scope, tid, limit)(e),
        b.long_tasks@.len() == a.long_tasks@.len() + long_list(seq![e], scope, tid, limit).len(),
{
    assert forall|g: int| 0 <= g < 3 implies {
        &&& (#[trigger] b.groups@[g]).count == a.groups@[g].count + group_hit(scope, g)(e)
        &&& b.groups@[g].total == a.groups@[g].total + group_time(scope, g)(e)
        &&& b.groups@[g].max == if group_time(scope, g)(e) > a.groups@[g].max {
            group_time(scope, g)(e)
        } else {
            a.groups@[g].max as int
        }
        &&& a.groups@[g].max >= 0
    } by {
        assert(group_figures(events, scope, g, a.groups@[g]));
        lemma_group(events, k, e, scope, g, a.groups@[g], b.groups@[g]);
    }
    lemma_total_insert(events, k, e, long_time(scope, tid, limit));
    lemma_long_insert(events, k, e, scope, tid, limit);
}

proof fn lemma_long_insert(
    events: Seq<TraceEvent>,
    k: int,
    e: TraceEvent,
    scope: Scope,
    tid: u64,
    limit: i64,
)
    requires
        0 <= k <= events.len(),
    ensures
        long_list(events.insert(k, e), scope, tid, limit).len() == long_list(
            events,
            scope,
            tid,
            limit,
        ).len() + long_list(seq![e], scope, tid, limit).len(),
    decreases events.len(),
{
    let more = events.insert(k, e);
    assert(seq![e].drop_last() =~= Seq::<TraceEvent>::empty());
    assert(long_list(seq![e].drop_last(), scope, tid, limit) =~= Seq::<i128>::empty());
    if k == events.len() {
        assert(more.drop_last() =~= events);
        assert(more.last() == e);
    } else {
        lemma_long_insert(events.drop_last(), k, e, scope, tid, limit);
        assert(more.drop_last() =~= events.drop_last().insert(k, e));
        assert(more.last() == events.last());
    }
}

proof fn lemma_gc_names()
    ensures
        "MajorGC"@ != "MinorGC"@,
        "MajorGC"@ != "V8.GCScavenger"@,
        "MinorGC"@ != "V8.GCScavenger"@,
        "RunTask"@ != "MajorGC"@,
        "RunTask"@ != "MinorGC"@,
        "RunTask"@ != "V8.GCScavenger"@,
        !has_prefix("RunTask"@, "V8.GC"@),
        !has_prefix("RunTask"@, "CppGC"@),
{
    reveal_strlit("MajorGC");
    reveal_strlit("MinorGC");
    reveal_strlit("V8.GCScavenger");
    reveal_strlit("RunTask");
    reveal_strlit("V8.GC");
    reveal_strlit("CppGC");
    assert("MajorGC"@[0] == 'M' && "MajorGC"@[1] == 'a' && "MinorGC"@[1] == 'i' && "RunTask"@[0] == 'R'
        && "V8.GCScavenger"@[0] == 'V' && "MinorGC"@[0] == 'M');
    assert("V8.GC"@[0] == 'V' && "CppGC"@[0] == 'C');
}

/// A complete collection that the scope holds counts in its own group with its
/// duration: major ones, minor ones and scavenges, and other work of the
/// collectors. It counts in no other, and is no long task.
pub proof fn lemma_collection(
    events: Seq<TraceEvent>,
    k: int,
    e: TraceEvent,
    d: i64,
    scope: Scope,
    tid: u64,
    limit: i64,
    a: GcReport,
    b: GcReport,
)
    requires
        0 <= k <= events.len(),
        in_scope(scope, e),
        e.ph == 88,
        e.dur == Some(d),
        e.name@ == "MajorGC"@ || e.name@ == "MinorGC"@ || has_prefix(e.name@, "V8.GC"@) || has_prefix(
            e.name@,
            "CppGC"@,
        ),
        report_over(events, scope, tid, limit, a),
        report_over(events.insert(k, e), scope, tid, limit, b),
    ensures
        ({
            let g: int = if e.name@ == "MajorGC"@ {
                0
            } else if e.name@ == "MinorGC"@ || e.name@ == "V8.GCScavenger"@ {
                1
            } else {
                2
            };
            &&& one_more(a.groups@[g], b.groups@[g], d as int)
            &&& g != 0 ==> no_more(a.groups@[0], b.groups@[0])
            &&& g != 1 ==> no_more(a.groups@[1], b.groups@[1])
            &&& g != 2 ==> no_more(a.groups@[2], b.groups@[2])
        }),
        b.long_total == a.long_total,
        b.long_tasks@.len() == a.long_tasks@.len(),
{
    lemma_gc_names();
    lemma_groups(events, k, e, scope, tid, limit, a, b);
    assert(seq![e].drop_last() =~= Seq::<TraceEvent>::empty());
    assert(long_list(seq![e].drop_last(), scope, tid, limit) =~= Seq::<i128>::empty());
    assert(b.groups@[0].count >= 0 && b.groups@[1].count >= 0 && b.groups@[2].count >= 0);
}

/// A complete task of the main thread that the scope holds is a long task where
/// it takes at least the limit, and it is no collection.
pub proof fn lemma_task(
    events: Seq<TraceEvent>,
    k: int,
    e: TraceEvent,
    d: i64,
    scope: Scope,
    tid: u64,
    limit: i64,
    a: GcReport,
    b: GcReport,
)
    requires
        0 <= k <= events.len(),
        in_scope(scope, e),
        e.ph == 88,
        e.dur == Some(d),
        e.name@ == "RunTask"@,
        e.tid == tid,
        report_over(events, scope, tid, limit, a),
        report_over(events.insert(k, e), scope, tid, limit, b),
    ensures
        d >= limit ==> b.long_total == a.long_total + d && b.long_tasks@.len() == a.long_tasks@.len() + 1,
        d < limit ==> b.long_total == a.long_total && b.long_tasks@.len() == a.long_tasks@.len(),
        no_more(a.groups@[0], b.groups@[0]),
        no_more(a.groups@[1], b.groups@[1]),
        no_more(a.groups@[2], b.groups@[2]),
{
    lemma_gc_names();
    lemma_groups(events, k, e, scope, tid, limit, a, b);
    assert(seq![e].drop_last() =~= Seq::<TraceEvent>::empty());
    assert(seq![e].last() == e);
    assert(long_list(seq![e].drop_last(), scope, tid, limit) =~= Seq::<i128>::empty());
    assert(b.groups@[0].count >= 0 && b.groups@[1].count >= 0 && b.groups@[2].count >= 0);
}

/// An event that the scope does not hold, that is not complete, or that is
/// neither a collection nor a task of the main thread changes nothing.
pub proof fn lemma_not_reported(
    events: Seq<TraceEvent>,
    k: int,
    e: TraceEvent,
    scope: Scope,
    tid: u64,
    limit: i64,
    a: GcReport,
    b: GcReport,
)
    requires
        0 <= k <= events.len(),
        !in_scope(scope, e) || e.ph != 88 || (e.name@ != "MajorGC"@ && e.name@ != "MinorGC"@ && e.name@
            != "V8.GCScavenger"@ && !has_prefix(e.name@, "V8.GC"@) && !has_prefix(e.name@, "CppGC"@)
            && (e.name@ != "RunTask"@ || e.tid != tid)),
        report_over(events, scope, tid, limit, a),
        report_over(events.insert(k, e), scope, tid, limit, b),
    ensures
        no_more(a.groups@[0], b.groups@[0]),
        no_more(a.groups@[1], b.groups@[1]),
        no_more(a.groups@[2], b.groups@[2]),
        b.long_total == a.long_total,
        b.long_tasks@.len() == a.long_tasks@.len(),
{
    lemma_groups(events, k, e, scope, tid, limit, a, b);
    assert(seq![e].drop_last() =~= Seq::<TraceEvent>::empty());
    assert(seq![e].last() == e);
    assert(long_list(seq![e].drop_last(), scope, tid, limit) =~= Seq::<i128>::empty());
    assert(b.groups@[0].count >= 0 && b.groups@[1].count >= 0 && b.groups@[2].count >= 0);
}

/// A begin of a frame and its end on the same thread, both in the window, are a
/// frame that lasts from one to the other.
pub proof fn lemma_frame(
    events: Seq<TraceEvent>,
    x: TraceEvent,
    y: TraceEvent,
    scope: Scope,
    name: Seq<char>,
    a: FrameStats,
    b: FrameStats,
)
    requires
        frames_of(events, scope, name, a),
        frames_of(events.push(x).push(y), scope, name, b),
        x.name@ == name,
        y.name@ == name,
        x.ph == 98,
        y.ph == 101,
        x.tid == y.tid,
        x.ts < y.ts,
        scope.window matches Some((lo, hi)) ==> lo <= x.ts && y.ts <= hi,
    ensures
        b.spread.count == a.spread.count + 1,
        b.spread.sum == a.spread.sum + (y.ts - x.ts),
        b.spread.max >= y.ts - x.ts,
{
    let w = scope.window;
    let p = pairing(events, name, w);
    let one = events.push(x);
    let two = one.push(y);
    assert(one.drop_last() =~= events);
    assert(two.drop_last() =~= one);
    let q = pairing(one, name, w);
    assert(q.open == p.open.push((x.tid, x.ts)) && q.durs == p.durs);
    assert(last_open(q.open, y.tid) == Some(q.open.len() - 1));
    let r = pairing(two, name, w);
    let d = (y.ts - x.ts) as i128;
    assert(r.durs == p.durs.push(d));
    assert(p.durs.push(d).drop_last() =~= p.durs);
    lemma_largest_last(r.durs, b.spread);
    assert(r.durs[r.durs.len() - 1] == d);
}

/// An event of another name, outside the window, or neither begin nor end of a
/// frame leaves the frames as they are.
pub proof fn lemma_no_frame(
    events: Seq<TraceEvent>,
    x: TraceEvent,
    scope: Scope,
    name: Seq<char>,
    a: FrameStats,
    b: FrameStats,
)
    requires
        frames_of(events, scope, name, a),
        frames_of(events.push(x), scope, name, b),
        x.name@ != name || (x.ph != 98 && x.ph != 101) || (scope.window matches Some((lo, hi)) && (x.ts
            < lo || hi < x.ts)) || x.ph == 98,
    ensures
        b.spread.count == a.spread.count,
        b.spread.sum == a.spread.sum,
        b.spread.max == a.spread.max,
{
    let w = scope.window;
    assert(events.push(x).drop_last() =~= events);
    let p = pairing(events, name, w);
    let q = pairing(events.push(x), name, w);
    assert(q.durs == p.durs);
    lemma_one_percentile(p.durs, 100, a.spread.max as int, b.spread.max as int);
}

proof fn lemma_one_percentile(durs: Seq<i128>, pct: int, v: int, w: int)
    requires
        percentile(durs, pct, v),
        percentile(durs, pct, w),
    ensures
        v == w,
{
    if durs.len() > 0 {
        let k = percentile_index(durs.len() as int, pct);
        let p = choose|p: Seq<usize>| #[trigger] orders(durs, false, p) && v == durs[p[k] as int];
        let q = choose|q: Seq<usize>| #[trigger] orders(durs, false, q) && w == durs[q[k] as int];
        lemma_order_unique(durs, false, p, q);
    }
}

/// The longest is no shorter than any, and is one of them.
pub proof fn lemma_largest_last(durs: Seq<i128>, s: Spread)
    requires
        spread_of(durs, s),
    ensures
        forall|i: int| 0 <= i < durs.len() ==> (#[trigger] durs[i]) <= s.max,
        durs.len() > 0 ==> durs.contains(s.max),
        s.p50 <= s.p90 <= s.p99 <= s.max,
{
    lemma_percentiles_ascend(durs, 50, 90, s.p50 as int, s.p90 as int);
    lemma_percentiles_ascend(durs, 90, 99, s.p90 as int, s.p99 as int);
    lemma_percentiles_ascend(durs, 99, 100, s.p99 as int, s.max as int);
    if durs.len() > 0 {
        let n = durs.len() as int;
        let k = percentile_index(n, 100);
        assert(k == n - 1);
        let p = choose|p: Seq<usize>| #[trigger]
            orders(durs, false, p) && s.max as int == durs[p[k] as int];
        assert forall|i: int| 0 <= i < durs.len() implies (#[trigger] durs[i]) <= s.max by {
            assert(holds(p, i));
            let w = choose|w: int| 0 <= w < p.len() && #[trigger] p[w] == i;
            if w < k {
                assert(comes_before(durs, false, p[w] as int, p[k] as int));
            }
        }
        assert(durs[p[k] as int] == s.max);
    }
}

} // verus!
