//! Garbage collection and long tasks within a scope.

use vstd::prelude::*;
use crate::analysis::common::{dur_of, dur_or_zero, lemma_total_bound, ticks_valued, total};
use crate::analysis::jank::largest;
use crate::doc::{
    doc_view,
    make_ms,
    make_ratio,
    put,
    put_num,
    put_u64,
    put_whole_ms,
    ratio_num,
    signed,
    whole_ms,
    Doc,
    PieceView,
};
use crate::render::{ms, put_window, txt, window_label, window_pieces, window_word};
use crate::scope::{allows, Scope};
use crate::sort::{order, orders};
use crate::text::{decimal, has_prefix, same, starts_with};
use crate::trace::event::TraceEvent;
use crate::trace::meta::{detect_main_thread, is_main_thread, PH_COMPLETE};

verus! {

/// The group of a collection event: major, minor, and all other work of the
/// collectors.
pub open spec fn gc_group(name: Seq<char>) -> Option<int> {
    if name == "MajorGC"@ {
        Some(0)
    } else if name == "MinorGC"@ || name == "V8.GCScavenger"@ {
        Some(1)
    } else if has_prefix(name, "V8.GC"@) || has_prefix(name, "CppGC"@) {
        Some(2)
    } else {
        None
    }
}

pub open spec fn group_name(g: int) -> Seq<char> {
    if g == 0 {
        "MajorGC"@
    } else if g == 1 {
        "MinorGC / GCScavenger"@
    } else {
        "other V8.GC*/CppGC*"@
    }
}

/// Name of a group.
pub fn gc_group_name(g: usize) -> (r: &'static str)
    ensures
        r@ == group_name(g as int),
{
    if g == 0 {
        "MajorGC"
    } else if g == 1 {
        "MinorGC / GCScavenger"
    } else {
        "other V8.GC*/CppGC*"
    }
}

fn group_of(name: &str) -> (r: Option<usize>)
    ensures
        match r {
            Some(g) => gc_group(name@) == Some(g as int) && g < 3,
            None => gc_group(name@) is None,
        },
{
    if same(name, "MajorGC") {
        Some(0)
    } else if same(name, "MinorGC") || same(name, "V8.GCScavenger") {
        Some(1)
    } else if starts_with(name, "V8.GC") || starts_with(name, "CppGC") {
        Some(2)
    } else {
        None
    }
}

/// An event of a group that the scope holds.
pub open spec fn in_group(e: TraceEvent, scope: Scope, g: int) -> bool {
    allows(scope, e) && e.ph == PH_COMPLETE && gc_group(e.name@) == Some(g)
}

pub open spec fn group_hit(scope: Scope, g: int) -> spec_fn(TraceEvent) -> int {
    |e: TraceEvent|
        if in_group(e, scope, g) {
            1
        } else {
            0
        }
}

pub open spec fn group_time(scope: Scope, g: int) -> spec_fn(TraceEvent) -> int {
    |e: TraceEvent|
        if in_group(e, scope, g) {
            dur_of(e)
        } else {
            0
        }
}

/// Figures of a group.
#[derive(Clone, Copy)]
pub struct GcGroup {
    pub count: usize,
    pub total: i128,
    pub max: i128,
}

pub open spec fn group_figures(events: Seq<TraceEvent>, scope: Scope, g: int, x: GcGroup) -> bool {
    &&& x.count == total(events, group_hit(scope, g))
    &&& x.total == total(events, group_time(scope, g))
    &&& x.max == largest(events, group_time(scope, g))
}

/// A main-thread task that takes at least `limit`.
pub open spec fn is_long(e: TraceEvent, scope: Scope, main_tid: u64, limit: i64) -> bool {
    &&& allows(scope, e)
    &&& e.ph == PH_COMPLETE
    &&& gc_group(e.name@) is None
    &&& e.name@ == "RunTask"@
    &&& e.tid == main_tid
    &&& dur_of(e) >= limit
}

/// Durations of the long tasks, in the order of the trace.
pub open spec fn long_list(events: Seq<TraceEvent>, scope: Scope, main_tid: u64, limit: i64) -> Seq<i128>
    decreases events.len(),
{
    if events.len() == 0 {
        Seq::empty()
    } else {
        let before = long_list(events.drop_last(), scope, main_tid, limit);
        if is_long(events.last(), scope, main_tid, limit) {
            before.push(dur_of(events.last()) as i128)
        } else {
            before
        }
    }
}

pub open spec fn long_time(scope: Scope, main_tid: u64, limit: i64) -> spec_fn(TraceEvent) -> int {
    |e: TraceEvent|
        if is_long(e, scope, main_tid, limit) {
            dur_of(e)
        } else {
            0
        }
}

/// `r` holds the durations, the longest first.
pub open spec fn longest_first(durs: Seq<i128>, r: Seq<i128>) -> bool {
    exists|p: Seq<usize>|
        {
            &&& #[trigger] orders(durs, true, p)
            &&& r.len() == p.len()
            &&& forall|i: int| 0 <= i < r.len() ==> #[trigger] r[i] == durs[p[i] as int]
        }
}

/// Collections and long tasks of a scope.
pub struct GcReport {
    pub groups: Vec<GcGroup>,
    /// Durations of the long tasks, the longest first.
    pub long_tasks: Vec<i128>,
    pub long_total: i128,
}

/// What the report says, with `main_tid` as the main thread.
pub open spec fn report_over(events: Seq<TraceEvent>, scope: Scope, main_tid: u64, limit: i64, r: GcReport) -> bool {
    &&& r.groups@.len() == 3
    &&& forall|g: int| 0 <= g < 3 ==> group_figures(events, scope, g, #[trigger] r.groups@[g])
    &&& longest_first(long_list(events, scope, main_tid, limit), r.long_tasks@)
    &&& r.long_total == total(events, long_time(scope, main_tid, limit))
}

/// What the report says.
pub open spec fn report_of(events: Seq<TraceEvent>, scope: Scope, limit: i64, r: GcReport) -> bool {
    exists|tid: u64| #[trigger] is_main_thread(events, tid) && report_over(events, scope, tid, limit, r)
}

proof fn lemma_group_hits(events: Seq<TraceEvent>, scope: Scope, g: int)
    ensures
        0 <= total(events, group_hit(scope, g)) <= events.len(),
    decreases events.len(),
{
    if events.len() > 0 {
        lemma_group_hits(events.drop_last(), scope, g);
    }
}

/// Collections and long tasks of a scope.
pub fn gc_report(events: &[TraceEvent], scope: &Scope, limit: i64) -> (r: GcReport)
    ensures
        report_of(events@, *scope, limit, r),
{
    let main_tid = detect_main_thread(events);
    let n = events.len();
    let mut groups: Vec<GcGroup> = Vec::new();
    groups.push(GcGroup { count: 0, total: 0, max: 0 });
    groups.push(GcGroup { count: 0, total: 0, max: 0 });
    groups.push(GcGroup { count: 0, total: 0, max: 0 });
    let mut durs: Vec<i128> = Vec::new();
    let mut long_total: i128 = 0;
    let ghost lt = long_time(*scope, main_tid, limit);
    let mut i: usize = 0;
    assert(events@.take(0) =~= Seq::<TraceEvent>::empty());
    while i < n
        invariant
            n == events@.len(),
            i <= n,
            lt == long_time(*scope, main_tid, limit),
            groups@.len() == 3,
            forall|g: int|
                0 <= g < 3 ==> group_figures(
                    events@.take(i as int),
                    *scope,
                    g,
                    #[trigger] groups@[g],
                ),
            durs@ == long_list(events@.take(i as int), *scope, main_tid, limit),
            long_total == total(events@.take(i as int), lt),
        decreases n - i,
    {
        let e = &events[i];
        let ghost seen = events@.take(i as int);
        let ghost more = events@.take(i + 1);
        let ghost groups0 = groups@;
        proof {
            assert(more.drop_last() =~= seen);
            assert(more.last() == *e);
            assert(ticks_valued(lt));
            lemma_total_bound(seen, lt);
        }
        if e.ph == PH_COMPLETE && scope.allows_event(e) {
            let d = dur_or_zero(e) as i128;
            match group_of(e.name.as_str()) {
                Some(g) => {
                    let x = groups[g];
                    proof {
                        let f = group_time(*scope, g as int);
                        assert(group_figures(seen, *scope, g as int, groups@[g as int]));
                        assert(ticks_valued(f));
                        lemma_total_bound(seen, f);
                        lemma_group_hits(seen, *scope, g as int);
                    }
                    let max: i128 = if d > x.max {
                        d
                    } else {
                        x.max
                    };
                    groups.set(g, GcGroup { count: x.count + 1, total: x.total + d, max });
                },
                None => {
                    if e.tid == main_tid && d >= limit as i128 && same(e.name.as_str(), "RunTask") {
                        durs.push(d);
                        long_total = long_total + d;
                    }
                },
            }
        }
        proof {
            assert forall|g: int| 0 <= g < 3 implies group_figures(
                more,
                *scope,
                g,
                #[trigger] groups@[g],
            ) by {
                assert(group_figures(seen, *scope, g, groups0[g]));
                crate::analysis::jank::lemma_largest_pos(seen, group_time(*scope, g));
            }
        }
        i = i + 1;
    }
    assert(events@.take(n as int) =~= events@);
    let p = order(&durs, true);
    let mut long_tasks: Vec<i128> = Vec::new();
    let mut k: usize = 0;
    while k < p.len()
        invariant
            k <= p@.len(),
            orders(durs@, true, p@),
            long_tasks@.len() == k,
            forall|j: int| 0 <= j < k ==> #[trigger] long_tasks@[j] == durs@[p@[j] as int],
        decreases p@.len() - k,
    {
        let slot = p[k];
        long_tasks.push(durs[slot]);
        k = k + 1;
    }
    let r = GcReport { groups, long_tasks, long_total };
    assert(report_over(events@, *scope, main_tid, limit, r));
    r
}

/// A time in milliseconds with one decimal.
pub open spec fn ms1(t: int) -> PieceView {
    PieceView::Number(ratio_num(t, 1_000_000, 1, 1, false))
}

/// The row of a group.
pub open spec fn group_row(g: int, x: GcGroup) -> Seq<PieceView> {
    seq![
        txt("| "@),
        txt(group_name(g)),
        txt(" | "@),
        txt(decimal(x.count as nat)),
        txt(" | "@),
        ms(x.total as int),
        txt(" | "@),
        ms(x.max as int),
        txt(" |\n"@),
    ]
}

/// The longest tasks, at most three, separated by commas.
pub open spec fn top_pieces(s: Seq<i128>, n: int) -> Seq<PieceView>
    decreases n,
{
    if n <= 0 {
        Seq::empty()
    } else {
        top_pieces(s, n - 1) + if n == 1 {
            seq![ms1(s[0] as int), txt("ms"@)]
        } else {
            seq![txt(", "@), ms1(s[n - 1] as int), txt("ms"@)]
        }
    }
}

pub open spec fn top_count(s: Seq<i128>) -> int {
    if s.len() < 3 {
        s.len() as int
    } else {
        3
    }
}

/// The section on collections and long tasks.
pub open spec fn gc_pieces(r: GcReport, limit: i64, window: Option<(i64, i64)>, min_ts: i64) -> Seq<PieceView> {
    let s = r.long_tasks@;
    seq![txt("## GC & Long Tasks ("@), txt(window_word(window)), txt(")\n\n"@)] + window_pieces(
        window,
        min_ts,
    ) + seq![
        txt("| group | count | total(ms) | max(ms) |\n|-------|-------|-----------|---------|\n"@),
    ] + group_row(0, r.groups@[0]) + group_row(1, r.groups@[1]) + group_row(2, r.groups@[2]) + seq![
        txt("\n- **Long tasks ≥"@),
        txt(signed(whole_ms(limit as int))),
        txt("ms**: "@),
        txt(decimal(s.len())),
        txt(" total, "@),
        ms1(
            if r.long_total > 0 {
                r.long_total as int
            } else {
                0
            },
        ),
        txt("ms combined, max "@),
        ms1(
            if s.len() > 0 {
                s[0] as int
            } else {
                0
            },
        ),
        txt("ms\n"@),
    ] + if s.len() > 0 {
        seq![txt("- top: "@)] + top_pieces(s, top_count(s)) + seq![txt("\n\n"@)]
    } else {
        seq![txt("\n"@)]
    }
}

#[verifier::rlimit(30)]
fn put_group(d: &mut Doc, g: usize, x: GcGroup)
    ensures
        doc_view(final(d)@) == doc_view(old(d)@) + group_row(g as int, x),
{
    let ghost before = doc_view(d@);
    put(d, "| ");
    put(d, gc_group_name(g));
    put(d, " | ");
    put_u64(d, x.count as u64);
    put(d, " | ");
    put_num(d, make_ms(x.total));
    put(d, " | ");
    put_num(d, make_ms(x.max));
    put(d, " |\n");
    assert(doc_view(d@) =~= before + group_row(g as int, x));
}

fn put_top(d: &mut Doc, s: &Vec<i128>)
    requires
        s@.len() > 0,
    ensures
        doc_view(final(d)@) == doc_view(old(d)@) + (seq![txt("- top: "@)] + top_pieces(
            s@,
            top_count(s@),
        ) + seq![txt("\n\n"@)]),
{
    let ghost before = doc_view(d@);
    put(d, "- top: ");
    let mut i: usize = 0;
    assert(doc_view(d@) =~= before + (seq![txt("- top: "@)] + top_pieces(s@, 0)));
    while i < s.len() && i < 3
        invariant
            i <= s@.len(),
            i <= 3,
            doc_view(d@) == before + (seq![txt("- top: "@)] + top_pieces(s@, i as int)),
        decreases 3 - i,
    {
        let ghost mid = doc_view(d@);
        if i > 0 {
            put(d, ", ");
        }
        put_num(d, make_ratio(s[i], 1_000_000, 1, 1, false));
        put(d, "ms");
        assert(doc_view(d@) =~= before + (seq![txt("- top: "@)] + top_pieces(s@, i + 1)));
        i = i + 1;
    }
    put(d, "\n\n");
    assert(doc_view(d@) =~= before + (seq![txt("- top: "@)] + top_pieces(s@, top_count(s@)) + seq![
        txt("\n\n"@),
    ]));
}

/// Write the section on collections and long tasks.
#[verifier::rlimit(30)]
pub fn gc_doc(r: &GcReport, limit: i64, window: Option<(i64, i64)>, min_ts: i64) -> (d: Doc)
    requires
        r.groups@.len() == 3,
    ensures
        doc_view(d@) == gc_pieces(*r, limit, window, min_ts),
{
    let mut d: Doc = Vec::new();
    put(&mut d, "## GC & Long Tasks (");
    put(&mut d, window_label(window));
    put(&mut d, ")\n\n");
    put_window(&mut d, window, min_ts);
    put(&mut d, "| group | count | total(ms) | max(ms) |\n|-------|-------|-----------|---------|\n");
    put_group(&mut d, 0, r.groups[0]);
    put_group(&mut d, 1, r.groups[1]);
    put_group(&mut d, 2, r.groups[2]);
    let ghost head = doc_view(d@);
    let long_total: i128 = if r.long_total > 0 {
        r.long_total
    } else {
        0
    };
    let long_max: i128 = if r.long_tasks.len() > 0 {
        r.long_tasks[0]
    } else {
        0
    };
    put(&mut d, "\n- **Long tasks ≥");
    put_whole_ms(&mut d, limit);
    put(&mut d, "ms**: ");
    put_u64(&mut d, r.long_tasks.len() as u64);
    put(&mut d, " total, ");
    put_num(&mut d, make_ratio(long_total, 1_000_000, 1, 1, false));
    put(&mut d, "ms combined, max ");
    put_num(&mut d, make_ratio(long_max, 1_000_000, 1, 1, false));
    put(&mut d, "ms\n");
    if r.long_tasks.len() > 0 {
        put_top(&mut d, &r.long_tasks);
    } else {
        put(&mut d, "\n");
    }
    assert(doc_view(d@) =~= gc_pieces(*r, limit, window, min_ts));
    d
}

/// Collections and long tasks within a scope, with the section that tells them.
/// A long task takes at least `limit` nanoseconds of the main thread.
pub fn gc_section(events: &[TraceEvent], scope: &Scope, limit: i64, min_ts: i64) -> (r: (Doc, GcReport))
    ensures
        report_of(events@, *scope, limit, r.1),
        doc_view(r.0@) == gc_pieces(r.1, limit, scope.window, min_ts),
{
    let report = gc_report(events, scope, limit);
    (gc_doc(&report, limit, scope.window, min_ts), report)
}

} // verus!
