//! The longest tasks and what they consist of.

use vstd::prelude::*;
use crate::analysis::common::{dur_of, dur_or_zero, end_of, end_time};
use crate::analysis::cpu::or_text;
use crate::doc::{doc_view, make_ms, make_ratio, put, put_num, put_u64, ratio_num, Doc, PieceView};
use crate::inspect::events::{shown_rows, sort_by_dur, sorted_events, Sort};
use crate::inspect::group::{positions, positions_in};
use crate::inspect::names::{list_names, rows_by_name, NameRow};
use crate::json::get_opt;
use crate::render::{ms, put_window_block, txt, window_block, window_label, window_word};
use crate::scope::{allows, allows_source, Scope};
use crate::text::{decimal, same};
use crate::trace::event::TraceEvent;
use crate::trace::meta::PH_COMPLETE;
use crate::windowed::anchor::function_name;
use crate::windowed::calltree::shown_name;

verus! {

/// A task with a duration.
pub open spec fn is_timed_task(e: TraceEvent) -> bool {
    e.name@ == "RunTask"@ && e.ph == PH_COMPLETE && e.dur is Some
}

fn timed_task(e: &TraceEvent) -> (r: bool)
    ensures
        r == is_timed_task(*e),
{
    e.ph == PH_COMPLETE && e.dur.is_some() && same(e.name.as_str(), "RunTask")
}

/// Event `i` is the longest task of the scope's threads, processes and
/// categories, the last of several as long. The window does not count.
pub open spec fn is_worst(events: Seq<TraceEvent>, scope: Scope, i: int) -> bool {
    &&& 0 <= i < events.len()
    &&& is_timed_task(events[i]) && allows_source(scope, events[i])
    &&& forall|j: int|
        0 <= j < events.len() && is_timed_task(#[trigger] events[j]) && allows_source(
            scope,
            events[j],
        ) ==> dur_of(events[j]) < dur_of(events[i]) || dur_of(events[j]) == dur_of(events[i]) && j
            <= i
}

/// Start and duration of the longest task in scope, whatever its window.
pub fn worst_runtask(events: &[TraceEvent], scope: &Scope) -> (r: Option<(i64, i64)>)
    ensures
        match r {
            Some((ts, dur)) => exists|i: int| #[trigger]
                is_worst(events@, *scope, i) && ts == events@[i].ts && dur == dur_of(events@[i]),
            None => forall|i: int|
                0 <= i < events@.len() ==> !(is_timed_task(#[trigger] events@[i]) && allows_source(
                    *scope,
                    events@[i],
                )),
        },
{
    let n = events.len();
    let mut best: Option<usize> = None;
    let mut i: usize = 0;
    while i < n
        invariant
            n == events@.len(),
            i <= n,
            match best {
                Some(b) => b < i && is_worst(events@.take(i as int), *scope, b as int),
                None => forall|j: int|
                    0 <= j < i ==> !(is_timed_task(#[trigger] events@[j]) && allows_source(
                        *scope,
                        events@[j],
                    )),
            },
        decreases n - i,
    {
        let e = &events[i];
        let ghost seen = events@.take(i as int);
        let ghost more = events@.take(i + 1);
        assert(forall|j: int| 0 <= j < i ==> #[trigger] more[j] == seen[j]);
        assert(forall|j: int| 0 <= j <= i ==> #[trigger] more[j] == events@[j]);
        if timed_task(e) && scope.allows_chunk(e) {
            let better = match best {
                Some(b) => dur_or_zero(e) >= dur_or_zero(&events[b]),
                None => true,
            };
            if better {
                best = Some(i);
            }
        }
        i = i + 1;
    }
    assert(events@.take(n as int) =~= events@);
    match best {
        Some(b) => Some((events[b].ts, dur_or_zero(&events[b]))),
        None => None,
    }
}

/// A task that the scope holds.
pub open spec fn task_in(scope: Scope) -> spec_fn(TraceEvent) -> bool {
    |e: TraceEvent| is_timed_task(e) && allows(scope, e)
}

/// An event of the task's thread that starts while it lasts, and is no task.
pub open spec fn within(task: TraceEvent) -> spec_fn(TraceEvent) -> bool {
    |e: TraceEvent|
        e.tid == task.tid && e.name@ != "RunTask"@ && task.ts <= e.ts <= end_of(task)
}

fn select_tasks(events: &[TraceEvent], scope: &Scope) -> (p: Vec<usize>)
    ensures
        p@ == positions(events@, task_in(*scope)),
        positions_in(p@, events@.len()),
{
    let n = events.len();
    let ghost f = task_in(*scope);
    let mut p: Vec<usize> = Vec::new();
    let mut i: usize = 0;
    assert(events@.take(0) =~= Seq::<TraceEvent>::empty());
    while i < n
        invariant
            n == events@.len(),
            i <= n,
            f == task_in(*scope),
            p@ == positions(events@.take(i as int), f),
            positions_in(p@, i as nat),
        decreases n - i,
    {
        let e = &events[i];
        assert(events@.take(i + 1).drop_last() =~= events@.take(i as int));
        if timed_task(e) && scope.allows_event(e) {
            p.push(i);
        }
        i = i + 1;
    }
    assert(events@.take(n as int) =~= events@);
    p
}

fn select_within(events: &[TraceEvent], task: &TraceEvent) -> (p: Vec<usize>)
    ensures
        p@ == positions(events@, within(*task)),
        positions_in(p@, events@.len()),
{
    let n = events.len();
    let end = end_time(task);
    let ghost f = within(*task);
    let mut p: Vec<usize> = Vec::new();
    let mut i: usize = 0;
    assert(events@.take(0) =~= Seq::<TraceEvent>::empty());
    while i < n
        invariant
            n == events@.len(),
            i <= n,
            end == end_of(*task),
            f == within(*task),
            p@ == positions(events@.take(i as int), f),
            positions_in(p@, i as nat),
        decreases n - i,
    {
        let e = &events[i];
        assert(events@.take(i + 1).drop_last() =~= events@.take(i as int));
        if e.tid == task.tid && e.ts >= task.ts && e.ts as i128 <= end && !same(
            e.name.as_str(),
            "RunTask",
        ) {
            p.push(i);
        }
        i = i + 1;
    }
    assert(events@.take(n as int) =~= events@);
    p
}

/// `k` is the place among `p` of the longest function call, the first of
/// several as long.
pub open spec fn longest_call(events: Seq<TraceEvent>, p: Seq<usize>, k: int) -> bool {
    &&& 0 <= k < p.len()
    &&& events[p[k] as int].name@ == "FunctionCall"@
    &&& forall|j: int|
        0 <= j < p.len() && events[(#[trigger] p[j]) as int].name@ == "FunctionCall"@ ==> dur_of(
            events[p[j] as int],
        ) < dur_of(events[p[k] as int]) || dur_of(events[p[j] as int]) == dur_of(
            events[p[k] as int],
        ) && k <= j
}

/// The longest function call among `p`: the function that it names, and how
/// long it took.
pub open spec fn top_call_of(events: Seq<TraceEvent>, p: Seq<usize>, r: Option<(String, i64)>) -> bool {
    match r {
        Some((name, d)) => exists|k: int| #[trigger]
            longest_call(events, p, k) && name@ == or_text(
                function_name(events[p[k] as int]),
                ""@,
            ) && d == dur_of(events[p[k] as int]),
        None => forall|j: int|
            0 <= j < p.len() ==> events[(#[trigger] p[j]) as int].name@ != "FunctionCall"@,
    }
}

fn called_function(e: &TraceEvent) -> (r: String)
    ensures
        r@ == or_text(function_name(*e), ""@),
{
    let value = e.args_value();
    match get_opt(get_opt(value, "data"), "functionName") {
        Some(j) => match j.as_str() {
            Some(name) => name.to_owned(),
            None => "".to_owned(),
        },
        None => "".to_owned(),
    }
}

fn find_top_call(events: &[TraceEvent], p: &Vec<usize>) -> (r: Option<(String, i64)>)
    requires
        positions_in(p@, events@.len()),
    ensures
        top_call_of(events@, p@, r),
{
    let mut best: Option<usize> = None;
    let mut k: usize = 0;
    while k < p.len()
        invariant
            k <= p@.len(),
            positions_in(p@, events@.len()),
            match best {
                Some(b) => b < k && longest_call(events@, p@.take(k as int), b as int),
                None => forall|j: int|
                    0 <= j < k ==> events@[(#[trigger] p@[j]) as int].name@ != "FunctionCall"@,
            },
        decreases p@.len() - k,
    {
        let at = p[k];
        let ghost seen = p@.take(k as int);
        let ghost more = p@.take(k + 1);
        assert(forall|j: int| 0 <= j < k ==> #[trigger] more[j] == seen[j]);
        assert(forall|j: int| 0 <= j <= k ==> #[trigger] more[j] == p@[j]);
        assert(p@[k as int] < events@.len());
        if same(events[at].name.as_str(), "FunctionCall") {
            let better = match best {
                Some(b) => {
                    let other = p[b];
                    assert(p@[b as int] < events@.len());
                    dur_or_zero(&events[at]) > dur_or_zero(&events[other])
                },
                None => true,
            };
            if better {
                best = Some(k);
            }
        }
        k = k + 1;
    }
    assert(p@.take(p@.len() as int) =~= p@);
    match best {
        Some(b) => {
            let at = p[b];
            assert(p@[b as int] < events@.len());
            assert(longest_call(events@, p@, b as int));
            Some((called_function(&events[at]), dur_or_zero(&events[at])))
        },
        None => None,
    }
}

/// A task with the events within it.
pub struct TaskRow {
    /// Its position in the trace.
    pub at: usize,
    /// The events within it by name, the most time first.
    pub children: Vec<NameRow>,
    /// The function that its longest call names, and how long that took.
    pub top_call: Option<(String, i64)>,
}

/// What the row of a task says.
pub open spec fn task_row(events: Seq<TraceEvent>, at: usize, r: TaskRow) -> bool {
    let inner = positions(events, within(events[at as int]));
    &&& r.at == at
    &&& rows_by_name(events, inner, Sort::Dur, r.children@)
    &&& top_call_of(events, inner, r.top_call)
}

/// The first `top` tasks of the scope, the longest first, and how many there
/// are.
pub open spec fn task_rows(
    events: Seq<TraceEvent>,
    scope: Scope,
    top: usize,
    rows: Seq<TaskRow>,
    all: usize,
) -> bool {
    exists|q: Seq<usize>|
        {
            &&& #[trigger] sorted_events(events, positions(events, task_in(scope)), Sort::Dur, q)
            &&& all == q.len()
            &&& rows.len() == shown_rows(top, q.len())
            &&& forall|k: int| 0 <= k < rows.len() ==> task_row(events, q[k], #[trigger] rows[k])
        }
}

/// The share of a task; zero where the task took no time.
pub open spec fn task_share(part: int, dur: int) -> PieceView {
    PieceView::Number(
        ratio_num(
            part,
            if dur > 0 {
                dur
            } else {
                0
            },
            100,
            1,
            false,
        ),
    )
}

pub open spec fn child_pieces(rows: Seq<NameRow>, dur: int, n: int) -> Seq<PieceView>
    decreases n,
{
    if n <= 0 {
        Seq::empty()
    } else {
        child_pieces(rows, dur, n - 1) + seq![
            txt("| "@),
            txt(rows[n - 1].name@),
            txt(" | "@),
            txt(decimal(rows[n - 1].count as nat)),
            txt(" | "@),
            ms(rows[n - 1].total as int),
            txt(" | "@),
            task_share(rows[n - 1].total as int, dur),
            txt("% |\n"@),
        ]
    }
}

pub open spec fn top_call_pieces(c: Option<(String, i64)>) -> Seq<PieceView> {
    match c {
        Some((name, d)) => seq![
            txt("\n- **top FunctionCall**: `"@),
            txt(shown_name(name@)),
            txt("` ("@),
            ms(d as int),
            txt(")\n"@),
        ],
        None => Seq::empty(),
    }
}

/// Task `i` of the section.
pub open spec fn task_pieces(events: Seq<TraceEvent>, r: TaskRow, i: int, min_ts: i64) -> Seq<PieceView> {
    let e = events[r.at as int];
    seq![
        txt("### #"@),
        txt(decimal((i + 1) as nat)),
        txt("  t="@),
        ms(e.ts - min_ts),
        txt("ms  dur="@),
        ms(dur_of(e)),
        txt("ms  tid="@),
        txt(decimal(e.tid as nat)),
        txt("\n\n"@),
    ] + if r.children@.len() == 0 {
        seq![txt("_No child events._\n\n"@)]
    } else {
        seq![
            txt(
                "| child | count | total(ms) | % of task |\n|-------|-------|-----------|-----------|\n"@,
            ),
        ] + child_pieces(r.children@, dur_of(e), r.children@.len() as int) + top_call_pieces(
            r.top_call,
        ) + seq![txt("\n"@)]
    }
}

pub open spec fn tasks_pieces(events: Seq<TraceEvent>, rows: Seq<TaskRow>, min_ts: i64, n: int) -> Seq<PieceView>
    decreases n,
{
    if n <= 0 {
        Seq::empty()
    } else {
        tasks_pieces(events, rows, min_ts, n - 1) + task_pieces(events, rows[n - 1], n - 1, min_ts)
    }
}

/// The section on tasks.
pub open spec fn task_section_pieces(
    events: Seq<TraceEvent>,
    rows: Seq<TaskRow>,
    all: usize,
    window: Option<(i64, i64)>,
    min_ts: i64,
) -> Seq<PieceView> {
    seq![
        txt("## RunTask breakdown ("@),
        txt(decimal(all as nat)),
        txt(" tasks, "@),
        txt(window_word(window)),
        txt(")\n\n"@),
    ] + window_block(window, min_ts) + tasks_pieces(events, rows, min_ts, rows.len() as int)
}

#[verifier::rlimit(30)]
fn put_children(d: &mut Doc, rows: &Vec<NameRow>, dur: i64)
    ensures
        doc_view(final(d)@) == doc_view(old(d)@) + child_pieces(
            rows@,
            dur as int,
            rows@.len() as int,
        ),
{
    let ghost before = doc_view(d@);
    let whole: i128 = if dur > 0 {
        dur as i128
    } else {
        0
    };
    let mut k: usize = 0;
    assert(before + child_pieces(rows@, dur as int, 0) =~= before);
    while k < rows.len()
        invariant
            k <= rows@.len(),
            whole == (if dur > 0 {
                dur as int
            } else {
                0
            }),
            doc_view(d@) == before + child_pieces(rows@, dur as int, k as int),
        decreases rows@.len() - k,
    {
        let r = &rows[k];
        put(d, "| ");
        put(d, r.name.as_str());
        put(d, " | ");
        put_u64(d, r.count as u64);
        put(d, " | ");
        put_num(d, make_ms(r.total));
        put(d, " | ");
        put_num(d, make_ratio(r.total, whole, 100, 1, false));
        put(d, "% |\n");
        assert(doc_view(d@) =~= before + child_pieces(rows@, dur as int, k + 1));
        k = k + 1;
    }
}

fn put_top_call(d: &mut Doc, c: &Option<(String, i64)>)
    ensures
        doc_view(final(d)@) == doc_view(old(d)@) + top_call_pieces(*c),
{
    let ghost before = doc_view(d@);
    match c {
        Some((name, dur)) => {
            put(d, "\n- **top FunctionCall**: `");
            if name.as_str().is_empty() {
                put(d, "(anonymous)");
            } else {
                put(d, name.as_str());
            }
            put(d, "` (");
            put_num(d, make_ms(*dur as i128));
            put(d, ")\n");
        },
        None => {},
    }
    assert(doc_view(d@) =~= before + top_call_pieces(*c));
}

#[verifier::rlimit(30)]
fn put_task(d: &mut Doc, events: &[TraceEvent], r: &TaskRow, i: usize, min_ts: i64)
    requires
        r.at < events@.len(),
        i < usize::MAX,
    ensures
        doc_view(final(d)@) == doc_view(old(d)@) + task_pieces(events@, *r, i as int, min_ts),
{
    let ghost before = doc_view(d@);
    let e = &events[r.at];
    put(d, "### #");
    put_u64(d, i as u64 + 1);
    put(d, "  t=");
    put_num(d, make_ms(e.ts as i128 - min_ts as i128));
    put(d, "ms  dur=");
    put_num(d, make_ms(dur_or_zero(e) as i128));
    put(d, "ms  tid=");
    put_u64(d, e.tid);
    put(d, "\n\n");
    if r.children.len() == 0 {
        put(d, "_No child events._\n\n");
    } else {
        put(
            d,
            "| child | count | total(ms) | % of task |\n|-------|-------|-----------|-----------|\n",
        );
        put_children(d, &r.children, dur_or_zero(e));
        put_top_call(d, &r.top_call);
        put(d, "\n");
    }
    assert(doc_view(d@) =~= before + task_pieces(events@, *r, i as int, min_ts));
}

/// Drill into the longest tasks of a scope: the events within each by name,
/// its longest function call, and the section that tells them.
pub fn task_section(events: &[TraceEvent], scope: &Scope, top: usize, min_ts: i64) -> (r: (
    Doc,
    Vec<TaskRow>,
))
    ensures
        exists|all: usize|
            {
                &&& #[trigger] task_rows(events@, *scope, top, r.1@, all)
                &&& doc_view(r.0@) == task_section_pieces(
                    events@,
                    r.1@,
                    all,
                    scope.window,
                    min_ts,
                )
            },
{
    let p = select_tasks(events, scope);
    let q = sort_by_dur(events, &p);
    let all = q.len();
    let n: usize = if top < all {
        top
    } else {
        all
    };
    let mut d: Doc = Vec::new();
    put(&mut d, "## RunTask breakdown (");
    put_u64(&mut d, all as u64);
    put(&mut d, " tasks, ");
    put(&mut d, window_label(scope.window));
    put(&mut d, ")\n\n");
    put_window_block(&mut d, scope.window, min_ts);
    let ghost head = doc_view(d@);
    let mut rows: Vec<TaskRow> = Vec::new();
    let mut k: usize = 0;
    assert(head + tasks_pieces(events@, rows@, min_ts, 0) =~= head);
    while k < n
        invariant
            k <= n <= q@.len(),
            positions_in(q@, events@.len()),
            rows@.len() == k,
            forall|j: int| 0 <= j < k ==> task_row(events@, q@[j], #[trigger] rows@[j]),
            doc_view(d@) == head + tasks_pieces(events@, rows@, min_ts, k as int),
        decreases n - k,
    {
        let at = q[k];
        assert(q@[k as int] < events@.len());
        let inner = select_within(events, &events[at]);
        let children = list_names(events, &inner, Sort::Dur);
        let top_call = find_top_call(events, &inner);
        let row = TaskRow { at, children, top_call };
        put_task(&mut d, events, &row, k, min_ts);
        let ghost before = rows@;
        rows.push(row);
        proof {
            lemma_tasks_prefix(events@, before, rows@, min_ts, k as int);
            assert(doc_view(d@) =~= head + tasks_pieces(events@, rows@, min_ts, k + 1));
        }
        k = k + 1;
    }
    assert(doc_view(d@) =~= task_section_pieces(events@, rows@, all, scope.window, min_ts));
    let r = (d, rows);
    assert(task_rows(events@, *scope, top, r.1@, all));
    r
}

proof fn lemma_tasks_prefix(
    events: Seq<TraceEvent>,
    a: Seq<TaskRow>,
    b: Seq<TaskRow>,
    min_ts: i64,
    n: int,
)
    requires
        0 <= n <= a.len() <= b.len(),
        forall|k: int| 0 <= k < n ==> a[k] == b[k],
    ensures
        tasks_pieces(events, a, min_ts, n) == tasks_pieces(events, b, min_ts, n),
    decreases n,
{
    if n > 0 {
        lemma_tasks_prefix(events, a, b, min_ts, n - 1);
    }
}

} // verus!
