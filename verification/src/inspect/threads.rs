//! The threads of a scope.

use vstd::prelude::*;
use crate::analysis::common::{dur_of, dur_or_zero, lemma_total_bound_by, lemma_total_step, total, TICK_BOUND};
use crate::doc::{doc_view, make_ms, put, put_num, put_u64, Doc, PieceView};
use crate::inspect::events::shown_rows;
use crate::inspect::group::{
    group_names,
    groups_of,
    named_at,
    names_at,
    positions,
    positions_in,
    DUR_SUM,
};
use crate::inspect::names::{in_scope, select_scope};
use crate::render::{
    more_pieces,
    ms,
    put_more,
    put_window_block,
    txt,
    window_block,
    window_label,
    window_word,
};
use crate::scope::Scope;
use crate::sort::{order, orders};
use crate::table::{with_id, IdTable};
use crate::text::{decimal, same};
use crate::trace::event::TraceEvent;

verus! {

/// The threads of the events at `p`, each once, in the order of first use.
pub open spec fn tids_at(events: Seq<TraceEvent>, p: Seq<usize>) -> Seq<u64>
    decreases p.len(),
{
    if p.len() == 0 {
        Seq::empty()
    } else {
        with_id(tids_at(events, p.drop_last()), events[p.last() as int].tid)
    }
}

/// The positions among `p` of the events of a thread.
pub open spec fn thread_at(events: Seq<TraceEvent>, p: Seq<usize>, tid: u64) -> Seq<usize>
    decreases p.len(),
{
    if p.len() == 0 {
        Seq::empty()
    } else {
        let before = thread_at(events, p.drop_last(), tid);
        if events[p.last() as int].tid == tid {
            before.push(p.last())
        } else {
            before
        }
    }
}

proof fn lemma_unused(events: Seq<TraceEvent>, p: Seq<usize>, tid: u64)
    requires
        !tids_at(events, p).contains(tid),
    ensures
        thread_at(events, p, tid).len() == 0,
    decreases p.len(),
{
    if p.len() > 0 {
        let before = tids_at(events, p.drop_last());
        let last = events[p.last() as int].tid;
        assert(!before.contains(tid)) by {
            if before.contains(tid) {
                let w = choose|w: int| 0 <= w < before.len() && before[w] == tid;
                assert(with_id(before, last)[w] == tid);
            }
        }
        assert(last != tid) by {
            if last == tid && !before.contains(last) {
                assert(before.push(last)[before.len() as int] == tid);
            }
        }
        lemma_unused(events, p.drop_last(), tid);
    }
}

proof fn lemma_thread_in(events: Seq<TraceEvent>, p: Seq<usize>, tid: u64, n: nat)
    requires
        positions_in(p, n),
    ensures
        positions_in(thread_at(events, p, tid), n),
    decreases p.len(),
{
    if p.len() > 0 {
        assert(positions_in(p.drop_last(), n)) by {
            assert forall|i: int| 0 <= i < p.drop_last().len() implies (#[trigger] p.drop_last()[i])
                < n by {
                assert(p[i] < n);
            }
        }
        lemma_thread_in(events, p.drop_last(), tid, n);
        assert(p[p.len() - 1] < n);
    }
}

proof fn lemma_thread_some(events: Seq<TraceEvent>, p: Seq<usize>, k: int)
    requires
        0 <= k < tids_at(events, p).len(),
    ensures
        thread_at(events, p, tids_at(events, p)[k]).len() > 0,
    decreases p.len(),
{
    if p.len() > 0 {
        let before = tids_at(events, p.drop_last());
        if k < before.len() {
            lemma_thread_some(events, p.drop_last(), k);
        }
    }
}

/// The time of the task at a position; zero where it is something else.
pub open spec fn task_at(events: Seq<TraceEvent>) -> spec_fn(usize) -> int {
    |i: usize|
        if events[i as int].name@ == "RunTask"@ {
            dur_of(events[i as int])
        } else {
            0
        }
}

/// `name` is the first of the most frequent names.
pub open spec fn most_frequent(events: Seq<TraceEvent>, p: Seq<usize>, name: Seq<char>) -> bool {
    let names = names_at(events, p);
    exists|k: int|
        {
            &&& 0 <= k < names.len()
            &&& name == #[trigger] names[k]
            &&& forall|j: int|
                0 <= j < names.len() ==> named_at(events, p, #[trigger] names[j]).len() <= named_at(
                    events,
                    p,
                    name,
                ).len()
            &&& forall|j: int|
                0 <= j < k ==> named_at(events, p, #[trigger] names[j]).len() < named_at(
                    events,
                    p,
                    name,
                ).len()
        }
}

/// A thread: how many events, the time in its tasks, and its most frequent
/// event.
pub struct ThreadRow {
    pub tid: u64,
    pub events: usize,
    pub run: i128,
    pub top_event: String,
}

/// What the row of a thread says.
pub open spec fn thread_row(events: Seq<TraceEvent>, p: Seq<usize>, tid: u64, r: ThreadRow) -> bool {
    let members = thread_at(events, p, tid);
    &&& r.tid == tid
    &&& r.events == members.len()
    &&& r.run == total(members, task_at(events))
    &&& most_frequent(events, members, r.top_event@)
}

pub open spec fn run_keys(events: Seq<TraceEvent>, p: Seq<usize>) -> Seq<i128> {
    tids_at(events, p).map_values(
        |t: u64| total(thread_at(events, p, t), task_at(events)) as i128,
    )
}

/// One row per thread of the events at `p`, the busiest first.
pub open spec fn thread_rows(events: Seq<TraceEvent>, p: Seq<usize>, rows: Seq<ThreadRow>) -> bool {
    exists|o: Seq<usize>|
        {
            &&& #[trigger] orders(run_keys(events, p), true, o)
            &&& rows.len() == o.len()
            &&& forall|k: int|
                0 <= k < rows.len() ==> thread_row(
                    events,
                    p,
                    tids_at(events, p)[o[k] as int],
                    #[trigger] rows[k],
                )
        }
}

/// The most frequent name.
fn find_frequent(events: &[TraceEvent], p: &Vec<usize>) -> (r: String)
    requires
        positions_in(p@, events@.len()),
        p@.len() > 0,
    ensures
        most_frequent(events@, p@, r@),
{
    let groups = group_names(events, p);
    let ghost names = names_at(events@, p@);
    proof {
        assert(names.len() > 0);
    }
    let mut best: usize = 0;
    let mut k: usize = 1;
    while k < groups.len()
        invariant
            1 <= k <= groups@.len(),
            best < k,
            names == names_at(events@, p@),
            groups_of(events@, p@, groups@),
            forall|j: int|
                0 <= j < k ==> named_at(events@, p@, #[trigger] names[j]).len() <= named_at(
                    events@,
                    p@,
                    names[best as int],
                ).len(),
            forall|j: int|
                0 <= j < best ==> named_at(events@, p@, #[trigger] names[j]).len() < named_at(
                    events@,
                    p@,
                    names[best as int],
                ).len(),
        decreases groups@.len() - k,
    {
        assert(groups@[k as int].name@ == names[k as int]);
        assert(groups@[best as int].name@ == names[best as int]);
        if groups[k].members.len() > groups[best].members.len() {
            best = k;
        }
        k = k + 1;
    }
    let r = groups[best].name.clone();
    assert(groups@[best as int].name@ == names[best as int]);
    assert(r@ == names[best as int]);
    r
}

fn sum_tasks(events: &[TraceEvent], p: &Vec<usize>) -> (r: i128)
    requires
        positions_in(p@, events@.len()),
    ensures
        r == total(p@, task_at(events@)),
{
    let ghost f = task_at(events@);
    let len = p.len();
    let mut sum: i128 = 0;
    let mut i: usize = 0;
    assert(p@.take(0) =~= Seq::<usize>::empty());
    while i < len
        invariant
            i <= len,
            len == p@.len(),
            positions_in(p@, events@.len()),
            f == task_at(events@),
            sum == total(p@.take(i as int), f),
            -DUR_SUM <= sum <= DUR_SUM,
        decreases p@.len() - i,
    {
        let at = p[i];
        proof {
            assert(p@[i as int] < events@.len());
            lemma_total_step(p@, f, i as int);
            lemma_total_bound_by(p@.take(i + 1), f, TICK_BOUND as int);
            let n = i + 1;
            assert(TICK_BOUND * n <= DUR_SUM && -TICK_BOUND * n >= -DUR_SUM) by (nonlinear_arith)
                requires
                    0 <= n <= 0xffff_ffff_ffff_ffff,
                    TICK_BOUND == 0x8000_0000_0000_0000,
                    DUR_SUM == 0x7fff_ffff_ffff_ffff_8000_0000_0000_0000,
            ;
        }
        if same(events[at].name.as_str(), "RunTask") {
            sum = sum + dur_or_zero(&events[at]) as i128;
        }
        i = i + 1;
    }
    assert(p@.take(p@.len() as int) =~= p@);
    sum
}

/// The threads of the events at `p` with their positions.
fn group_threads(events: &[TraceEvent], p: &Vec<usize>) -> (r: (IdTable, Vec<Vec<usize>>))
    requires
        positions_in(p@, events@.len()),
    ensures
        r.0@ == tids_at(events@, p@),
        r.1@.len() == r.0@.len(),
        forall|k: int|
            0 <= k < r.1@.len() ==> (#[trigger] r.1@[k])@ == thread_at(events@, p@, r.0@[k]),
{
    let mut tids = IdTable::new();
    let mut members: Vec<Vec<usize>> = Vec::new();
    let mut i: usize = 0;
    assert(p@.take(0) =~= Seq::<usize>::empty());
    while i < p.len()
        invariant
            i <= p@.len(),
            positions_in(p@, events@.len()),
            tids.wf(),
            tids@ == tids_at(events@, p@.take(i as int)),
            members@.len() == tids@.len(),
            forall|k: int|
                0 <= k < members@.len() ==> (#[trigger] members@[k])@ == thread_at(
                    events@,
                    p@.take(i as int),
                    tids@[k],
                ),
        decreases p@.len() - i,
    {
        let at = p[i];
        let ghost seen = p@.take(i as int);
        let ghost more = p@.take(i + 1);
        let ghost old_tids = tids@;
        let ghost old_members = members@;
        proof {
            assert(more.drop_last() =~= seen);
            assert(p@[i as int] < events@.len());
        }
        let slot = tids.add(events[at].tid);
        if slot == members.len() {
            proof {
                lemma_unused(events@, seen, events@[at as int].tid);
            }
            members.push(Vec::new());
        }
        members[slot].push(at);
        proof {
            assert forall|k: int| 0 <= k < members@.len() implies (#[trigger] members@[k])@
                == thread_at(events@, more, tids@[k]) by {
                if k != slot {
                    if tids@[k] == tids@[slot as int] {
                        tids.lemma_distinct(k, slot as int);
                    }
                    assert(k < old_members.len());
                    assert(members@[k] == old_members[k]);
                    assert(tids@[k] == old_tids[k]);
                } else if k < old_members.len() {
                    assert(tids@[k] == old_tids[k]);
                    assert(members@[k]@ == old_members[k]@.push(at));
                } else {
                    assert(members@[k]@ =~= Seq::<usize>::empty().push(at));
                    assert(thread_at(events@, seen, tids@[k]) =~= Seq::<usize>::empty());
                }
            }
        }
        i = i + 1;
    }
    assert(p@.take(p@.len() as int) =~= p@);
    (tids, members)
}

/// One row per thread of the events at `p`, the busiest first.
pub fn list_threads(events: &[TraceEvent], p: &Vec<usize>) -> (rows: Vec<ThreadRow>)
    requires
        positions_in(p@, events@.len()),
    ensures
        thread_rows(events@, p@, rows@),
{
    let (tids, members) = group_threads(events, p);
    let mut keys: Vec<i128> = Vec::new();
    let mut k: usize = 0;
    while k < members.len()
        invariant
            k <= members@.len(),
            positions_in(p@, events@.len()),
            tids@ == tids_at(events@, p@),
            members@.len() == tids@.len(),
            forall|j: int|
                0 <= j < members@.len() ==> (#[trigger] members@[j])@ == thread_at(
                    events@,
                    p@,
                    tids@[j],
                ),
            keys@.len() == k,
            forall|j: int| 0 <= j < k ==> #[trigger] keys@[j] == run_keys(events@, p@)[j],
        decreases members@.len() - k,
    {
        proof {
            assert(members@[k as int]@ == thread_at(events@, p@, tids@[k as int]));
            lemma_thread_in(events@, p@, tids@[k as int], events@.len());
        }
        keys.push(sum_tasks(events, &members[k]));
        k = k + 1;
    }
    assert(keys@ =~= run_keys(events@, p@));
    let o = order(&keys, true);
    let mut rows: Vec<ThreadRow> = Vec::new();
    let mut i: usize = 0;
    while i < o.len()
        invariant
            i <= o@.len(),
            positions_in(p@, events@.len()),
            tids@ == tids_at(events@, p@),
            members@.len() == tids@.len(),
            keys@.len() == tids@.len(),
            orders(keys@, true, o@),
            forall|j: int|
                0 <= j < members@.len() ==> (#[trigger] members@[j])@ == thread_at(
                    events@,
                    p@,
                    tids@[j],
                ),
            rows@.len() == i,
            forall|j: int|
                0 <= j < i ==> thread_row(events@, p@, tids@[o@[j] as int], #[trigger] rows@[j]),
        decreases o@.len() - i,
    {
        let at = o[i];
        let list = &members[at];
        proof {
            assert(members@[at as int]@ == thread_at(events@, p@, tids@[at as int]));
            lemma_thread_in(events@, p@, tids@[at as int], events@.len());
            lemma_thread_some(events@, p@, at as int);
        }
        let row = ThreadRow {
            tid: tids.id(at),
            events: list.len(),
            run: sum_tasks(events, list),
            top_event: find_frequent(events, list),
        };
        rows.push(row);
        i = i + 1;
    }
    rows
}

/// Row `i` of the table of threads.
pub open spec fn thread_row_pieces(r: ThreadRow, i: int) -> Seq<PieceView> {
    seq![
        txt("| "@),
        txt(decimal((i + 1) as nat)),
        txt(" | "@),
        txt(decimal(r.tid as nat)),
        txt(" | "@),
        txt(decimal(r.events as nat)),
        txt(" | "@),
        ms(r.run as int),
        txt(" | "@),
        txt(r.top_event@),
        txt(" |\n"@),
    ]
}

pub open spec fn thread_rows_pieces(rows: Seq<ThreadRow>, n: int) -> Seq<PieceView>
    decreases n,
{
    if n <= 0 {
        Seq::empty()
    } else {
        thread_rows_pieces(rows, n - 1) + thread_row_pieces(rows[n - 1], n - 1)
    }
}

/// The section on threads.
pub open spec fn threads_pieces(
    rows: Seq<ThreadRow>,
    window: Option<(i64, i64)>,
    top: usize,
    min_ts: i64,
) -> Seq<PieceView> {
    seq![
        txt("## Threads ("@),
        txt(decimal(rows.len())),
        txt(" distinct, "@),
        txt(window_word(window)),
        txt(")\n\n"@),
    ] + window_block(window, min_ts) + if rows.len() == 0 {
        seq![txt("No threads.\n\n"@)]
    } else {
        seq![
            txt(
                "| # | tid | events | RunTask(ms) | top event |\n|---|-----|--------|------------|-----------|\n"@,
            ),
        ] + thread_rows_pieces(rows, shown_rows(top, rows.len())) + more_pieces(
            top,
            rows.len() as usize,
            " threads (use --top to see more)._\n"@,
        ) + seq![txt("\n"@)]
    }
}

#[verifier::rlimit(30)]
fn put_thread_row(d: &mut Doc, r: &ThreadRow, k: usize)
    requires
        k < usize::MAX,
    ensures
        doc_view(final(d)@) == doc_view(old(d)@) + thread_row_pieces(*r, k as int),
{
    let ghost before = doc_view(d@);
    put(d, "| ");
    put_u64(d, k as u64 + 1);
    put(d, " | ");
    put_u64(d, r.tid);
    put(d, " | ");
    put_u64(d, r.events as u64);
    put(d, " | ");
    put_num(d, make_ms(r.run));
    put(d, " | ");
    put(d, r.top_event.as_str());
    put(d, " |\n");
    assert(doc_view(d@) =~= before + thread_row_pieces(*r, k as int));
}

fn put_thread_rows(d: &mut Doc, rows: &Vec<ThreadRow>, top: usize)
    ensures
        doc_view(final(d)@) == doc_view(old(d)@) + thread_rows_pieces(
            rows@,
            shown_rows(top, rows@.len()),
        ),
{
    let n: usize = if top < rows.len() {
        top
    } else {
        rows.len()
    };
    let ghost before = doc_view(d@);
    let mut k: usize = 0;
    assert(before + thread_rows_pieces(rows@, 0) =~= before);
    while k < n
        invariant
            k <= n <= rows@.len(),
            doc_view(d@) == before + thread_rows_pieces(rows@, k as int),
        decreases n - k,
    {
        let r = &rows[k];
        put_thread_row(d, r, k);
        assert(doc_view(d@) =~= before + thread_rows_pieces(rows@, k + 1));
        k = k + 1;
    }
}

/// The threads of a scope with event count, time in tasks and the most
/// frequent event, and the section that tells them.
#[verifier::rlimit(30)]
pub fn threads_section(events: &[TraceEvent], scope: &Scope, top: usize, min_ts: i64) -> (r: (
    Doc,
    Vec<ThreadRow>,
))
    ensures
        thread_rows(events@, positions(events@, in_scope(*scope)), r.1@),
        doc_view(r.0@) == threads_pieces(r.1@, scope.window, top, min_ts),
{
    let p = select_scope(events, scope);
    let rows = list_threads(events, &p);
    let mut d: Doc = Vec::new();
    put(&mut d, "## Threads (");
    put_u64(&mut d, rows.len() as u64);
    put(&mut d, " distinct, ");
    put(&mut d, window_label(scope.window));
    put(&mut d, ")\n\n");
    put_window_block(&mut d, scope.window, min_ts);
    if rows.len() == 0 {
        put(&mut d, "No threads.\n\n");
    } else {
        put(
            &mut d,
            "| # | tid | events | RunTask(ms) | top event |\n|---|-----|--------|------------|-----------|\n",
        );
        put_thread_rows(&mut d, &rows, top);
        put_more(&mut d, top, rows.len(), " threads (use --top to see more)._\n");
        put(&mut d, "\n");
    }
    assert(doc_view(d@) =~= threads_pieces(rows@, scope.window, top, min_ts));
    (d, rows)
}

} // verus!
