//! Which thread is the main thread, said of the tasks that threads run and of
//! the names that they are given.

use vstd::prelude::*;
use crate::json::{member_opt, str_opt};
use crate::text::{has_prefix, has_sub};
use crate::trace::event::TraceEvent;
use crate::trace::meta::{
    first_long,
    is_main_thread,
    long_candidate,
    no_long,
    non_main,
    preferred,
    round_empty,
    round_rank,
    task_count,
    thread_name,
    wins_round,
};

verus! {

/// A complete task of the thread.
pub open spec fn task_on(e: TraceEvent, tid: u64) -> bool {
    e.name@ == "RunTask"@ && e.ph == 88 && e.tid == tid
}

/// The thread runs a task.
pub open spec fn runs(events: Seq<TraceEvent>, tid: u64) -> bool {
    exists|i: int| 0 <= i < events.len() && task_on(#[trigger] events[i], tid)
}

/// Event `x` gives the thread its name: it is the last that names it.
pub open spec fn names_last(events: Seq<TraceEvent>, tid: u64, x: int) -> bool {
    &&& 0 <= x < events.len()
    &&& events[x].name@ == "thread_name"@
    &&& events[x].tid == tid
    &&& forall|y: int|
        x < y < events.len() ==> !((#[trigger] events[y]).name@ == "thread_name"@ && events[y].tid == tid)
}

/// The thread is named so.
pub open spec fn named(events: Seq<TraceEvent>, tid: u64, name: Seq<char>) -> bool {
    exists|x: int| #[trigger]
        names_last(events, tid, x) && str_opt(member_opt(events[x]@.said(), "name"@)) == Some(name)
}

proof fn lemma_name(events: Seq<TraceEvent>, tid: u64)
    ensures
        forall|name: Seq<char>| #[trigger] named(events, tid, name) <==> thread_name(events, tid) == Some(
            name,
        ),
    decreases events.len(),
{
    if events.len() > 0 {
        let rest = events.drop_last();
        let n = events.len() - 1;
        let e = events[n];
        lemma_name(rest, tid);
        assert forall|name: Seq<char>| #[trigger] named(events, tid, name) <==> thread_name(events, tid)
            == Some(name) by {
            if e.name@ == "thread_name"@ && e.tid == tid {
                if named(events, tid, name) {
                    let x = choose|x: int| #[trigger]
                        names_last(events, tid, x) && str_opt(member_opt(events[x]@.said(), "name"@))
                            == Some(name);
                    if x < n {
                        assert(events[n].name@ == "thread_name"@);
                    }
                    assert(x == n);
                }
                if thread_name(events, tid) == Some(name) {
                    assert(names_last(events, tid, n));
                }
            } else {
                if named(events, tid, name) {
                    let x = choose|x: int| #[trigger]
                        names_last(events, tid, x) && str_opt(member_opt(events[x]@.said(), "name"@))
                            == Some(name);
                    assert(x < n);
                    assert(names_last(rest, tid, x)) by {
                        assert forall|y: int| x < y < rest.len() implies !((#[trigger] rest[y]).name@
                            == "thread_name"@ && rest[y].tid == tid) by {
                            assert(rest[y] == events[y]);
                        }
                    }
                    assert(named(rest, tid, name));
                }
                if thread_name(events, tid) == Some(name) {
                    assert(named(rest, tid, name));
                    let x = choose|x: int| #[trigger]
                        names_last(rest, tid, x) && str_opt(member_opt(rest[x]@.said(), "name"@))
                            == Some(name);
                    assert(names_last(events, tid, x)) by {
                        assert forall|y: int| x < y < events.len() implies !((
                        #[trigger] events[y]).name@ == "thread_name"@ && events[y].tid == tid) by {
                            if y < n {
                                assert(rest[y] == events[y]);
                            }
                        }
                    }
                }
            }
        }
    }
}

proof fn lemma_runs(events: Seq<TraceEvent>, tid: u64)
    ensures
        runs(events, tid) <==> task_count(events, tid) > 0,
    decreases events.len(),
{
    if events.len() > 0 {
        let rest = events.drop_last();
        lemma_runs(rest, tid);
        if runs(rest, tid) {
            let i = choose|i: int| 0 <= i < rest.len() && task_on(#[trigger] rest[i], tid);
            assert(task_on(events[i], tid));
        }
        if runs(events, tid) {
            let i = choose|i: int| 0 <= i < events.len() && task_on(#[trigger] events[i], tid);
            if i < rest.len() {
                assert(task_on(rest[i], tid));
            }
        }
        if task_count(events, tid) > task_count(rest, tid) {
            assert(task_on(events[events.len() - 1], tid));
        }
    }
}

/// A thread that runs tasks and is named as the renderer's main thread comes
/// before all others: the main thread then runs tasks and is named so too.
pub proof fn lemma_renderer_first(events: Seq<TraceEvent>, tid: u64, other: u64)
    requires
        is_main_thread(events, tid),
        runs(events, other),
        named(events, other, "CrRendererMain"@) || named(events, other, "RendererMain"@),
    ensures
        runs(events, tid),
        named(events, tid, "CrRendererMain"@) || named(events, tid, "RendererMain"@),
{
    lemma_name(events, other);
    lemma_name(events, tid);
    lemma_runs(events, other);
    lemma_runs(events, tid);
    assert(round_rank(events, 0, other) == 3);
    assert(wins_round(events, 0, tid));
    assert(preferred(events, 0, tid, other));
    if let Some(name) = thread_name(events, tid) {
        assert(named(events, tid, name));
    }
}

/// Where no renderer main thread runs tasks, one that is named as a renderer
/// does; then the browser's main thread. The main thread is never one that runs
/// no tasks while a named one does.
pub proof fn lemma_named_next(events: Seq<TraceEvent>, tid: u64, other: u64)
    requires
        is_main_thread(events, tid),
        runs(events, other),
        named(events, other, "Renderer"@) || named(events, other, "CrBrowserMain"@) || named(
            events,
            other,
            "Main"@,
        ),
    ensures
        runs(events, tid),
        named(events, other, "Renderer"@) ==> named(events, tid, "CrRendererMain"@) || named(
            events,
            tid,
            "RendererMain"@,
        ) || named(events, tid, "Renderer"@),
        named(events, tid, "CrRendererMain"@) || named(events, tid, "RendererMain"@) || named(
            events,
            tid,
            "Renderer"@,
        ) || named(events, tid, "CrBrowserMain"@) || named(events, tid, "Main"@),
{
    lemma_name(events, other);
    lemma_name(events, tid);
    lemma_runs(events, other);
    lemma_runs(events, tid);
    lemma_main_names();
    assert(round_rank(events, 0, other) > 0);
    assert(wins_round(events, 0, tid));
    assert(preferred(events, 0, tid, other));
    if let Some(name) = thread_name(events, tid) {
        assert(named(events, tid, name));
    }
}

proof fn lemma_main_names()
    ensures
        "Renderer"@ != "CrRendererMain"@,
        "Renderer"@ != "RendererMain"@,
        "CrBrowserMain"@ != "CrRendererMain"@,
        "CrBrowserMain"@ != "RendererMain"@,
        "CrBrowserMain"@ != "Renderer"@,
        "Main"@ != "CrRendererMain"@,
        "Main"@ != "RendererMain"@,
        "Main"@ != "Renderer"@,
{
    reveal_strlit("CrRendererMain");
    reveal_strlit("RendererMain");
    reveal_strlit("Renderer");
    reveal_strlit("CrBrowserMain");
    reveal_strlit("Main");
    assert("CrRendererMain"@.len() == 14 && "RendererMain"@.len() == 12 && "Renderer"@.len() == 8
        && "CrBrowserMain"@.len() == 13 && "Main"@.len() == 4);
}

/// Of two threads with the same name, that with more tasks, then that with the
/// lower id.
pub proof fn lemma_more_tasks(events: Seq<TraceEvent>, tid: u64, other: u64, name: Seq<char>)
    requires
        is_main_thread(events, tid),
        runs(events, other),
        named(events, tid, name),
        named(events, other, name),
    ensures
        name == "CrRendererMain"@ || name == "RendererMain"@ || name == "Renderer"@ || name
            == "CrBrowserMain"@ || name == "Main"@ ==> task_count(events, tid) > task_count(
            events,
            other,
        ) || task_count(events, tid) == task_count(events, other) && tid <= other,
{
    lemma_name(events, other);
    lemma_name(events, tid);
    lemma_runs(events, other);
    if name == "CrRendererMain"@ || name == "RendererMain"@ || name == "Renderer"@ || name
        == "CrBrowserMain"@ || name == "Main"@ {
        assert(round_rank(events, 0, other) > 0);
        assert(wins_round(events, 0, tid));
        assert(preferred(events, 0, tid, other));
    }
}

/// A task counts one for its thread, and nothing for any other.
pub proof fn lemma_task_counts(events: Seq<TraceEvent>, k: int, e: TraceEvent, tid: u64)
    requires
        0 <= k <= events.len(),
    ensures
        task_count(events.insert(k, e), tid) == task_count(events, tid) + if task_on(e, tid) {
            1int
        } else {
            0int
        },
    decreases events.len(),
{
    let more = events.insert(k, e);
    if k == events.len() {
        assert(more.drop_last() =~= events);
        assert(more.last() == e);
    } else {
        lemma_task_counts(events.drop_last(), k, e, tid);
        assert(more.drop_last() =~= events.drop_last().insert(k, e));
        assert(more.last() == events.last());
    }
}

/// The name is that of a thread which is never the main thread: one for input
/// and output, of the GPU or the compositor, of a pool or a worker, for sound
/// or for memory.
pub open spec fn side_name(name: Seq<char>) -> bool {
    ||| has_sub(name, "IOThread"@)
    ||| name == "CrGpuMain"@
    ||| has_sub(name, "Compositor"@)
    ||| has_prefix(name, "ThreadPool"@)
    ||| has_sub(name, "Worker"@)
    ||| name == "AudioThread"@
    ||| name == "MemoryInfra"@
}

/// The thread has the name of one that is never the main thread.
pub open spec fn side_thread(events: Seq<TraceEvent>, tid: u64) -> bool {
    exists|name: Seq<char>| #[trigger] named(events, tid, name) && side_name(name)
}

proof fn lemma_side(events: Seq<TraceEvent>, tid: u64)
    ensures
        side_thread(events, tid) <==> (thread_name(events, tid) matches Some(name) && non_main(name)),
{
    lemma_name(events, tid);
    if let Some(name) = thread_name(events, tid) {
        assert(named(events, tid, name));
    }
}

/// The thread has the name of a main thread.
pub open spec fn main_name(events: Seq<TraceEvent>, tid: u64) -> bool {
    ||| named(events, tid, "CrRendererMain"@)
    ||| named(events, tid, "RendererMain"@)
    ||| named(events, tid, "Renderer"@)
    ||| named(events, tid, "CrBrowserMain"@)
    ||| named(events, tid, "Main"@)
}

proof fn lemma_no_main(events: Seq<TraceEvent>)
    requires
        forall|t: u64| runs(events, t) ==> !#[trigger] main_name(events, t),
    ensures
        round_empty(events, 0),
{
    assert forall|t: u64| #[trigger] round_rank(events, 0, t) == 0 by {
        lemma_name(events, t);
        lemma_runs(events, t);
        let m = main_name(events, t);
        if let Some(name) = thread_name(events, t) {
            assert(named(events, t, name));
        }
    }
}

/// Without a thread that is named as a main thread, the first task of more than
/// half a second decides, on a thread that is not one for other work.
pub proof fn lemma_long_task_decides(events: Seq<TraceEvent>, tid: u64, x: int, d: i64)
    requires
        is_main_thread(events, tid),
        forall|t: u64| runs(events, t) ==> !#[trigger] main_name(events, t),
        0 <= x < events.len(),
        task_on(events[x], events[x].tid),
        events[x].dur == Some(d),
        d > 500_000_000,
        !side_thread(events, events[x].tid),
        forall|y: int|
            0 <= y < x && task_on(#[trigger] events[y], events[y].tid) && events[y].dur is Some
                && events[y].dur->0 > 500_000_000 ==> side_thread(events, events[y].tid),
    ensures
        tid == events[x].tid,
{
    lemma_no_main(events);
    lemma_side(events, events[x].tid);
    assert(long_candidate(events, events[x]));
    assert(!no_long(events));
    let i = choose|i: int| #[trigger] first_long(events, i) && events[i].tid == tid;
    if i < x {
        lemma_side(events, events[i].tid);
        assert(task_on(events[i], events[i].tid));
        assert(side_thread(events, events[i].tid));
    }
    if x < i {
        assert(!long_candidate(events, events[x]));
    }
}

/// A thread for other work is the main thread only where no other thread runs
/// tasks.
pub proof fn lemma_side_last(events: Seq<TraceEvent>, tid: u64, other: u64)
    requires
        is_main_thread(events, tid),
        forall|t: u64| runs(events, t) ==> !#[trigger] main_name(events, t),
        runs(events, other),
        !side_thread(events, other),
    ensures
        runs(events, tid),
        !side_thread(events, tid),
{
    lemma_no_main(events);
    lemma_side(events, other);
    lemma_side(events, tid);
    lemma_runs(events, other);
    lemma_runs(events, tid);
    if no_long(events) {
        assert(round_rank(events, 1, other) == 1);
        assert(wins_round(events, 1, tid));
    } else {
        let i = choose|i: int| #[trigger] first_long(events, i) && events[i].tid == tid;
        assert(long_candidate(events, events[i]));
        assert(task_on(events[i], tid));
    }
}

/// There is one main thread.
pub proof fn lemma_one_main_thread(events: Seq<TraceEvent>, a: u64, b: u64)
    requires
        is_main_thread(events, a),
        is_main_thread(events, b),
    ensures
        a == b,
{
    if !round_empty(events, 0) {
        lemma_one_winner(events, 0, a, b);
    } else if !no_long(events) {
        let i = choose|i: int| #[trigger] first_long(events, i) && events[i].tid == a;
        let j = choose|j: int| #[trigger] first_long(events, j) && events[j].tid == b;
        if i < j {
            assert(!long_candidate(events, events[i]));
        }
        if j < i {
            assert(!long_candidate(events, events[j]));
        }
    } else if !round_empty(events, 1) {
        lemma_one_winner(events, 1, a, b);
    } else if !round_empty(events, 2) {
        lemma_one_winner(events, 2, a, b);
    }
}

proof fn lemma_one_winner(events: Seq<TraceEvent>, round: int, a: u64, b: u64)
    requires
        wins_round(events, round, a),
        wins_round(events, round, b),
    ensures
        a == b,
{
    assert(round_rank(events, round, a) > 0 && round_rank(events, round, b) > 0);
    assert(preferred(events, round, a, b));
    assert(preferred(events, round, b, a));
}

} // verus!
