//! Trace-level metadata, main-thread detection and trace file names.

use vstd::prelude::*;
use crate::json::{get_opt, member_opt, str_opt};
use crate::table::IdTable;
use crate::text::{contains, has_prefix, has_sub, same, starts_with};
use crate::trace::event::{opt_chars, TraceEvent};

verus! {

/// The phase of complete events, `X`.
pub const PH_COMPLETE: u8 = 88;

/// Names of the events that carry metadata.
pub open spec fn metadata_name(name: Seq<char>) -> bool {
    ||| name == "thread_name"@
    ||| name == "process_name"@
    ||| name == "thread_sort_index"@
    ||| name == "process_sort_index"@
}

/// A metadata event: by its name or its category.
pub open spec fn is_metadata(e: TraceEvent) -> bool {
    metadata_name(e.name@) || opt_chars(e.cat) == Some("__metadata"@)
}

/// Metadata events carry times from process start, often far before the
/// session. They are left out of time-base computations.
pub fn is_metadata_event(e: &TraceEvent) -> (r: bool)
    ensures
        r == is_metadata(*e),
{
    let n = e.name.as_str();
    if same(n, "thread_name") || same(n, "process_name") || same(n, "thread_sort_index") || same(
        n,
        "process_sort_index",
    ) {
        return true;
    }
    match &e.cat {
        Some(c) => same(c.as_str(), "__metadata"),
        None => false,
    }
}

/// Names of threads that run tasks but are never the main thread.
pub open spec fn non_main(name: Seq<char>) -> bool {
    ||| has_sub(name, "IOThread"@)
    ||| name == "CrGpuMain"@
    ||| has_sub(name, "Compositor"@)
    ||| has_prefix(name, "ThreadPool"@)
    ||| has_sub(name, "Worker"@)
    ||| name == "AudioThread"@
    ||| name == "MemoryInfra"@
}

/// Threads that carry tasks but are never the main thread.
pub fn is_known_non_main(name: &str) -> (r: bool)
    ensures
        r == non_main(name@),
{
    contains(name, "IOThread") || same(name, "CrGpuMain") || contains(name, "Compositor")
        || starts_with(name, "ThreadPool") || contains(name, "Worker") || same(name, "AudioThread")
        || same(name, "MemoryInfra")
}

/// Detection priority of a thread name; 0 for no opinion.
pub open spec fn name_priority(name: Seq<char>) -> u8 {
    if name == "CrRendererMain"@ || name == "RendererMain"@ {
        3
    } else if name == "Renderer"@ {
        2
    } else if name == "CrBrowserMain"@ || name == "Main"@ {
        1
    } else {
        0
    }
}

/// Detection priority for thread names: the renderer main outranks the browser
/// main.
pub fn main_name_priority(name: &str) -> (r: u8)
    ensures
        r == name_priority(name@),
{
    if same(name, "CrRendererMain") || same(name, "RendererMain") {
        3
    } else if same(name, "Renderer") {
        2
    } else if same(name, "CrBrowserMain") || same(name, "Main") {
        1
    } else {
        0
    }
}

/// A complete task event.
pub open spec fn is_run_task(e: TraceEvent) -> bool {
    e.name@ == "RunTask"@ && e.ph == PH_COMPLETE
}

/// Whether the event is a complete task.
pub fn run_task(e: &TraceEvent) -> (r: bool)
    ensures
        r == is_run_task(*e),
{
    e.ph == PH_COMPLETE && same(e.name.as_str(), "RunTask")
}

/// The `name` argument of a `thread_name` event.
pub open spec fn named_in(e: TraceEvent) -> Option<Seq<char>> {
    str_opt(member_opt(e@.said(), "name"@))
}

/// The name that the last `thread_name` event of a thread gives it.
pub open spec fn thread_name(events: Seq<TraceEvent>, tid: u64) -> Option<Seq<char>>
    decreases events.len(),
{
    if events.len() == 0 {
        None
    } else {
        let e = events.last();
        if e.name@ == "thread_name"@ && e.tid == tid {
            named_in(e)
        } else {
            thread_name(events.drop_last(), tid)
        }
    }
}

/// Number of complete tasks of a thread.
pub open spec fn task_count(events: Seq<TraceEvent>, tid: u64) -> nat
    decreases events.len(),
{
    if events.len() == 0 {
        0
    } else {
        let e = events.last();
        task_count(events.drop_last(), tid) + if is_run_task(e) && e.tid == tid {
            1nat
        } else {
            0nat
        }
    }
}

/// The rank of a thread for one round of the choice, `0` when it does not take
/// part: by name in the first round; in the later ones any thread takes part,
/// known non-main threads in the last only.
pub open spec fn round_rank(events: Seq<TraceEvent>, round: int, tid: u64) -> int {
    if task_count(events, tid) == 0 {
        0
    } else if round == 0 {
        match thread_name(events, tid) {
            Some(name) => name_priority(name) as int,
            None => 0,
        }
    } else if round == 1 {
        match thread_name(events, tid) {
            Some(name) => if non_main(name) {
                0
            } else {
                1
            },
            None => 1,
        }
    } else {
        1
    }
}

/// Thread `a` is preferred to `b`: by rank, then by number of tasks, then by
/// the lower id.
pub open spec fn preferred(events: Seq<TraceEvent>, round: int, a: u64, b: u64) -> bool {
    let ra = round_rank(events, round, a);
    let rb = round_rank(events, round, b);
    let ca = task_count(events, a);
    let cb = task_count(events, b);
    ra > rb || ra == rb && (ca > cb || ca == cb && a <= b)
}

/// `tid` takes part in the round and is preferred to every other thread.
pub open spec fn wins_round(events: Seq<TraceEvent>, round: int, tid: u64) -> bool {
    &&& round_rank(events, round, tid) > 0
    &&& forall|other: u64|
        #[trigger] round_rank(events, round, other) > 0 ==> preferred(events, round, tid, other)
}

/// No thread takes part in the round.
pub open spec fn round_empty(events: Seq<TraceEvent>, round: int) -> bool {
    forall|tid: u64| #[trigger] round_rank(events, round, tid) == 0
}

/// Half a second, in nanoseconds.
pub const LONG_TASK: i64 = 500_000_000;

/// A task longer than half a second, on a thread not ruled out by its name.
pub open spec fn long_candidate(events: Seq<TraceEvent>, e: TraceEvent) -> bool {
    &&& is_run_task(e)
    &&& e.dur matches Some(d) && d > LONG_TASK
    &&& thread_name(events, e.tid) matches Some(name) ==> !non_main(name)
}

/// The first long task of the trace is event `i`.
pub open spec fn first_long(events: Seq<TraceEvent>, i: int) -> bool {
    &&& 0 <= i < events.len()
    &&& long_candidate(events, events[i])
    &&& forall|j: int| 0 <= j < i ==> !long_candidate(events, #[trigger] events[j])
}

pub open spec fn no_long(events: Seq<TraceEvent>) -> bool {
    forall|j: int| 0 <= j < events.len() ==> !long_candidate(events, #[trigger] events[j])
}

/// The main thread. First a thread whose name marks it as a main thread and
/// that runs tasks; then the thread of the first long task; then the one with
/// the most tasks, known non-main threads last; else 0.
pub open spec fn is_main_thread(events: Seq<TraceEvent>, tid: u64) -> bool {
    if !round_empty(events, 0) {
        wins_round(events, 0, tid)
    } else if !no_long(events) {
        exists|i: int| #[trigger] first_long(events, i) && events[i].tid == tid
    } else if !round_empty(events, 1) {
        wins_round(events, 1, tid)
    } else if !round_empty(events, 2) {
        wins_round(events, 2, tid)
    } else {
        tid == 0
    }
}

/// Threads with their names and task counts.
struct Threads {
    tids: IdTable,
    names: Vec<Option<String>>,
    counts: Vec<usize>,
}

spec fn threads_of(t: Threads, events: Seq<TraceEvent>) -> bool {
    &&& t.tids.wf()
    &&& t.names@.len() == t.tids@.len()
    &&& t.counts@.len() == t.tids@.len()
    &&& forall|i: int|
        0 <= i < t.tids@.len() ==> {
            &&& opt_chars(#[trigger] t.names@[i]) == thread_name(events, t.tids@[i])
            &&& t.counts@[i] == task_count(events, t.tids@[i])
        }
    &&& forall|tid: u64|
        !t.tids@.contains(tid) ==> (#[trigger] thread_name(events, tid)) is None && task_count(
            events,
            tid,
        ) == 0
}

fn slot(t: &mut Threads, tid: u64, Ghost(events): Ghost<Seq<TraceEvent>>) -> (r: usize)
    requires
        threads_of(*old(t), events),
    ensures
        threads_of(*final(t), events),
        r < final(t).tids@.len(),
        final(t).tids@[r as int] == tid,
{
    let n = t.tids.len();
    let ghost before = *t;
    let i = t.tids.add(tid);
    if t.tids.len() > n {
        t.names.push(None);
        t.counts.push(0);
    }
    proof {
        assert forall|k: int| 0 <= k < t.tids@.len() implies {
            &&& opt_chars(#[trigger] t.names@[k]) == thread_name(events, t.tids@[k])
            &&& t.counts@[k] == task_count(events, t.tids@[k])
        } by {
            if k < n {
                assert(t.tids@[k] == before.tids@[k]);
                assert(t.names@[k] == before.names@[k]);
            } else {
                assert(thread_name(events, tid) is None);
            }
        }
        assert forall|x: u64| !t.tids@.contains(x) implies (#[trigger] thread_name(events, x)) is None
            && task_count(events, x) == 0 by {
            if before.tids@.contains(x) {
                let w = choose|w: int| 0 <= w < before.tids@.len() && before.tids@[w] == x;
                assert(t.tids@[w] == x);
            }
        }
    }
    i
}

fn collect_threads(events: &[TraceEvent]) -> (t: Threads)
    ensures
        threads_of(t, events@),
{
    let n = events.len();
    let mut t = Threads { tids: IdTable::new(), names: Vec::new(), counts: Vec::new() };
    let mut i: usize = 0;
    assert(events@.take(0) =~= Seq::<TraceEvent>::empty());
    while i < n
        invariant
            n == events@.len(),
            i <= n,
            threads_of(t, events@.take(i as int)),
        decreases n - i,
    {
        let e = &events[i];
        let ghost seen = events@.take(i as int);
        let ghost more = events@.take(i + 1);
        proof {
            assert(more.drop_last() =~= seen);
            assert(more.last() == *e);
        }
        if same(e.name.as_str(), "thread_name") {
            let k = slot(&mut t, e.tid, Ghost(seen));
            let found = get_opt(e.args_value(), "name");
            let name: Option<String> = match found {
                Some(j) => match j.as_str() {
                    Some(s) => Some(s.to_owned()),
                    None => None,
                },
                None => None,
            };
            let ghost before = t;
            t.names.set(k, name);
            proof {
                reveal_strlit("thread_name");
                reveal_strlit("RunTask");
                assert("thread_name"@.len() != "RunTask"@.len());
                assert(opt_chars(name) == named_in(*e));
                assert(opt_chars(before.names@[k as int]) == thread_name(seen, e.tid));
                lemma_threads_step(before, t, seen, more, *e, k as int);
            }
        } else if run_task(e) {
            let k = slot(&mut t, e.tid, Ghost(seen));
            let ghost before = t;
            proof {
                reveal_strlit("thread_name");
                reveal_strlit("RunTask");
                assert("thread_name"@.len() != "RunTask"@.len());
                assert(opt_chars(t.names@[k as int]) == thread_name(seen, e.tid));
                lemma_task_count_bound(seen, e.tid);
            }
            let c: usize = t.counts[k];
            t.counts.set(k, c + 1);
            proof {
                lemma_threads_step(before, t, seen, more, *e, k as int);
            }
        } else {
            proof {
                assert forall|tid: u64| #[trigger] thread_name(more, tid) == thread_name(seen, tid)
                    && task_count(more, tid) == task_count(seen, tid) by {}
            }
        }
        i = i + 1;
    }
    assert(events@.take(n as int) =~= events@);
    t
}

proof fn lemma_task_count_bound(events: Seq<TraceEvent>, tid: u64)
    ensures
        task_count(events, tid) <= events.len(),
    decreases events.len(),
{
    if events.len() > 0 {
        lemma_task_count_bound(events.drop_last(), tid);
    }
}

/// One more event, recorded in slot `k` of its thread.
proof fn lemma_threads_step(
    before: Threads,
    after: Threads,
    seen: Seq<TraceEvent>,
    more: Seq<TraceEvent>,
    e: TraceEvent,
    k: int,
)
    requires
        threads_of(before, seen),
        more.len() > 0,
        more.drop_last() == seen,
        more.last() == e,
        after.tids == before.tids,
        0 <= k < before.tids@.len(),
        before.tids@[k] == e.tid,
        after.names@.len() == before.names@.len(),
        after.counts@.len() == before.counts@.len(),
        forall|i: int| 0 <= i < before.names@.len() && i != k ==> after.names@[i] == before.names@[i],
        forall|i: int| 0 <= i < before.counts@.len() && i != k ==> after.counts@[i] == before.counts@[i],
        opt_chars(after.names@[k]) == thread_name(more, e.tid),
        after.counts@[k] == task_count(more, e.tid),
        e.name@ == "thread_name"@ || is_run_task(e),
    ensures
        threads_of(after, more),
{
    assert forall|i: int| 0 <= i < after.tids@.len() implies {
        &&& opt_chars(#[trigger] after.names@[i]) == thread_name(more, after.tids@[i])
        &&& after.counts@[i] == task_count(more, after.tids@[i])
    } by {
        if i != k {
            if after.tids@[i] == e.tid {
                before.tids.lemma_distinct(i, k);
            }
            assert(opt_chars(before.names@[i]) == thread_name(seen, before.tids@[i]));
        }
    }
    assert forall|x: u64| !after.tids@.contains(x) implies (#[trigger] thread_name(more, x)) is None
        && task_count(more, x) == 0 by {
        assert(thread_name(seen, x) is None);
        if x == e.tid {
            assert(after.tids@[k] == x);
        }
    }
}

fn rank_of(t: &Threads, round: u8, i: usize, Ghost(events): Ghost<Seq<TraceEvent>>) -> (r: u8)
    requires
        threads_of(*t, events),
        i < t.tids@.len(),
        round <= 2,
    ensures
        r == round_rank(events, round as int, t.tids@[i as int]),
{
    assert(opt_chars(t.names@[i as int]) == thread_name(events, t.tids@[i as int]));
    if t.counts[i] == 0 {
        return 0;
    }
    match &t.names[i] {
        Some(name) => if round == 0 {
            main_name_priority(name.as_str())
        } else if round == 1 && is_known_non_main(name.as_str()) {
            0
        } else {
            1
        },
        None => if round == 0 {
            0
        } else {
            1
        },
    }
}

/// The winner of a round.
fn play_round(t: &Threads, round: u8, Ghost(events): Ghost<Seq<TraceEvent>>) -> (r: Option<u64>)
    requires
        threads_of(*t, events),
        round <= 2,
    ensures
        match r {
            Some(tid) => wins_round(events, round as int, tid),
            None => round_empty(events, round as int),
        },
{
    let n = t.tids.len();
    let mut best: Option<usize> = None;
    let mut i: usize = 0;
    while i < n
        invariant
            n == t.tids@.len(),
            i <= n,
            round <= 2,
            threads_of(*t, events),
            match best {
                Some(b) => b < i && round_rank(events, round as int, t.tids@[b as int]) > 0
                    && forall|j: int|
                    0 <= j < i && round_rank(events, round as int, #[trigger] t.tids@[j]) > 0
                        ==> preferred(events, round as int, t.tids@[b as int], t.tids@[j]),
                None => forall|j: int|
                    0 <= j < i ==> round_rank(events, round as int, #[trigger] t.tids@[j]) == 0,
            },
        decreases n - i,
    {
        let rank = rank_of(t, round, i, Ghost(events));
        if rank > 0 {
            let better = match best {
                Some(b) => {
                    let other = rank_of(t, round, b, Ghost(events));
                    assert(opt_chars(t.names@[b as int]) == thread_name(
                        events,
                        t.tids@[b as int],
                    ));
                    assert(opt_chars(t.names@[i as int]) == thread_name(
                        events,
                        t.tids@[i as int],
                    ));
                    rank > other || rank == other && (t.counts[i] > t.counts[b] || t.counts[i]
                        == t.counts[b] && t.tids.id(i) < t.tids.id(b))
                },
                None => true,
            };
            if better {
                best = Some(i);
            }
        }
        i = i + 1;
    }
    proof {
        assert forall|tid: u64| !t.tids@.contains(tid) implies #[trigger] round_rank(
            events,
            round as int,
            tid,
        ) == 0 by {
            assert(thread_name(events, tid) is None);
        }
        assert forall|tid: u64| t.tids@.contains(tid) && best is None implies #[trigger] round_rank(
            events,
            round as int,
            tid,
        ) == 0 by {
            let w = choose|w: int| 0 <= w < t.tids@.len() && t.tids@[w] == tid;
            assert(t.tids@[w] == tid);
        }
        if best is Some {
            let b = best->0;
            assert forall|tid: u64| #[trigger]
                round_rank(events, round as int, tid) > 0 implies preferred(
                events,
                round as int,
                t.tids@[b as int],
                tid,
            ) by {
                let w = choose|w: int| 0 <= w < t.tids@.len() && t.tids@[w] == tid;
                assert(t.tids@[w] == tid);
            }
        }
    }
    match best {
        Some(b) => Some(t.tids.id(b)),
        None => None,
    }
}

/// Detect the main thread for busy and long-task analysis.
pub fn detect_main_thread(events: &[TraceEvent]) -> (tid: u64)
    ensures
        is_main_thread(events@, tid),
{
    let t = collect_threads(events);
    if let Some(tid) = play_round(&t, 0, Ghost(events@)) {
        return tid;
    }
    let n = events.len();
    let mut i: usize = 0;
    while i < n
        invariant
            n == events@.len(),
            i <= n,
            threads_of(t, events@),
            round_empty(events@, 0),
            forall|j: int| 0 <= j < i ==> !long_candidate(events@, #[trigger] events@[j]),
        decreases n - i,
    {
        let e = &events[i];
        if run_task(e) {
            let long = match e.dur {
                Some(d) => d > LONG_TASK,
                None => false,
            };
            let ruled_out = match t.tids.find(e.tid) {
                Some(k) => {
                    assert(opt_chars(t.names@[k as int]) == thread_name(
                        events@,
                        t.tids@[k as int],
                    ));
                    match &t.names[k] {
                        Some(name) => is_known_non_main(name.as_str()),
                        None => false,
                    }
                },
                None => {
                    assert(thread_name(events@, e.tid) is None);
                    false
                },
            };
            if long && !ruled_out {
                assert(first_long(events@, i as int));
                return e.tid;
            }
        }
        i = i + 1;
    }
    if let Some(tid) = play_round(&t, 1, Ghost(events@)) {
        return tid;
    }
    if let Some(tid) = play_round(&t, 2, Ghost(events@)) {
        return tid;
    }
    0
}

} // verus!
