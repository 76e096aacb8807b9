//! Which tasks are scroll frames, what they cost, and what their averages are,
//! said of the events.

use vstd::prelude::*;
use crate::analysis::common::{in_time_order, total, Ratio};
use crate::analysis::scroll::{
    child_cost,
    figure,
    frame_of,
    frames_of,
    heavy,
    is_scroll_task,
    scroll_of,
    scroll_tasks,
    FrameTask,
    ScrollFrameResult,
    COMPOSITE,
    HIT_TEST,
    JS,
    LAYOUT,
    PAINT,
    STYLE,
};
use crate::laws::sums::lemma_total_places;
use crate::sort::holds;
use crate::trace::event::TraceEvent;

verus! {

/// A complete task of the thread that takes `d`.
pub open spec fn task_of(e: TraceEvent, tid: u64, d: i64) -> bool {
    e.name@ == "RunTask"@ && e.ph == 88 && e.tid == tid && e.dur == Some(d)
}

/// A complete event of the thread with the given name that takes more than
/// fifty milliseconds and starts while the task runs.
pub open spec fn slow_child(task: TraceEvent, d: i64, e: TraceEvent, tid: u64, name: Seq<char>) -> bool {
    &&& e.name@ == name
    &&& e.ph == 88
    &&& e.tid == tid
    &&& e.dur matches Some(x) && x > 50_000_000
    &&& task.ts <= e.ts <= task.ts + d
}

/// The result holds a task with the start and the duration.
pub open spec fn has_frame(r: ScrollFrameResult, ts: i64, d: i64) -> bool {
    exists|i: int| 0 <= i < r.tasks@.len() && (#[trigger] r.tasks@[i]).ts == ts && r.tasks@[i].dur == d
}

proof fn lemma_listed(events: Seq<TraceEvent>, p: Seq<usize>, n: int, j: int)
    requires
        0 <= j < n <= p.len(),
        is_scroll_task(events, p, p[j] as int),
    ensures
        exists|i: int|
            0 <= i < scroll_tasks(events, p, n).len() && #[trigger] scroll_tasks(events, p, n)[i]
                == p[j],
    decreases n,
{
    let all = scroll_tasks(events, p, n);
    if j == n - 1 {
        assert(all[all.len() - 1] == p[j]);
    } else {
        lemma_listed(events, p, n - 1, j);
        let before = scroll_tasks(events, p, n - 1);
        let i = choose|i: int| 0 <= i < before.len() && #[trigger] before[i] == p[j];
        assert(all[i] == p[j]);
    }
}

proof fn lemma_listed_back(events: Seq<TraceEvent>, p: Seq<usize>, n: int, i: int)
    requires
        0 <= n <= p.len(),
        0 <= i < scroll_tasks(events, p, n).len(),
    ensures
        exists|j: int| 0 <= j < n && #[trigger] p[j] == scroll_tasks(events, p, n)[i],
        is_scroll_task(events, p, scroll_tasks(events, p, n)[i] as int),
    decreases n,
{
    if n > 0 {
        let before = scroll_tasks(events, p, n - 1);
        if i < before.len() {
            lemma_listed_back(events, p, n - 1, i);
            let j = choose|j: int| 0 <= j < n - 1 && #[trigger] p[j] == before[i];
            assert(p[j] == scroll_tasks(events, p, n)[i]);
        } else {
            assert(p[n - 1] == scroll_tasks(events, p, n)[i]);
        }
    }
}

proof fn lemma_slow_names()
    ensures
        "UpdateLayoutTree"@ != "FunctionCall"@,
{
    reveal_strlit("UpdateLayoutTree");
    reveal_strlit("FunctionCall");
    assert("UpdateLayoutTree"@.len() == 16 && "FunctionCall"@.len() == 12);
}

/// A task with a slow child is a scroll frame.
proof fn lemma_slow(
    events: Seq<TraceEvent>,
    tid: u64,
    r: ScrollFrameResult,
    t: int,
    d: i64,
    c: int,
)
    requires
        scroll_of(events, tid, r),
        0 <= t < events.len(),
        0 <= c < events.len(),
        task_of(events[t], tid, d),
        slow_child(events[t], d, events[c], tid, "UpdateLayoutTree"@) || slow_child(
            events[t],
            d,
            events[c],
            tid,
            "FunctionCall"@,
        ),
    ensures
        has_frame(r, events[t].ts, d),
{
    lemma_slow_names();
    let p = choose|p: Seq<usize>| #[trigger]
        in_time_order(events, tid, p) && frames_of(events, p, r.tasks@);
    assert(holds(p, t));
    assert(holds(p, c));
    let j = choose|j: int| 0 <= j < p.len() && #[trigger] p[j] == t;
    let k = choose|k: int| 0 <= k < p.len() && #[trigger] p[k] == c;
    assert(heavy(events[t], events[p[k] as int]));
    assert(is_scroll_task(events, p, p[j] as int));
    lemma_listed(events, p, p.len() as int, j);
    let list = scroll_tasks(events, p, p.len() as int);
    let i = choose|i: int| 0 <= i < list.len() && #[trigger] list[i] == p[j];
    assert(frame_of(events, p, list[i] as int, r.tasks@[i]));
}

/// A main-thread task within which style takes more than fifty milliseconds in
/// one go is a scroll frame.
pub proof fn lemma_slow_style(
    events: Seq<TraceEvent>,
    tid: u64,
    r: ScrollFrameResult,
    t: int,
    d: i64,
    c: int,
)
    requires
        scroll_of(events, tid, r),
        0 <= t < events.len(),
        0 <= c < events.len(),
        task_of(events[t], tid, d),
        slow_child(events[t], d, events[c], tid, "UpdateLayoutTree"@),
    ensures
        has_frame(r, events[t].ts, d),
{
    lemma_slow(events, tid, r, t, d, c);
}

/// A main-thread task within which a script call takes more than fifty
/// milliseconds is a scroll frame.
pub proof fn lemma_slow_script(
    events: Seq<TraceEvent>,
    tid: u64,
    r: ScrollFrameResult,
    t: int,
    d: i64,
    c: int,
)
    requires
        scroll_of(events, tid, r),
        0 <= t < events.len(),
        0 <= c < events.len(),
        task_of(events[t], tid, d),
        slow_child(events[t], d, events[c], tid, "FunctionCall"@),
    ensures
        has_frame(r, events[t].ts, d),
{
    lemma_slow(events, tid, r, t, d, c);
}

/// Frame `i` is that of event `t`: a main-thread task with a slow child, and its
/// costs are the times of the children that lie in it.
pub open spec fn frame_from(
    events: Seq<TraceEvent>,
    tid: u64,
    f: FrameTask,
    t: int,
    c: int,
) -> bool {
    &&& 0 <= t < events.len()
    &&& 0 <= c < events.len()
    &&& task_of(events[t], tid, f.dur)
    &&& f.ts == events[t].ts
    &&& slow_child(events[t], f.dur, events[c], tid, "UpdateLayoutTree"@) || slow_child(
        events[t],
        f.dur,
        events[c],
        tid,
        "FunctionCall"@,
    )
    &&& f.js == total(events, spent(tid, f.ts as int, f.ts + f.dur, "FunctionCall"@))
    &&& f.ult == total(events, spent(tid, f.ts as int, f.ts + f.dur, "UpdateLayoutTree"@))
    &&& f.paint == total(events, spent(tid, f.ts as int, f.ts + f.dur, "Paint"@))
    &&& f.composite == total(events, spent(tid, f.ts as int, f.ts + f.dur, "Layerize"@)) + total(
        events,
        spent(tid, f.ts as int, f.ts + f.dur, "Commit"@),
    )
    &&& f.hit_test == total(events, spent(tid, f.ts as int, f.ts + f.dur, "HitTest"@))
    &&& f.layout == total(events, spent(tid, f.ts as int, f.ts + f.dur, "Layout"@))
}

/// The time of a complete event of the thread that has the name and lies between
/// two times.
pub open spec fn spent(tid: u64, from: int, to: int, name: Seq<char>) -> spec_fn(TraceEvent) -> int {
    |e: TraceEvent|
        match e.dur {
            Some(d) => if e.tid == tid && e.ph == 88 && e.name@ == name && d > 0 && from <= e.ts
                && e.ts + d <= to {
                d as int
            } else {
                0
            },
            None => 0,
        }
}

proof fn lemma_cost_names()
    ensures
        "FunctionCall"@ != "UpdateLayoutTree"@,
        "FunctionCall"@ != "Paint"@,
        "FunctionCall"@ != "Layerize"@,
        "FunctionCall"@ != "Commit"@,
        "FunctionCall"@ != "HitTest"@,
        "FunctionCall"@ != "Layout"@,
        "UpdateLayoutTree"@ != "Paint"@,
        "UpdateLayoutTree"@ != "Layerize"@,
        "UpdateLayoutTree"@ != "Commit"@,
        "UpdateLayoutTree"@ != "HitTest"@,
        "UpdateLayoutTree"@ != "Layout"@,
        "Paint"@ != "Layerize"@,
        "Paint"@ != "Commit"@,
        "Paint"@ != "HitTest"@,
        "Paint"@ != "Layout"@,
        "Layerize"@ != "Commit"@,
        "Layerize"@ != "HitTest"@,
        "Layerize"@ != "Layout"@,
        "Commit"@ != "HitTest"@,
        "Commit"@ != "Layout"@,
        "HitTest"@ != "Layout"@,
{
    reveal_strlit("FunctionCall");
    assert("FunctionCall"@.len() == 12);
    reveal_strlit("UpdateLayoutTree");
    assert("UpdateLayoutTree"@.len() == 16);
    reveal_strlit("Paint");
    assert("Paint"@.len() == 5);
    reveal_strlit("Layerize");
    assert("Layerize"@.len() == 8);
    reveal_strlit("Commit");
    assert("Commit"@.len() == 6);
    reveal_strlit("HitTest");
    assert("HitTest"@.len() == 7);
    reveal_strlit("Layout");
    assert("Layout"@.len() == 6);
    assert("Commit"@[0] == 'C' && "Layout"@[0] == 'L');
}

/// What the children of one name cost, taken from the list of the thread's
/// events, is what all events of that name cost.
proof fn lemma_cost(
    events: Seq<TraceEvent>,
    tid: u64,
    p: Seq<usize>,
    t: int,
    d: i64,
    category: u8,
    g: spec_fn(TraceEvent) -> int,
)
    requires
        in_time_order(events, tid, p),
        0 <= t < events.len(),
        events[t].dur == Some(d),
        forall|x: usize|
            x < events.len() && events[x as int].tid == tid && events[x as int].ph == 88
                ==> #[trigger] child_cost(events, t, category)(x) == g(events[x as int]),
        forall|x: int|
            0 <= x < events.len() && !(events[x].tid == tid && events[x].ph == 88) ==> g(
                #[trigger] events[x],
            ) == 0,
    ensures
        total(p, child_cost(events, t, category)) == total(events, g),
{
    let listed = |e: TraceEvent| e.tid == tid && e.ph == 88;
    assert forall|i: int, j: int| 0 <= i < j < p.len() implies (#[trigger] p[i]) != (#[trigger] p[j]) by {
        assert(crate::analysis::common::earlier(events, p[i] as int, p[j] as int));
    }
    lemma_total_places(events, p, listed, child_cost(events, t, category), g);
}

proof fn lemma_two_sums(events: Seq<TraceEvent>, f: spec_fn(TraceEvent) -> int, g: spec_fn(TraceEvent) -> int)
    ensures
        total(events, |e: TraceEvent| f(e) + g(e)) == total(events, f) + total(events, g),
    decreases events.len(),
{
    if events.len() > 0 {
        lemma_two_sums(events.drop_last(), f, g);
    }
}

/// Every frame is that of a main-thread task with a slow child: a task that has
/// neither slow style nor a slow call is none. Its costs are the times of the
/// complete main-thread events that lie in it, by their names.
pub proof fn lemma_frames_from(events: Seq<TraceEvent>, tid: u64, r: ScrollFrameResult, i: int)
    requires
        scroll_of(events, tid, r),
        0 <= i < r.tasks@.len(),
    ensures
        exists|t: int, c: int| #[trigger] frame_from(events, tid, r.tasks@[i], t, c),
{
    lemma_cost_names();
    let f = r.tasks@[i];
    let p = choose|p: Seq<usize>| #[trigger]
        in_time_order(events, tid, p) && frames_of(events, p, r.tasks@);
    let list = scroll_tasks(events, p, p.len() as int);
    lemma_listed_back(events, p, p.len() as int, i);
    let t = list[i] as int;
    let w = choose|w: int| 0 <= w < p.len() && #[trigger] p[w] == list[i];
    assert(frame_of(events, p, t, f));
    let j = choose|j: int| 0 <= j < p.len() && heavy(events[t], #[trigger] events[p[j] as int]);
    let c = p[j] as int;
    let from = f.ts as int;
    let to = f.ts + f.dur;
    lemma_cost(events, tid, p, t, f.dur, JS, spent(tid, from, to, "FunctionCall"@));
    lemma_cost(events, tid, p, t, f.dur, STYLE, spent(tid, from, to, "UpdateLayoutTree"@));
    lemma_cost(events, tid, p, t, f.dur, PAINT, spent(tid, from, to, "Paint"@));
    let layerize = spent(tid, from, to, "Layerize"@);
    let commit = spent(tid, from, to, "Commit"@);
    lemma_cost(events, tid, p, t, f.dur, COMPOSITE, |e: TraceEvent| layerize(e) + commit(e));
    lemma_two_sums(events, layerize, commit);
    lemma_cost(events, tid, p, t, f.dur, HIT_TEST, spent(tid, from, to, "HitTest"@));
    lemma_cost(events, tid, p, t, f.dur, LAYOUT, spent(tid, from, to, "Layout"@));
    assert(frame_from(events, tid, f, t, c));
}

/// The average of a figure: what the frames have together, over their number.
pub open spec fn mean_of(r: ScrollFrameResult, f: spec_fn(FrameTask) -> int, avg: Ratio) -> bool {
    &&& avg.num == total(r.tasks@, f)
    &&& r.tasks@.len() > 0 ==> avg.den == r.tasks@.len()
    &&& r.tasks@.len() == 0 ==> avg.num == 0 && avg.den == 1
}

/// Each average is that of the figure which it names.
pub proof fn lemma_averages(events: Seq<TraceEvent>, tid: u64, r: ScrollFrameResult)
    requires
        scroll_of(events, tid, r),
    ensures
        mean_of(r, |t: FrameTask| t.dur as int, r.avg.dur),
        mean_of(r, |t: FrameTask| t.js as int, r.avg.js),
        mean_of(r, |t: FrameTask| t.ult as int, r.avg.ult),
        mean_of(r, |t: FrameTask| t.paint as int, r.avg.paint),
        mean_of(r, |t: FrameTask| t.composite as int, r.avg.composite),
        mean_of(r, |t: FrameTask| t.hit_test as int, r.avg.hit_test),
        mean_of(r, |t: FrameTask| t.layout as int, r.avg.layout),
{
    lemma_same_sum(r.tasks@, figure(0), |t: FrameTask| t.dur as int);
    lemma_same_sum(r.tasks@, figure(JS), |t: FrameTask| t.js as int);
    lemma_same_sum(r.tasks@, figure(STYLE), |t: FrameTask| t.ult as int);
    lemma_same_sum(r.tasks@, figure(PAINT), |t: FrameTask| t.paint as int);
    lemma_same_sum(r.tasks@, figure(COMPOSITE), |t: FrameTask| t.composite as int);
    lemma_same_sum(r.tasks@, figure(HIT_TEST), |t: FrameTask| t.hit_test as int);
    lemma_same_sum(r.tasks@, figure(LAYOUT), |t: FrameTask| t.layout as int);
}

proof fn lemma_same_sum(s: Seq<FrameTask>, f: spec_fn(FrameTask) -> int, g: spec_fn(FrameTask) -> int)
    requires
        forall|t: FrameTask| #[trigger] f(t) == g(t),
    ensures
        total(s, f) == total(s, g),
    decreases s.len(),
{
    if s.len() > 0 {
        lemma_same_sum(s.drop_last(), f, g);
    }
}

} // verus!
