//! Scroll-frame analysis: tasks whose children include heavy style or script
//! work, broken down by cost category.

use vstd::prelude::*;
use crate::analysis::common::{
    dur_of,
    dur_or_zero,
    earlier,
    end_of,
    end_time,
    find_percentile,
    in_time_order,
    lemma_total_bound,
    lemma_total_bound_by,
    lemma_total_skip,
    lemma_total_step,
    percentile,
    ticks_valued,
    time_ordered,
    total,
    Ratio,
};
use crate::analysis::style::at_least_one;
use crate::analysis::summary::LONG;
use crate::sort::{order, orders};
use crate::text::same;
use crate::trace::event::TraceEvent;

verus! {

/// Cost categories of a frame.
pub const JS: u8 = 1;

pub const STYLE: u8 = 2;

pub const PAINT: u8 = 3;

pub const COMPOSITE: u8 = 4;

pub const HIT_TEST: u8 = 5;

pub const LAYOUT: u8 = 6;

/// A task with the time of its children by category.
pub struct FrameTask {
    pub ts: i64,
    pub dur: i64,
    pub js: i128,
    pub ult: i128,
    pub paint: i128,
    pub composite: i128,
    pub hit_test: i128,
    pub layout: i128,
}

/// Averages over the tasks.
#[derive(Clone, Copy)]
pub struct FrameAverages {
    pub dur: Ratio,
    pub js: Ratio,
    pub ult: Ratio,
    pub paint: Ratio,
    pub composite: Ratio,
    pub hit_test: Ratio,
    pub layout: Ratio,
}

/// Percentiles of the tasks' durations.
#[derive(Clone, Copy)]
pub struct ScrollFramePercentiles {
    pub p50: i64,
    pub p90: i64,
    pub p99: i64,
}

/// The scroll frames of a trace.
pub struct ScrollFrameResult {
    pub tasks: Vec<FrameTask>,
    pub avg: FrameAverages,
    pub percentiles: ScrollFramePercentiles,
}

/// The costs in the order in which they are compared, with their labels.
pub open spec fn cost_at(t: FrameTask, k: int) -> i128 {
    if k == 0 {
        t.js
    } else if k == 1 {
        t.ult
    } else if k == 2 {
        t.layout
    } else if k == 3 {
        t.paint
    } else if k == 4 {
        t.composite
    } else {
        t.hit_test
    }
}

/// All costs, in the order in which they are compared.
pub open spec fn costs_of(t: FrameTask) -> Seq<i128> {
    Seq::new(6, |k: int| cost_at(t, k))
}

pub open spec fn cost_label(k: int) -> Seq<char> {
    if k == 0 {
        "JS"@
    } else if k == 1 {
        "Style"@
    } else if k == 2 {
        "Layout"@
    } else if k == 3 {
        "Paint"@
    } else if k == 4 {
        "Composite"@
    } else {
        "HitTest"@
    }
}

pub open spec fn short_label(k: int) -> Seq<char> {
    if k == 4 {
        "Comp"@
    } else if k == 5 {
        "Hit"@
    } else {
        cost_label(k)
    }
}

/// Cost `k` is the largest, the last of the largest where several are equal.
pub open spec fn dominant(costs: Seq<i128>, k: int) -> bool {
    &&& 0 <= k < costs.len()
    &&& forall|j: int| 0 <= j < costs.len() ==> #[trigger] costs[j] <= costs[k]
    &&& forall|j: int| k < j < costs.len() ==> #[trigger] costs[j] < costs[k]
}

/// The label of the dominant cost.
pub open spec fn bottleneck_label(costs: Seq<i128>) -> Seq<char> {
    cost_label(choose|k: int| dominant(costs, k))
}

/// The label of the dominant cost.
fn dominant_label(costs: &Vec<i128>) -> (r: &'static str)
    requires
        costs@.len() == 6,
    ensures
        r@ == bottleneck_label(costs@),
{
    let mut best: usize = 0;
    let mut k: usize = 1;
    while k < 6
        invariant
            1 <= k <= 6,
            best < k,
            costs@.len() == 6,
            forall|j: int| 0 <= j < k ==> #[trigger] costs@[j] <= costs@[best as int],
            forall|j: int| best < j < k ==> #[trigger] costs@[j] < costs@[best as int],
        decreases 6 - k,
    {
        if costs[k] >= costs[best] {
            best = k;
        }
        k = k + 1;
    }
    proof {
        assert(dominant(costs@, best as int));
        let k = choose|k: int| dominant(costs@, k);
        assert(costs@[best as int] <= costs@[k] && costs@[k] <= costs@[best as int]);
        assert(k == best);
    }
    if best == 0 {
        "JS"
    } else if best == 1 {
        "Style"
    } else if best == 2 {
        "Layout"
    } else if best == 3 {
        "Paint"
    } else if best == 4 {
        "Composite"
    } else {
        "HitTest"
    }
}

/// The averages' sums in the order in which they are compared. All have one
/// denominator, so they compare as the averages do.
pub open spec fn average_costs(a: FrameAverages) -> Seq<i128> {
    seq![a.js.num, a.ult.num, a.layout.num, a.paint.num, a.composite.num, a.hit_test.num]
}

impl FrameAverages {
    /// Name of the dominant cost category.
    pub fn bottleneck(&self) -> (r: &'static str)
        ensures
            r@ == bottleneck_label(average_costs(*self)),
    {
        let mut v: Vec<i128> = Vec::new();
        v.push(self.js.num);
        v.push(self.ult.num);
        v.push(self.layout.num);
        v.push(self.paint.num);
        v.push(self.composite.num);
        v.push(self.hit_test.num);
        assert(v@ =~= average_costs(*self));
        dominant_label(&v)
    }
}

impl FrameTask {
    fn costs(&self) -> (r: Vec<i128>)
        ensures
            r@.len() == 6,
            forall|k: int| 0 <= k < 6 ==> #[trigger] r@[k] == cost_at(*self, k),
    {
        let mut v: Vec<i128> = Vec::new();
        v.push(self.js);
        v.push(self.ult);
        v.push(self.layout);
        v.push(self.paint);
        v.push(self.composite);
        v.push(self.hit_test);
        v
    }

    /// Name of the dominant cost category.
    pub fn bottleneck(&self) -> (r: &'static str)
        ensures
            r@ == bottleneck_label(costs_of(*self)),
    {
        let costs = self.costs();
        assert(costs@ =~= costs_of(*self));
        dominant_label(&costs)
    }

    /// The costs with their short labels, largest first.
    pub fn breakdown(&self) -> (r: Vec<(&'static str, i128)>)
        ensures
            exists|p: Seq<usize>|
                {
                    &&& #[trigger] orders(costs_of(*self), true, p)
                    &&& r@.len() == 6
                    &&& forall|i: int|
                        0 <= i < 6 ==> (#[trigger] r@[i]).0@ == short_label(p[i] as int) && r@[i].1
                            == cost_at(*self, p[i] as int)
                },
    {
        let costs = self.costs();
        assert(costs@ =~= costs_of(*self));
        let p = order(&costs, true);
        let mut out: Vec<(&'static str, i128)> = Vec::new();
        let mut i: usize = 0;
        while i < 6
            invariant
                i <= 6,
                p@.len() == 6,
                costs@.len() == 6,
                forall|j: int| 0 <= j < 6 ==> #[trigger] costs@[j] == cost_at(*self, j),
                orders(costs@, true, p@),
                out@.len() == i,
                forall|j: int|
                    0 <= j < i ==> (#[trigger] out@[j]).0@ == short_label(p@[j] as int) && out@[j].1
                        == cost_at(*self, p@[j] as int),
            decreases 6 - i,
        {
            let k = p[i];
            let label = if k == 0 {
                "JS"
            } else if k == 1 {
                "Style"
            } else if k == 2 {
                "Layout"
            } else if k == 3 {
                "Paint"
            } else if k == 4 {
                "Comp"
            } else {
                "Hit"
            };
            out.push((label, costs[k]));
            i = i + 1;
        }
        out
    }
}

/// The cost category of an event name.
pub open spec fn category(name: Seq<char>) -> u8 {
    if name == "FunctionCall"@ {
        JS
    } else if name == "UpdateLayoutTree"@ {
        STYLE
    } else if name == "Paint"@ {
        PAINT
    } else if name == "Layerize"@ || name == "Commit"@ {
        COMPOSITE
    } else if name == "HitTest"@ {
        HIT_TEST
    } else if name == "Layout"@ {
        LAYOUT
    } else {
        0
    }
}

fn category_of(name: &str) -> (r: u8)
    ensures
        r == category(name@),
{
    if same(name, "FunctionCall") {
        JS
    } else if same(name, "UpdateLayoutTree") {
        STYLE
    } else if same(name, "Paint") {
        PAINT
    } else if same(name, "Layerize") || same(name, "Commit") {
        COMPOSITE
    } else if same(name, "HitTest") {
        HIT_TEST
    } else if same(name, "Layout") {
        LAYOUT
    } else {
        0
    }
}

/// The event starts while the task runs.
pub open spec fn starts_within(task: TraceEvent, e: TraceEvent) -> bool {
    task.ts <= e.ts && e.ts <= end_of(task)
}

/// A child that makes a task a scroll frame: long style or script work.
pub open spec fn heavy(task: TraceEvent, e: TraceEvent) -> bool {
    &&& starts_within(task, e)
    &&& dur_of(e) > LONG
    &&& category(e.name@) == STYLE || category(e.name@) == JS
}

/// What a child adds to a category: its duration, when it lies in the task.
pub open spec fn child_cost(events: Seq<TraceEvent>, task: int, c: u8) -> spec_fn(usize) -> int {
    |x: usize|
        {
            let e = events[x as int];
            let t = events[task];
            if starts_within(t, e) && dur_of(e) > 0 && end_of(e) <= end_of(t) && category(e.name@)
                == c {
                dur_of(e)
            } else {
                0
            }
        }
}

/// Event `task` is a task with a heavy child.
pub open spec fn is_scroll_task(events: Seq<TraceEvent>, p: Seq<usize>, task: int) -> bool {
    &&& events[task].name@ == "RunTask"@
    &&& events[task].dur is Some
    &&& exists|j: int| 0 <= j < p.len() && heavy(events[task], #[trigger] events[p[j] as int])
}

/// The scroll tasks among the first `n` events of the time-ordered list.
pub open spec fn scroll_tasks(events: Seq<TraceEvent>, p: Seq<usize>, n: int) -> Seq<usize>
    decreases n,
{
    if n <= 0 {
        Seq::empty()
    } else {
        let before = scroll_tasks(events, p, n - 1);
        if is_scroll_task(events, p, p[n - 1] as int) {
            before.push(p[n - 1])
        } else {
            before
        }
    }
}

/// The figures of one task.
pub open spec fn frame_of(events: Seq<TraceEvent>, p: Seq<usize>, task: int, t: FrameTask) -> bool {
    &&& t.ts == events[task].ts
    &&& t.dur == dur_of(events[task])
    &&& t.js == total(p, child_cost(events, task, JS))
    &&& t.ult == total(p, child_cost(events, task, STYLE))
    &&& t.paint == total(p, child_cost(events, task, PAINT))
    &&& t.composite == total(p, child_cost(events, task, COMPOSITE))
    &&& t.hit_test == total(p, child_cost(events, task, HIT_TEST))
    &&& t.layout == total(p, child_cost(events, task, LAYOUT))
}

/// The frames of the scroll tasks.
pub open spec fn frames_of(events: Seq<TraceEvent>, p: Seq<usize>, tasks: Seq<FrameTask>) -> bool {
    let list = scroll_tasks(events, p, p.len() as int);
    &&& tasks.len() == list.len()
    &&& forall|i: int|
        0 <= i < tasks.len() ==> frame_of(events, p, list[i] as int, #[trigger] tasks[i])
}

pub open spec fn frame_durs(tasks: Seq<FrameTask>) -> Seq<i128> {
    tasks.map_values(|t: FrameTask| t.dur as i128)
}

/// A figure of a task: its duration, or its time in a category.
pub open spec fn figure(k: u8) -> spec_fn(FrameTask) -> int {
    |t: FrameTask|
        if k == JS {
            t.js as int
        } else if k == STYLE {
            t.ult as int
        } else if k == PAINT {
            t.paint as int
        } else if k == COMPOSITE {
            t.composite as int
        } else if k == HIT_TEST {
            t.hit_test as int
        } else if k == LAYOUT {
            t.layout as int
        } else {
            t.dur as int
        }
}

/// The average of a figure over the tasks.
pub open spec fn averages(tasks: Seq<FrameTask>, f: spec_fn(FrameTask) -> int, r: Ratio) -> bool {
    r.num == total(tasks, f) && r.den == at_least_one(tasks.len())
}

/// What each field of the result says.
pub open spec fn scroll_of(events: Seq<TraceEvent>, main_tid: u64, r: ScrollFrameResult) -> bool {
    let tasks = r.tasks@;
    let durs = frame_durs(tasks);
    &&& exists|p: Seq<usize>| #[trigger]
        in_time_order(events, main_tid, p) && frames_of(events, p, tasks)
    &&& averages(tasks, figure(0), r.avg.dur)
    &&& averages(tasks, figure(JS), r.avg.js)
    &&& averages(tasks, figure(STYLE), r.avg.ult)
    &&& averages(tasks, figure(PAINT), r.avg.paint)
    &&& averages(tasks, figure(COMPOSITE), r.avg.composite)
    &&& averages(tasks, figure(HIT_TEST), r.avg.hit_test)
    &&& averages(tasks, figure(LAYOUT), r.avg.layout)
    &&& percentile(durs, 50, r.percentiles.p50 as int)
    &&& percentile(durs, 90, r.percentiles.p90 as int)
    &&& percentile(durs, 99, r.percentiles.p99 as int)
}

/// Before `lo` nothing starts within the task, from `lo` on nothing starts
/// before it.
pub open spec fn window_start(events: Seq<TraceEvent>, p: Seq<usize>, task: int, lo: int) -> bool {
    &&& 0 <= lo <= p.len()
    &&& forall|j: int| 0 <= j < lo ==> events[#[trigger] p[j] as int].ts < events[task].ts
    &&& forall|j: int| lo <= j < p.len() ==> events[#[trigger] p[j] as int].ts >= events[task].ts
}

/// Whether a task has a heavy child.
fn has_heavy(events: &[TraceEvent], p: &Vec<usize>, task: usize, lo: usize, Ghost(tid): Ghost<u64>) -> (r:
    bool)
    requires
        in_time_order(events@, tid, p@),
        task < events@.len(),
        window_start(events@, p@, task as int, lo as int),
    ensures
        r == exists|j: int|
            0 <= j < p@.len() && heavy(events@[task as int], #[trigger] events@[p@[j] as int]),
{
    let end = end_time(&events[task]);
    let mut j: usize = lo;
    while j < p.len() && events[p[j]].ts as i128 <= end
        invariant
            in_time_order(events@, tid, p@),
            task < events@.len(),
            window_start(events@, p@, task as int, lo as int),
            lo <= j <= p@.len(),
            end == end_of(events@[task as int]),
            forall|k: int| lo <= k < j ==> !heavy(events@[task as int], #[trigger] events@[p@[k] as int]),
        decreases p@.len() - j,
    {
        let e = &events[p[j]];
        let c = category_of(e.name.as_str());
        assert(p@[j as int] < events@.len());
        if dur_or_zero(e) > LONG && (c == STYLE || c == JS) {
            assert(heavy(events@[task as int], events@[p@[j as int] as int]));
            return true;
        }
        j = j + 1;
    }
    assert forall|k: int| 0 <= k < p@.len() implies !heavy(
        events@[task as int],
        #[trigger] events@[p@[k] as int],
    ) by {
        let x = p@[k];
        if k >= j && k > j {
            assert(earlier(events@, p@[j as int] as int, p@[k] as int));
        }
    }
    false
}

/// The time of a task's children of one category.
fn window_cost(
    events: &[TraceEvent],
    p: &Vec<usize>,
    task: usize,
    lo: usize,
    c: u8,
    Ghost(tid): Ghost<u64>,
) -> (r: i128)
    requires
        in_time_order(events@, tid, p@),
        task < events@.len(),
        window_start(events@, p@, task as int, lo as int),
    ensures
        r == total(p@, child_cost(events@, task as int, c)),
{
    let end = end_time(&events[task]);
    let ghost f = child_cost(events@, task as int, c);
    let mut sum: i128 = 0;
    let mut j: usize = lo;
    proof {
        assert forall|k: int| 0 <= k < lo implies f(#[trigger] p@[k]) == 0 by {}
        lemma_total_skip(p@, f, 0, lo as int);
        assert(p@.take(0) =~= Seq::<usize>::empty());
    }
    while j < p.len() && events[p[j]].ts as i128 <= end
        invariant
            in_time_order(events@, tid, p@),
            task < events@.len(),
            window_start(events@, p@, task as int, lo as int),
            lo <= j <= p@.len(),
            end == end_of(events@[task as int]),
            f == child_cost(events@, task as int, c),
            sum == total(p@.take(j as int), f),
        decreases p@.len() - j,
    {
        let e = &events[p[j]];
        let d = dur_or_zero(e);
        let ghost x = p@[j as int];
        proof {
            assert(ticks_valued(f));
            lemma_total_bound(p@.take(j as int), f);
            lemma_total_step(p@, f, j as int);
        }
        if d > 0 && end_time(e) <= end && category_of(e.name.as_str()) == c {
            sum = sum + d as i128;
        }
        j = j + 1;
    }
    proof {
        assert forall|k: int| j <= k < p@.len() implies f(#[trigger] p@[k]) == 0 by {
            if k > j {
                assert(earlier(events@, p@[j as int] as int, p@[k] as int));
            }
        }
        lemma_total_skip(p@, f, j as int, p@.len() as int);
        assert(p@.take(p@.len() as int) =~= p@);
    }
    sum
}

/// The first position whose event does not start before the task.
pub(crate) fn move_start(
    events: &[TraceEvent],
    p: &Vec<usize>,
    task: usize,
    from: usize,
    Ghost(tid): Ghost<u64>,
) -> (lo: usize)
    requires
        in_time_order(events@, tid, p@),
        task < events@.len(),
        from <= p@.len(),
        forall|j: int| 0 <= j < from ==> events@[#[trigger] p@[j] as int].ts < events@[task as int].ts,
    ensures
        window_start(events@, p@, task as int, lo as int),
{
    let start = events[task].ts;
    let mut lo: usize = from;
    while lo < p.len() && events[p[lo]].ts < start
        invariant
            in_time_order(events@, tid, p@),
            task < events@.len(),
            start == events@[task as int].ts,
            from <= lo <= p@.len(),
            forall|j: int| 0 <= j < lo ==> events@[#[trigger] p@[j] as int].ts < start,
        decreases p@.len() - lo,
    {
        lo = lo + 1;
    }
    assert forall|j: int| lo <= j < p@.len() implies events@[#[trigger] p@[j] as int].ts >= start by {
        if j > lo {
            assert(earlier(events@, p@[lo as int] as int, p@[j] as int));
        }
    }
    lo
}

/// Every figure of the tasks is within this bound.
const FIGURE_BOUND: i128 = 0x7fff_ffff_8000_0000_0000_0000;

/// The average of a figure over the tasks.
fn average(tasks: &Vec<FrameTask>, k: u8) -> (r: Ratio)
    requires
        tasks@.len() <= u32::MAX,
        forall|i: int|
            0 <= i < tasks@.len() ==> -FIGURE_BOUND <= figure(k)(#[trigger] tasks@[i]) <= FIGURE_BOUND,
    ensures
        averages(tasks@, figure(k), r),
{
    let ghost f = figure(k);
    let mut sum: i128 = 0;
    let mut i: usize = 0;
    assert(tasks@.take(0) =~= Seq::<FrameTask>::empty());
    while i < tasks.len()
        invariant
            i <= tasks@.len() <= u32::MAX,
            f == figure(k),
            forall|j: int|
                0 <= j < tasks@.len() ==> -FIGURE_BOUND <= f(#[trigger] tasks@[j]) <= FIGURE_BOUND,
            sum == total(tasks@.take(i as int), f),
        decreases tasks@.len() - i,
    {
        let t = &tasks[i];
        let v: i128 = if k == JS {
            t.js
        } else if k == STYLE {
            t.ult
        } else if k == PAINT {
            t.paint
        } else if k == COMPOSITE {
            t.composite
        } else if k == HIT_TEST {
            t.hit_test
        } else if k == LAYOUT {
            t.layout
        } else {
            t.dur as i128
        };
        proof {
            let s = tasks@.take(i as int);
            assert forall|j: int| 0 <= j < s.len() implies -FIGURE_BOUND <= f(#[trigger] s[j])
                <= FIGURE_BOUND by {
                assert(s[j] == tasks@[j]);
            }
            lemma_total_bound_by(s, f, FIGURE_BOUND as int);
            lemma_total_step(tasks@, f, i as int);
            assert(f(tasks@[i as int]) == v);
        }
        sum = sum + v;
        i = i + 1;
    }
    assert(tasks@.take(tasks@.len() as int) =~= tasks@);
    let den: i128 = if tasks.len() == 0 {
        1
    } else {
        tasks.len() as i128
    };
    Ratio { num: sum, den }
}

/// The frame of a task.
fn build_frame(
    events: &[TraceEvent],
    p: &Vec<usize>,
    task: usize,
    lo: usize,
    Ghost(tid): Ghost<u64>,
) -> (t: FrameTask)
    requires
        in_time_order(events@, tid, p@),
        p@.len() <= u32::MAX,
        task < events@.len(),
        window_start(events@, p@, task as int, lo as int),
    ensures
        frame_of(events@, p@, task as int, t),
        forall|k: u8| -FIGURE_BOUND <= #[trigger] figure(k)(t) <= FIGURE_BOUND,
{
    let t = FrameTask {
        ts: events[task].ts,
        dur: dur_or_zero(&events[task]),
        js: window_cost(events, p, task, lo, JS, Ghost(tid)),
        ult: window_cost(events, p, task, lo, STYLE, Ghost(tid)),
        paint: window_cost(events, p, task, lo, PAINT, Ghost(tid)),
        composite: window_cost(events, p, task, lo, COMPOSITE, Ghost(tid)),
        hit_test: window_cost(events, p, task, lo, HIT_TEST, Ghost(tid)),
        layout: window_cost(events, p, task, lo, LAYOUT, Ghost(tid)),
    };
    proof {
        assert forall|c: u8|
            -FIGURE_BOUND <= total(p@, #[trigger] child_cost(events@, task as int, c))
                <= FIGURE_BOUND by {
            let f = child_cost(events@, task as int, c);
            assert(ticks_valued(f));
            lemma_total_bound(p@, f);
        }
        let a = child_cost(events@, task as int, JS);
        let b = child_cost(events@, task as int, STYLE);
    }
    t
}

/// Analyze the scroll frames of the main thread.
pub fn analyze_scroll_frames(events: &[TraceEvent], main_tid: u64) -> (r: ScrollFrameResult)
    requires
        events@.len() <= u32::MAX,
    ensures
        scroll_of(events@, main_tid, r),
{
    let p = time_ordered(events, main_tid);
    let m = p.len();
    let mut tasks: Vec<FrameTask> = Vec::new();
    let mut durs: Vec<i128> = Vec::new();
    let mut lo: usize = 0;
    let mut i: usize = 0;
    while i < m
        invariant
            m == p@.len(),
            m <= u32::MAX,
            i <= m,
            lo <= m,
            in_time_order(events@, main_tid, p@),
            forall|j: int, k: int|
                0 <= j < lo && i <= k < m ==> events@[#[trigger] p@[j] as int].ts
                    < events@[#[trigger] p@[k] as int].ts,
            tasks@.len() == scroll_tasks(events@, p@, i as int).len(),
            tasks@.len() <= i,
            forall|j: int|
                0 <= j < tasks@.len() ==> frame_of(
                    events@,
                    p@,
                    scroll_tasks(events@, p@, i as int)[j] as int,
                    #[trigger] tasks@[j],
                ),
            forall|j: int, k: u8|
                0 <= j < tasks@.len() ==> -FIGURE_BOUND <= #[trigger] figure(k)(tasks@[j])
                    <= FIGURE_BOUND,
            durs@ =~= frame_durs(tasks@),
        decreases m - i,
    {
        let task = p[i];
        let e = &events[task];
        let ghost list = scroll_tasks(events@, p@, i as int);
        if same(e.name.as_str(), "RunTask") && e.dur.is_some() {
            assert forall|j: int| 0 <= j < lo implies events@[#[trigger] p@[j] as int].ts < e.ts by {
                assert(p@[i as int] == task);
            }
            lo = move_start(events, &p, task, lo, Ghost(main_tid));
            assert forall|j: int, k: int| 0 <= j < lo && i + 1 <= k < m implies events@[
            #[trigger] p@[j] as int].ts < events@[#[trigger] p@[k] as int].ts by {
                assert(earlier(events@, p@[i as int] as int, p@[k] as int));
            }
            if has_heavy(events, &p, task, lo, Ghost(main_tid)) {
                let t = build_frame(events, &p, task, lo, Ghost(main_tid));
                let ghost before = tasks@;
                durs.push(t.dur as i128);
                tasks.push(t);
                assert(durs@ =~= frame_durs(tasks@));
                assert forall|j: int| 0 <= j < tasks@.len() implies frame_of(
                    events@,
                    p@,
                    list.push(task)[j] as int,
                    #[trigger] tasks@[j],
                ) by {
                    if j < before.len() {
                        assert(tasks@[j] == before[j]);
                    }
                }
                assert forall|j: int, k: u8| 0 <= j < tasks@.len() implies -FIGURE_BOUND
                    <= #[trigger] figure(k)(tasks@[j]) <= FIGURE_BOUND by {
                    if j < before.len() {
                        assert(tasks@[j] == before[j]);
                    }
                }
            }
        }
        i = i + 1;
    }
    let q = order(&durs, false);
    proof {
        assert forall|j: int| 0 <= j < durs@.len() implies i64::MIN <= #[trigger] durs@[j]
            <= i64::MAX by {
            assert(durs@[j] == frame_durs(tasks@)[j]);
        }
    }
    let percentiles = ScrollFramePercentiles {
        p50: find_percentile(&durs, &q, 50) as i64,
        p90: find_percentile(&durs, &q, 90) as i64,
        p99: find_percentile(&durs, &q, 99) as i64,
    };
    let avg = FrameAverages {
        dur: average(&tasks, 0),
        js: average(&tasks, JS),
        ult: average(&tasks, STYLE),
        paint: average(&tasks, PAINT),
        composite: average(&tasks, COMPOSITE),
        hit_test: average(&tasks, HIT_TEST),
        layout: average(&tasks, LAYOUT),
    };
    ScrollFrameResult { tasks, avg, percentiles }
}

} // verus!
